//! Layers: neurons, in order, that all receive the same inputs.

use vstd::prelude::*;
use crate::codec::{
    layer_at, layer_shaped, layer_words, lemma_layer_span_monotonic, lemma_layer_span_step,
    neuron_at, uniform, NeuronView,
};
use crate::error::NetworkError;
use crate::neuron::{neuron_drawn, Neuron};
use crate::response::{
    computes, layer_answer, layer_response, lemma_layer_response_is_answer, neuron_response,
    total,
};
use crate::source::WeightSource;
use crate::topology::{layer_span, neuron_span};

verus! {

/// A layer: neurons, in order, with the same number of weights each.
#[derive(Debug)]
pub struct Layer {
    neurons: Vec<Neuron>,
}

impl View for Layer {
    type V = Seq<NeuronView>;

    closed spec fn view(&self) -> Seq<NeuronView> {
        Seq::new(self.neurons@.len(), |j: int| self.neurons@[j]@)
    }
}

impl Layer {
    #[verifier::type_invariant]
    spec fn same_inputs(self) -> bool {
        uniform(self@)
    }

    /// A layer of `output_size` neurons with `input_size` weights each, every
    /// neuron drawn from `rng` in order.
    pub fn random<D: FnMut() -> u32>(rng: &mut D, input_size: usize, output_size: usize) -> (layer:
        Layer)
        requires
            forall|source: D| call_requires(source, ()),
        ensures
            layer_shaped(layer@, input_size as nat, output_size as nat),
            forall|j: int| 0 <= j < layer@.len() ==> neuron_drawn::<D>(#[trigger] layer@[j]),
    {
        let mut neurons: Vec<Neuron> = Vec::new();
        let mut j: usize = 0;
        while j < output_size
            invariant
                j <= output_size,
                neurons.len() == j,
                forall|source: D| call_requires(source, ()),
                forall|k: int|
                    0 <= k < neurons.len() ==> (#[trigger] neurons[k])@.weights.len()
                        == input_size,
                forall|k: int| 0 <= k < neurons.len() ==> neuron_drawn::<D>((#[trigger] neurons[k])@),
            decreases output_size - j,
        {
            let neuron = Neuron::random(rng, input_size);
            neurons.push(neuron);
            j += 1;
        }
        Layer { neurons }
    }

    /// The layer of `output_size` neurons with `input_size` inputs each that
    /// `weights` begins with, neuron after neuron. Fails when the words run
    /// out first, and has then used them all up.
    pub fn from_weights(input_size: usize, output_size: usize, weights: &mut WeightSource) -> (result:
        Result<Layer, NetworkError>)
        ensures
            match result {
                Ok(layer) => {
                    &&& old(weights)@.len() >= layer_span(input_size as nat, output_size as nat)
                    &&& layer@ == layer_at(input_size as nat, output_size as nat, old(weights)@)
                    &&& final(weights)@ == old(weights)@.skip(
                        layer_span(input_size as nat, output_size as nat) as int,
                    )
                },
                Err(e) => {
                    &&& e == NetworkError::InsufficientWeights
                    &&& old(weights)@.len() < layer_span(input_size as nat, output_size as nat)
                    &&& final(weights)@.len() == 0
                },
            },
    {
        let ghost all = weights@;
        let ghost span = neuron_span(input_size as nat);
        let mut neurons: Vec<Neuron> = Vec::new();
        let mut j: usize = 0;
        proof {
            lemma_layer_span_step(input_size as nat, 0);
            assert(all.skip(0) =~= all);
        }
        while j < output_size
            invariant
                j <= output_size,
                neurons.len() == j,
                all == old(weights)@,
                span == neuron_span(input_size as nat),
                all.len() >= layer_span(input_size as nat, j as nat),
                weights@ == all.skip(layer_span(input_size as nat, j as nat) as int),
                forall|k: int|
                    0 <= k < neurons.len() ==> (#[trigger] neurons[k])@ == neuron_at(
                        input_size as nat,
                        all.skip(k * span),
                    ),
                forall|k: int|
                    0 <= k < neurons.len() ==> (#[trigger] neurons[k])@.weights.len()
                        == input_size,
            decreases output_size - j,
        {
            proof {
                lemma_layer_span_step(input_size as nat, j as nat);
                lemma_layer_span_monotonic(input_size as nat, (j + 1) as nat, output_size as nat);
            }
            let neuron = match Neuron::from_weights(input_size, weights) {
                Ok(neuron) => neuron,
                Err(e) => {
                    return Err(e);
                },
            };
            proof {
                assert(weights@ =~= all.skip(layer_span(input_size as nat, (j + 1) as nat) as int));
                assert(j * span == layer_span(input_size as nat, j as nat));
            }
            neurons.push(neuron);
            j += 1;
        }
        let layer = Layer { neurons };
        assert(layer@ =~= layer_at(input_size as nat, output_size as nat, all));
        Ok(layer)
    }

    /// The words of the layer: those of its neurons, in order.
    pub fn to_weights(&self) -> (words: Vec<u32>)
        ensures
            words@ == layer_words(self@),
    {
        let mut words: Vec<u32> = Vec::new();
        let mut j: usize = 0;
        while j < self.neurons.len()
            invariant
                j <= self.neurons.len(),
                words@ == layer_words(self@.take(j as int)),
            decreases self.neurons.len() - j,
        {
            let mut part = self.neurons[j].to_weights();
            words.append(&mut part);
            proof {
                assert(self@.take(j + 1).drop_last() =~= self@.take(j as int));
            }
            j += 1;
        }
        assert(self@.take(self.neurons.len() as int) =~= self@);
        words
    }

    /// The answer of the layer to `inputs`: the answer of each neuron to the
    /// same inputs, in the order of the neurons. Fails when some neuron has
    /// not one weight per input.
    pub fn propagate<M: Fn(u32, u32) -> u32, A: Fn(u32, u32) -> u32>(
        &self,
        inputs: Vec<u32>,
        times: &M,
        plus: &A,
    ) -> (result: Result<Vec<u32>, NetworkError>)
        requires
            total(*times),
            total(*plus),
        ensures
            match result {
                Ok(outputs) => layer_response(*times, *plus, self@, inputs@, outputs@),
                Err(e) => {
                    &&& e == NetworkError::DimensionMismatch
                    &&& exists|j: int|
                        0 <= j < self@.len() && (#[trigger] self@[j]).weights.len() != inputs@.len()
                },
            },
            forall|product: spec_fn(u32, u32) -> u32, sum: spec_fn(u32, u32) -> u32|
                computes(*times, product) && computes(*plus, sum) && result is Ok
                    ==> result->Ok_0@ == #[trigger] layer_answer(product, sum, self@, inputs@),
    {
        let mut outputs: Vec<u32> = Vec::new();
        let mut j: usize = 0;
        while j < self.neurons.len()
            invariant
                j <= self.neurons.len(),
                outputs.len() == j,
                total(*times),
                total(*plus),
                forall|k: int|
                    0 <= k < j ==> neuron_response(
                        *times,
                        *plus,
                        #[trigger] self@[k],
                        inputs@,
                        outputs@[k],
                    ),
            decreases self.neurons.len() - j,
        {
            match self.neurons[j].propagate(inputs.as_slice(), times, plus) {
                Ok(output) => {
                    outputs.push(output);
                },
                Err(e) => {
                    assert(self@[j as int].weights.len() != inputs@.len());
                    return Err(e);
                },
            }
            j += 1;
        }
        proof {
            assert forall|product: spec_fn(u32, u32) -> u32, sum: spec_fn(u32, u32) -> u32|
                computes(*times, product) && computes(*plus, sum) implies outputs@
                == #[trigger] layer_answer(product, sum, self@, inputs@) by {
                lemma_layer_response_is_answer(
                    *times,
                    *plus,
                    product,
                    sum,
                    self@,
                    inputs@,
                    outputs@,
                );
            }
        }
        Ok(outputs)
    }
}

} // verus!

//! Neurons: a bias and one weight per input.

use vstd::prelude::*;
use crate::codec::{neuron_at, neuron_words, NeuronView};
use crate::error::NetworkError;
use crate::response::{
    computes, lemma_neuron_response_is_answer, neuron_answer, neuron_response, total,
    weighted_sum,
};
use crate::source::WeightSource;
use crate::topology::neuron_span;
use crate::word::{rectified, rectify, ZERO};

verus! {

/// The word `w` is a possible result of a pseudorandom source of the type `D`.
pub open spec fn may_yield<D: FnMut() -> u32>(w: u32) -> bool {
    exists|source: D| call_ensures(source, (), w)
}

/// The bias and every weight of `neuron` are possible results of a
/// pseudorandom source of the type `D`.
pub open spec fn neuron_drawn<D: FnMut() -> u32>(neuron: NeuronView) -> bool {
    &&& may_yield::<D>(neuron.bias)
    &&& forall|i: int| 0 <= i < neuron.weights.len() ==> may_yield::<D>(#[trigger] neuron.weights[i])
}

/// A neuron: a bias and one weight per input.
#[derive(Debug)]
pub struct Neuron {
    bias: u32,
    weights: Vec<u32>,
}

impl View for Neuron {
    type V = NeuronView;

    closed spec fn view(&self) -> NeuronView {
        NeuronView { bias: self.bias, weights: self.weights@ }
    }
}

impl Neuron {
    /// A neuron with `input_size` weights. The bias is drawn from `rng` first,
    /// then the weights in order, one call of `rng` for each.
    pub fn random<D: FnMut() -> u32>(rng: &mut D, input_size: usize) -> (neuron: Neuron)
        requires
            forall|source: D| call_requires(source, ()),
        ensures
            neuron@.weights.len() == input_size,
            neuron_drawn::<D>(neuron@),
    {
        let bias: u32 = rng();
        let mut weights: Vec<u32> = Vec::new();
        let mut i: usize = 0;
        while i < input_size
            invariant
                i <= input_size,
                weights.len() == i,
                forall|source: D| call_requires(source, ()),
                forall|k: int| 0 <= k < weights.len() ==> may_yield::<D>(#[trigger] weights[k]),
            decreases input_size - i,
        {
            let weight: u32 = rng();
            weights.push(weight);
            i += 1;
        }
        Neuron { bias, weights }
    }

    /// The neuron with `input_size` inputs that `weights` begins with: the
    /// next word is the bias, the `input_size` words after it are the weights.
    /// Fails when the words run out first, and has then used them all up.
    pub fn from_weights(input_size: usize, weights: &mut WeightSource) -> (result: Result<
        Neuron,
        NetworkError,
    >)
        ensures
            match result {
                Ok(neuron) => {
                    &&& old(weights)@.len() >= neuron_span(input_size as nat)
                    &&& neuron@ == neuron_at(input_size as nat, old(weights)@)
                    &&& final(weights)@ == old(weights)@.skip(
                        neuron_span(input_size as nat) as int,
                    )
                },
                Err(e) => {
                    &&& e == NetworkError::InsufficientWeights
                    &&& old(weights)@.len() < neuron_span(input_size as nat)
                    &&& final(weights)@.len() == 0
                },
            },
    {
        let bias: u32 = match weights.next() {
            Some(word) => word,
            None => {
                return Err(NetworkError::InsufficientWeights);
            },
        };
        let mut read: Vec<u32> = Vec::new();
        let mut i: usize = 0;
        while i < input_size
            invariant
                i <= input_size,
                read.len() == i,
                old(weights)@.len() >= 1 + i,
                read@ == old(weights)@.subrange(1, 1 + i),
                weights@ == old(weights)@.skip(1 + i),
            decreases input_size - i,
        {
            match weights.next() {
                Some(word) => {
                    read.push(word);
                },
                None => {
                    return Err(NetworkError::InsufficientWeights);
                },
            }
            assert(read@ =~= old(weights)@.subrange(1, 2 + i));
            assert(weights@ =~= old(weights)@.skip(2 + i));
            i += 1;
        }
        Ok(Neuron { bias, weights: read })
    }

    /// The words of the neuron: its bias, then its weights in order.
    pub fn to_weights(&self) -> (words: Vec<u32>)
        ensures
            words@ == neuron_words(self@),
    {
        let mut words: Vec<u32> = Vec::new();
        words.push(self.bias);
        let mut i: usize = 0;
        while i < self.weights.len()
            invariant
                i <= self.weights.len(),
                words@ == seq![self.bias] + self.weights@.take(i as int),
            decreases self.weights.len() - i,
        {
            words.push(self.weights[i]);
            assert(words@ =~= seq![self.bias] + self.weights@.take(i + 1));
            i += 1;
        }
        assert(self.weights@.take(self.weights.len() as int) =~= self.weights@);
        words
    }

    /// The answer of the neuron to `inputs`: the products of each input and
    /// its weight are added up from positive zero, in order, then the bias is
    /// added, and the result is rectified. Fails when there is not one weight
    /// per input.
    pub fn propagate<M: Fn(u32, u32) -> u32, A: Fn(u32, u32) -> u32>(
        &self,
        inputs: &[u32],
        times: &M,
        plus: &A,
    ) -> (result: Result<u32, NetworkError>)
        requires
            total(*times),
            total(*plus),
        ensures
            match result {
                Ok(output) => neuron_response(*times, *plus, self@, inputs@, output),
                Err(e) => e == NetworkError::DimensionMismatch && inputs@.len()
                    != self@.weights.len(),
            },
            forall|product: spec_fn(u32, u32) -> u32, sum: spec_fn(u32, u32) -> u32|
                computes(*times, product) && computes(*plus, sum) && result is Ok
                    ==> result->Ok_0 == #[trigger] neuron_answer(product, sum, self@, inputs@),
    {
        if inputs.len() != self.weights.len() {
            return Err(NetworkError::DimensionMismatch);
        }
        let mut sum: u32 = ZERO;
        let mut i: usize = 0;
        while i < inputs.len()
            invariant
                i <= inputs.len(),
                inputs.len() == self.weights.len(),
                total(*times),
                total(*plus),
                weighted_sum(*times, *plus, inputs@, self.weights@, i as nat, sum),
            decreases inputs.len() - i,
        {
            let term: u32 = times(inputs[i], self.weights[i]);
            let next: u32 = plus(sum, term);
            sum = next;
            i += 1;
        }
        let biased: u32 = plus(sum, self.bias);
        let output: u32 = rectify(biased);
        proof {
            assert(weighted_sum(*times, *plus, inputs@, self@.weights, inputs@.len(), sum)
                && call_ensures(*plus, (sum, self@.bias), biased) && output == rectified(biased));
            assert forall|product: spec_fn(u32, u32) -> u32, sum: spec_fn(u32, u32) -> u32|
                computes(*times, product) && computes(*plus, sum) implies output
                == #[trigger] neuron_answer(product, sum, self@, inputs@) by {
                lemma_neuron_response_is_answer(
                    *times,
                    *plus,
                    product,
                    sum,
                    self@,
                    inputs@,
                    output,
                );
            }
        }
        Ok(output)
    }
}

} // verus!

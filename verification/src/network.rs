//! Networks: layers, in order, the outputs of each being the inputs of the
//! next.

use vstd::prelude::*;
use crate::codec::{
    accepts, chained, layer_at, layer_shaped, lemma_network_words_of_read, lemma_span_before_monotonic,
    network_at, network_words, read_network, shaped, NeuronView,
};
use crate::laws::law_topology_fits;
use crate::error::NetworkError;
use crate::layer::Layer;
use crate::neuron::neuron_drawn;
use crate::response::{
    computes, layer_response, lemma_response_is_answer, lemma_response_shape, network_answer,
    network_response, total,
};
use crate::source::WeightSource;
use crate::topology::{layer_span, sizes, span_before, LayerTopology};
use crate::word::is_non_negative;

verus! {

/// The bias and every weight of every neuron of `net` are possible results of
/// a pseudorandom source of the type `D`.
pub open spec fn network_drawn<D: FnMut() -> u32>(net: Seq<Seq<NeuronView>>) -> bool {
    forall|i: int, j: int|
        0 <= i < net.len() && 0 <= j < net[i].len() ==> neuron_drawn::<D>(#[trigger] net[i][j])
}

/// A feed-forward network: at least one layer, and each neuron of a later
/// layer has one weight per neuron of the layer before.
#[derive(Debug)]
pub struct Network {
    layers: Vec<Layer>,
}

impl View for Network {
    type V = Seq<Seq<NeuronView>>;

    closed spec fn view(&self) -> Seq<Seq<NeuronView>> {
        Seq::new(self.layers@.len(), |i: int| self.layers@[i]@)
    }
}

impl Network {
    #[verifier::type_invariant]
    spec fn fits(self) -> bool {
        chained(self@)
    }

    /// A network of the topology `layers` with every bias and weight drawn
    /// from `rng`: layer after layer, neuron after neuron, the bias of a neuron
    /// before its weights. Fails when the topology has fewer than two entries.
    pub fn random<D: FnMut() -> u32>(rng: &mut D, layers: &[LayerTopology]) -> (result: Result<
        Network,
        NetworkError,
    >)
        requires
            forall|source: D| call_requires(source, ()),
        ensures
            match result {
                Ok(net) => shaped(net@, sizes(layers@)) && network_drawn::<D>(net@),
                Err(e) => e == NetworkError::InvalidTopology && layers@.len() < 2,
            },
    {
        if layers.len() < 2 {
            return Err(NetworkError::InvalidTopology);
        }
        let ghost t = sizes(layers@);
        let mut built: Vec<Layer> = Vec::new();
        let mut i: usize = 0;
        while i + 1 < layers.len()
            invariant
                layers.len() >= 2,
                i + 1 <= layers.len(),
                built.len() == i,
                t == sizes(layers@),
                forall|source: D| call_requires(source, ()),
                forall|k: int|
                    0 <= k < built.len() ==> layer_shaped((#[trigger] built[k])@, t[k], t[k + 1]),
                forall|k: int, j: int|
                    0 <= k < built.len() && 0 <= j < built[k]@.len() ==> neuron_drawn::<D>(
                        #[trigger] built[k]@[j],
                    ),
            decreases layers.len() - i,
        {
            let layer = Layer::random(rng, layers[i].neurons, layers[i + 1].neurons);
            built.push(layer);
            i += 1;
        }
        proof {
            let net = Seq::new(built@.len(), |k: int| built@[k]@);
            assert(shaped(net, t));
            law_topology_fits(net, t, 0);
        }
        Ok(Network { layers: built })
    }

    /// The network of the topology `layers` whose words are `weights`: read
    /// layer after layer, neuron after neuron, the bias of a neuron before its
    /// weights. Fails when the topology has fewer than two entries, when the
    /// words run out before the last neuron is complete, and when words are
    /// left over after it.
    pub fn from_weights(layers: &[LayerTopology], weights: Vec<u32>) -> (result: Result<
        Network,
        NetworkError,
    >)
        ensures
            match result {
                Ok(net) => read_network(sizes(layers@), weights@) == Ok::<
                    Seq<Seq<NeuronView>>,
                    NetworkError,
                >(net@) && shaped(net@, sizes(layers@)),
                Err(e) => read_network(sizes(layers@), weights@) == Err::<
                    Seq<Seq<NeuronView>>,
                    NetworkError,
                >(e),
            },
    {
        if layers.len() < 2 {
            return Err(NetworkError::InvalidTopology);
        }
        let ghost t = sizes(layers@);
        let ghost all = weights@;
        let mut source = WeightSource::new(weights);
        let mut built: Vec<Layer> = Vec::new();
        let mut i: usize = 0;
        proof {
            assert(all.skip(0) =~= all);
        }
        while i + 1 < layers.len()
            invariant
                layers.len() >= 2,
                i + 1 <= layers.len(),
                built.len() == i,
                t == sizes(layers@),
                all == weights@,
                all.len() >= span_before(t, i as nat),
                source@ == all.skip(span_before(t, i as nat) as int),
                forall|k: int|
                    0 <= k < built.len() ==> (#[trigger] built[k])@ == layer_at(
                        t[k],
                        t[k + 1],
                        all.skip(span_before(t, k as nat) as int),
                    ),
            decreases layers.len() - i,
        {
            proof {
                lemma_span_before_monotonic(t, (i + 1) as nat, (t.len() - 1) as nat);
                assert(span_before(t, (i + 1) as nat) == span_before(t, i as nat) + layer_span(
                    t[i as int],
                    t[i + 1],
                ));
            }
            let layer = match Layer::from_weights(
                layers[i].neurons,
                layers[i + 1].neurons,
                &mut source,
            ) {
                Ok(layer) => layer,
                Err(e) => {
                    return Err(e);
                },
            };
            proof {
                assert(source@ =~= all.skip(span_before(t, (i + 1) as nat) as int));
            }
            built.push(layer);
            i += 1;
        }
        if source.remaining() > 0 {
            return Err(NetworkError::ExcessWeights);
        }
        let ghost net = Seq::new(built@.len(), |k: int| built@[k]@);
        proof {
            assert(net =~= network_at(t, all));
            lemma_network_words_of_read(t, all);
            law_topology_fits(net, t, 0);
        }
        Ok(Network { layers: built })
    }

    /// The words of the network: those of its layers in order, within a layer
    /// those of its neurons in order, and of each neuron the bias before the
    /// weights.
    pub fn weights(&self) -> (words: Vec<u32>)
        ensures
            words@ == network_words(self@),
    {
        let mut words: Vec<u32> = Vec::new();
        let mut i: usize = 0;
        while i < self.layers.len()
            invariant
                i <= self.layers.len(),
                words@ == network_words(self@.take(i as int)),
            decreases self.layers.len() - i,
        {
            let mut part = self.layers[i].to_weights();
            words.append(&mut part);
            proof {
                assert(self@.take(i + 1).drop_last() =~= self@.take(i as int));
            }
            i += 1;
        }
        assert(self@.take(self.layers.len() as int) =~= self@);
        words
    }

    /// The answer of the network to `inputs`: the inputs go through the layers
    /// in order, the outputs of each being the inputs of the next. The answer
    /// has one element per neuron of the last layer, each at least zero. Fails
    /// when a neuron of the first layer has not one weight per input.
    pub fn propagate<M: Fn(u32, u32) -> u32, A: Fn(u32, u32) -> u32>(
        &self,
        inputs: Vec<u32>,
        times: &M,
        plus: &A,
    ) -> (result: Result<Vec<u32>, NetworkError>)
        requires
            total(*times),
            total(*plus),
        ensures
            match result {
                Ok(outputs) => {
                    &&& accepts(self@, inputs@.len())
                    &&& network_response(*times, *plus, self@, inputs@, outputs@)
                    &&& outputs@.len() == self@.last().len()
                    &&& forall|j: int|
                        0 <= j < outputs@.len() ==> is_non_negative(#[trigger] outputs@[j])
                },
                Err(e) => e == NetworkError::DimensionMismatch && !accepts(self@, inputs@.len()),
            },
            forall|product: spec_fn(u32, u32) -> u32, sum: spec_fn(u32, u32) -> u32|
                computes(*times, product) && computes(*plus, sum) && result is Ok
                    ==> result->Ok_0@ == #[trigger] network_answer(product, sum, self@, inputs@),
    {
        proof {
            use_type_invariant(self);
        }
        let ghost given = inputs@;
        let mut values: Vec<u32> = inputs;
        let mut i: usize = 0;
        proof {
            assert(self@.take(0) =~= Seq::<Seq<NeuronView>>::empty());
        }
        while i < self.layers.len()
            invariant
                i <= self.layers.len(),
                chained(self@),
                given == inputs@,
                total(*times),
                total(*plus),
                network_response(*times, *plus, self@.take(i as int), given, values@),
                i == 0 ==> values@ == given,
                i > 0 ==> values@.len() == self@[i - 1].len() && accepts(self@, given.len()),
            decreases self.layers.len() - i,
        {
            let ghost before = values@;
            match self.layers[i].propagate(values, times, plus) {
                Ok(outputs) => {
                    values = outputs;
                },
                Err(e) => {
                    proof {
                        // The neuron that refused is one of the first layer:
                        // every later layer has one weight per value it gets.
                        let j = choose|j: int|
                            0 <= j < self@[i as int].len() && (
                            #[trigger] self@[i as int][j]).weights.len() != before.len();
                        assert(i == 0);
                    }
                    return Err(e);
                },
            }
            proof {
                assert(self@.take(i + 1).drop_last() =~= self@.take(i as int));
                assert(self@.take(i + 1).last() == self@[i as int]);
                assert(layer_response(*times, *plus, self@[i as int], before, values@));
            }
            i += 1;
        }
        proof {
            assert(self@.take(self.layers.len() as int) =~= self@);
            lemma_response_shape(*times, *plus, self@, given, values@);
            assert forall|product: spec_fn(u32, u32) -> u32, sum: spec_fn(u32, u32) -> u32|
                computes(*times, product) && computes(*plus, sum) implies values@
                == #[trigger] network_answer(product, sum, self@, given) by {
                lemma_response_is_answer(*times, *plus, product, sum, self@, given, values@);
            }
        }
        Ok(values)
    }
}

} // verus!

//! What holds of the library as a whole, proved over the mathematical
//! descriptions that the contracts of its functions use.

use vstd::prelude::*;
use crate::codec::{
    accepts, chained, layer_shaped, lemma_network_round_trip, lemma_network_words_of_read, network_at,
    network_words, read_network, shaped, NeuronView,
};
use crate::error::NetworkError;
use crate::response::{
    deterministic, function_of, lemma_deterministic_computes, lemma_response_is_answer,
    lemma_response_shape, network_response,
};
use crate::topology::weight_count;
use crate::word::is_non_negative;

verus! {

/// In a network of the topology `t` the layers fit together, and the network
/// takes as many inputs as the first entry of the topology says: that many
/// always, and no other number unless the first layer has no neurons.
pub proof fn law_topology_fits(net: Seq<Seq<NeuronView>>, t: Seq<nat>, n: nat)
    requires
        shaped(net, t),
    ensures
        chained(net),
        accepts(net, t[0]),
        accepts(net, n) && t[1] > 0 ==> n == t[0],
{
    assert(layer_shaped(net[0], t[0], t[1]));
    assert forall|i: int, j: int| 1 <= i < net.len() && 0 <= j < net[i].len() implies (
    #[trigger] net[i][j]).weights.len() == net[i - 1].len() by {
        assert(layer_shaped(net[i], t[i], t[i + 1]));
        assert(layer_shaped(net[i - 1], t[i - 1], t[i]));
    }
    if accepts(net, n) && t[1] > 0 {
        assert(net[0][0].weights.len() == n);
    }
}

/// A network of the topology `t` has as many words as the topology asks for,
/// and reading a network of that topology from these words gives the same
/// network again, so also the same words.
pub proof fn law_round_trip(net: Seq<Seq<NeuronView>>, t: Seq<nat>)
    requires
        shaped(net, t),
    ensures
        network_words(net).len() == weight_count(t),
        read_network(t, network_words(net)) == Ok::<Seq<Seq<NeuronView>>, NetworkError>(net),
        network_words(network_at(t, network_words(net))) == network_words(net),
{
    lemma_network_round_trip(net, t, Seq::empty());
    assert(network_words(net) + Seq::<u32>::empty() =~= network_words(net));
}

/// Exactly as many words as the topology `t` asks for are read as a network
/// of that topology, and the words of that network are the words it was read
/// from.
pub proof fn law_words_round_trip(t: Seq<nat>, words: Seq<u32>)
    requires
        t.len() >= 2,
        words.len() == weight_count(t),
    ensures
        read_network(t, words) == Ok::<Seq<Seq<NeuronView>>, NetworkError>(network_at(t, words)),
        shaped(network_at(t, words), t),
        network_words(network_at(t, words)) == words,
{
    lemma_network_words_of_read(t, words);
    assert(words.take(words.len() as int) =~= words);
}

/// A network and the network read back from its words answer alike: every
/// possible answer of one is a possible answer of the other, and with
/// operations that have one result each, their answers to the same inputs are
/// equal.
pub proof fn law_round_trip_answers<M: Fn(u32, u32) -> u32, A: Fn(u32, u32) -> u32>(
    times: M,
    plus: A,
    net: Seq<Seq<NeuronView>>,
    t: Seq<nat>,
    inputs: Seq<u32>,
    first: Seq<u32>,
    second: Seq<u32>,
)
    requires
        shaped(net, t),
        network_response(times, plus, net, inputs, first),
        network_response(times, plus, network_at(t, network_words(net)), inputs, second),
    ensures
        network_response(times, plus, network_at(t, network_words(net)), inputs, first),
        network_response(times, plus, net, inputs, second),
        deterministic(times) && deterministic(plus) ==> first == second,
{
    law_round_trip(net, t);
    if deterministic(times) && deterministic(plus) {
        let product = function_of(times);
        let sum = function_of(plus);
        lemma_deterministic_computes(times);
        lemma_deterministic_computes(plus);
        lemma_response_is_answer(times, plus, product, sum, net, inputs, first);
        lemma_response_is_answer(times, plus, product, sum, net, inputs, second);
    }
}

/// Every answer of a network of the topology `t` has as many elements as the
/// last entry of the topology says, and each element is at least zero.
pub proof fn law_answer_shape<M: Fn(u32, u32) -> u32, A: Fn(u32, u32) -> u32>(
    times: M,
    plus: A,
    net: Seq<Seq<NeuronView>>,
    t: Seq<nat>,
    inputs: Seq<u32>,
    outputs: Seq<u32>,
)
    requires
        shaped(net, t),
        network_response(times, plus, net, inputs, outputs),
    ensures
        outputs.len() == t.last(),
        forall|j: int| 0 <= j < outputs.len() ==> is_non_negative(#[trigger] outputs[j]),
{
    lemma_response_shape(times, plus, net, inputs, outputs);
    assert(layer_shaped(net.last(), t[t.len() - 2], t.last()));
}

} // verus!

//! The flat encoding of a network: every bias and weight in one sequence of
//! words, layer by layer, neuron by neuron, the bias of a neuron before its
//! weights. This module holds the mathematical side: what the words of a
//! network are, what network a sequence of words describes under a topology,
//! and the proofs that the two directions undo each other.

use vstd::prelude::*;
use crate::error::NetworkError;
use crate::topology::{layer_span, neuron_span, span_before, weight_count};

verus! {

/// What a neuron is: a bias and one weight per input.
pub struct NeuronView {
    pub bias: u32,
    pub weights: Seq<u32>,
}

/// Every neuron of `layer` has `inputs` weights, and there are `outputs` of
/// them.
pub open spec fn layer_shaped(layer: Seq<NeuronView>, inputs: nat, outputs: nat) -> bool {
    &&& layer.len() == outputs
    &&& forall|j: int| 0 <= j < layer.len() ==> (#[trigger] layer[j]).weights.len() == inputs
}

/// `net` has the topology `t`: one layer per adjacent pair of entries, with as
/// many neurons as the second entry says and as many weights per neuron as the
/// first.
pub open spec fn shaped(net: Seq<Seq<NeuronView>>, t: Seq<nat>) -> bool {
    &&& t.len() >= 2
    &&& net.len() == t.len() - 1
    &&& forall|i: int| 0 <= i < net.len() ==> layer_shaped(#[trigger] net[i], t[i], t[i + 1])
}

/// All neurons of `layer` have the same number of weights.
pub open spec fn uniform(layer: Seq<NeuronView>) -> bool {
    forall|j: int, k: int|
        0 <= j < layer.len() && 0 <= k < layer.len() ==> (#[trigger] layer[j]).weights.len() == (
        #[trigger] layer[k]).weights.len()
}

/// The layers of `net` fit together: there is at least one, the neurons of
/// each have the same number of weights, and from the second layer on that
/// number is the number of neurons of the layer before.
pub open spec fn chained(net: Seq<Seq<NeuronView>>) -> bool {
    &&& net.len() >= 1
    &&& forall|i: int| 0 <= i < net.len() ==> uniform(#[trigger] net[i])
    &&& forall|i: int, j: int|
        1 <= i < net.len() && 0 <= j < net[i].len() ==> (#[trigger] net[i][j]).weights.len()
            == net[i - 1].len()
}

/// The neurons of the first layer of `net` have `n` weights each, so that the
/// network can answer to `n` inputs.
pub open spec fn accepts(net: Seq<Seq<NeuronView>>, n: nat) -> bool {
    forall|j: int| 0 <= j < net[0].len() ==> (#[trigger] net[0][j]).weights.len() == n
}

/// The words of a neuron: its bias, then its weights in order.
pub open spec fn neuron_words(neuron: NeuronView) -> Seq<u32> {
    seq![neuron.bias] + neuron.weights
}

/// The words of a layer: those of its neurons, in order.
pub open spec fn layer_words(layer: Seq<NeuronView>) -> Seq<u32>
    decreases layer.len(),
{
    if layer.len() == 0 {
        Seq::empty()
    } else {
        layer_words(layer.drop_last()) + neuron_words(layer.last())
    }
}

/// The words of a network: those of its layers, in order.
pub open spec fn network_words(net: Seq<Seq<NeuronView>>) -> Seq<u32>
    decreases net.len(),
{
    if net.len() == 0 {
        Seq::empty()
    } else {
        network_words(net.drop_last()) + layer_words(net.last())
    }
}

/// The neuron with `inputs` inputs that `words` begins with.
pub open spec fn neuron_at(inputs: nat, words: Seq<u32>) -> NeuronView {
    NeuronView { bias: words[0], weights: words.subrange(1, 1 + inputs as int) }
}

/// The layer of `outputs` neurons with `inputs` inputs each that `words`
/// begins with.
pub open spec fn layer_at(inputs: nat, outputs: nat, words: Seq<u32>) -> Seq<NeuronView> {
    Seq::new(outputs, |j: int| neuron_at(inputs, words.skip(j * neuron_span(inputs))))
}

/// The network of the topology `t` that `words` begins with.
pub open spec fn network_at(t: Seq<nat>, words: Seq<u32>) -> Seq<Seq<NeuronView>> {
    Seq::new(
        (t.len() - 1) as nat,
        |i: int| layer_at(t[i], t[i + 1], words.skip(span_before(t, i as nat) as int)),
    )
}

/// What reading a network of the topology `t` from `words` gives: a topology
/// of fewer than two entries is refused first; then too few words, then too
/// many; with exactly as many words as the topology asks for, the network is
/// the one that they begin with.
pub open spec fn read_network(t: Seq<nat>, words: Seq<u32>) -> Result<
    Seq<Seq<NeuronView>>,
    NetworkError,
> {
    if t.len() < 2 {
        Err(NetworkError::InvalidTopology)
    } else if words.len() < weight_count(t) {
        Err(NetworkError::InsufficientWeights)
    } else if words.len() > weight_count(t) {
        Err(NetworkError::ExcessWeights)
    } else {
        Ok(network_at(t, words))
    }
}

/// The span of a layer grows by one neuron's span with each neuron.
pub proof fn lemma_layer_span_step(inputs: nat, outputs: nat)
    ensures
        layer_span(inputs, outputs + 1) == layer_span(inputs, outputs) + neuron_span(inputs),
        layer_span(inputs, 0) == 0,
{
    assert((outputs + 1) * neuron_span(inputs) == outputs * neuron_span(inputs) + neuron_span(
        inputs,
    )) by (nonlinear_arith);
}

/// A layer with fewer neurons spans no more words.
pub proof fn lemma_layer_span_monotonic(inputs: nat, fewer: nat, outputs: nat)
    requires
        fewer <= outputs,
    ensures
        layer_span(inputs, fewer) <= layer_span(inputs, outputs),
{
    assert(fewer * neuron_span(inputs) <= outputs * neuron_span(inputs)) by (nonlinear_arith)
        requires
            fewer <= outputs,
    ;
}

/// The words before a layer do not depend on the entries of the topology
/// after it.
pub proof fn lemma_span_before_prefix(t: Seq<nat>, u: Seq<nat>, n: nat)
    requires
        n < t.len(),
        n < u.len(),
        forall|i: int| 0 <= i <= n ==> t[i] == u[i],
    ensures
        span_before(t, n) == span_before(u, n),
    decreases n,
{
    if n > 0 {
        lemma_span_before_prefix(t, u, (n - 1) as nat);
    }
}

/// The words before a layer grow with the layer's position.
pub proof fn lemma_span_before_monotonic(t: Seq<nat>, m: nat, n: nat)
    requires
        m <= n,
    ensures
        span_before(t, m) <= span_before(t, n),
    decreases n,
{
    if m < n {
        lemma_span_before_monotonic(t, m, (n - 1) as nat);
    }
}

/// A neuron is read back from its own words, whatever follows them.
pub proof fn lemma_neuron_round_trip(neuron: NeuronView, rest: Seq<u32>)
    ensures
        neuron_words(neuron).len() == neuron_span(neuron.weights.len()),
        neuron_at(neuron.weights.len(), neuron_words(neuron) + rest) == neuron,
{
    let words = neuron_words(neuron) + rest;
    let back = neuron_at(neuron.weights.len(), words);
    assert(back.weights =~= neuron.weights);
}

/// The words that a neuron is read from are that neuron's words.
pub proof fn lemma_neuron_words_of_read(inputs: nat, words: Seq<u32>)
    requires
        words.len() >= neuron_span(inputs),
    ensures
        neuron_at(inputs, words).weights.len() == inputs,
        neuron_words(neuron_at(inputs, words)) == words.take(neuron_span(inputs) as int),
{
    assert(neuron_words(neuron_at(inputs, words)) =~= words.take(neuron_span(inputs) as int));
}

/// A layer is read back from its own words, whatever follows them.
pub proof fn lemma_layer_round_trip(layer: Seq<NeuronView>, inputs: nat, rest: Seq<u32>)
    requires
        layer_shaped(layer, inputs, layer.len()),
    ensures
        layer_words(layer).len() == layer_span(inputs, layer.len()),
        layer_at(inputs, layer.len(), layer_words(layer) + rest) == layer,
    decreases layer.len(),
{
    let words = layer_words(layer) + rest;
    let back = layer_at(inputs, layer.len(), words);
    if layer.len() == 0 {
        lemma_layer_span_step(inputs, 0);
        assert(back =~= layer);
    } else {
        let front = layer.drop_last();
        let last = layer.last();
        let tail = neuron_words(last) + rest;
        lemma_layer_round_trip(front, inputs, tail);
        lemma_neuron_round_trip(last, rest);
        lemma_layer_span_step(inputs, front.len());
        assert(words =~= layer_words(front) + tail);
        assert forall|j: int| 0 <= j < layer.len() implies back[j] == layer[j] by {
            if j < front.len() {
                assert(layer_at(inputs, front.len(), layer_words(front) + tail)[j] == front[j]);
            } else {
                lemma_layer_span_step(inputs, front.len());
                assert(j * neuron_span(inputs) == layer_span(inputs, front.len()));
                assert(words.skip(j * neuron_span(inputs)) =~= tail);
            }
        }
        assert(back =~= layer);
    }
}

/// The words that a layer is read from are that layer's words.
pub proof fn lemma_layer_words_of_read(inputs: nat, outputs: nat, words: Seq<u32>)
    requires
        words.len() >= layer_span(inputs, outputs),
    ensures
        layer_shaped(layer_at(inputs, outputs, words), inputs, outputs),
        layer_words(layer_at(inputs, outputs, words)) == words.take(
            layer_span(inputs, outputs) as int,
        ),
    decreases outputs,
{
    let layer = layer_at(inputs, outputs, words);
    assert forall|j: int| 0 <= j < outputs implies (#[trigger] layer[j]).weights.len()
        == inputs by {
        lemma_layer_span_step(inputs, j as nat);
        lemma_layer_span_monotonic(inputs, (j + 1) as nat, outputs);
        lemma_neuron_words_of_read(inputs, words.skip(j * neuron_span(inputs)));
    }
    if outputs == 0 {
        lemma_layer_span_step(inputs, 0);
        assert(layer_words(layer) =~= words.take(0));
    } else {
        let fewer = (outputs - 1) as nat;
        lemma_layer_span_step(inputs, fewer);
        lemma_layer_words_of_read(inputs, fewer, words);
        assert(layer.drop_last() =~= layer_at(inputs, fewer, words));
        let start = layer_span(inputs, fewer) as int;
        assert(fewer * neuron_span(inputs) == start);
        lemma_neuron_words_of_read(inputs, words.skip(start));
        assert(layer_words(layer) =~= words.take(layer_span(inputs, outputs) as int));
    }
}

/// A network of the topology `t` is read back from its own words, whatever
/// follows them, and has as many words as the topology says.
pub proof fn lemma_network_round_trip(net: Seq<Seq<NeuronView>>, t: Seq<nat>, rest: Seq<u32>)
    requires
        shaped(net, t),
    ensures
        network_words(net).len() == weight_count(t),
        network_at(t, network_words(net) + rest) == net,
    decreases net.len(),
{
    let words = network_words(net) + rest;
    let back = network_at(t, words);
    let front = net.drop_last();
    let last = net.last();
    let n = front.len();
    let tail = layer_words(last) + rest;
    assert(layer_shaped(net[n as int], t[n as int], t[n as int + 1]));
    lemma_layer_round_trip(last, t[n as int], rest);
    assert(words =~= network_words(front) + tail);
    if n == 0 {
        assert(network_words(front) =~= Seq::<u32>::empty());
        assert(span_before(t, 1) == span_before(t, 0) + layer_span(t[0], t[1]));
        assert(words.skip(0) =~= words);
        assert(back =~= net);
    } else {
        let s = t.drop_last();
        assert forall|i: int| 0 <= i < front.len() implies layer_shaped(
            #[trigger] front[i],
            s[i],
            s[i + 1],
        ) by {
            assert(layer_shaped(net[i], t[i], t[i + 1]));
        }
        lemma_network_round_trip(front, s, tail);
        lemma_span_before_prefix(t, s, (n - 1) as nat);
        lemma_span_before_prefix(t, s, n);
        assert(network_words(front).len() == span_before(t, n));
        assert forall|i: int| 0 <= i < net.len() implies back[i] == net[i] by {
            if i < n {
                lemma_span_before_prefix(t, s, i as nat);
                assert(network_at(s, network_words(front) + tail)[i] == front[i]);
            } else {
                assert(words.skip(span_before(t, n) as int) =~= tail);
            }
        }
        assert(back =~= net);
    }
}

/// The words that a network is read from are that network's words, and the
/// network has the topology it was read under.
pub proof fn lemma_network_words_of_read(t: Seq<nat>, words: Seq<u32>)
    requires
        t.len() >= 2,
        words.len() >= weight_count(t),
    ensures
        shaped(network_at(t, words), t),
        network_words(network_at(t, words)) == words.take(weight_count(t) as int),
    decreases t.len(),
{
    let net = network_at(t, words);
    let n = (t.len() - 2) as nat;
    let start = span_before(t, n) as int;
    lemma_layer_words_of_read(t[n as int], t[n as int + 1], words.skip(start));
    assert(net.last() == layer_at(t[n as int], t[n as int + 1], words.skip(start)));
    if n == 0 {
        assert(net.drop_last() =~= Seq::<Seq<NeuronView>>::empty());
        assert(network_words(net.drop_last()) =~= Seq::<u32>::empty());
        assert(words.skip(0) =~= words);
        assert(network_words(net) =~= words.take(weight_count(t) as int));
    } else {
        let s = t.drop_last();
        lemma_span_before_prefix(t, s, n);
        lemma_network_words_of_read(s, words);
        let front = network_at(s, words);
        assert forall|i: int| 0 <= i < front.len() implies front[i] == net[i] by {
            lemma_span_before_prefix(t, s, i as nat);
        }
        assert(net.drop_last() =~= front);
        assert forall|i: int| 0 <= i < net.len() implies layer_shaped(
            #[trigger] net[i],
            t[i],
            t[i + 1],
        ) by {
            if i < n {
                assert(layer_shaped(front[i], s[i], s[i + 1]));
            }
        }
        assert(network_words(net) =~= words.take(weight_count(t) as int));
    }
}

} // verus!

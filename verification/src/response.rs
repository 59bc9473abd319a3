//! What a network answers to an input.
//!
//! Multiplying and adding words is left to the caller, who hands in the two
//! operations. An operation may be any function of two words, so its contract
//! is a relation between arguments and result, and the answer of a neuron, a
//! layer or a network is described as a relation too: which outputs are
//! possible for an input, given the results that the operations may return.
//!
//! Where the operations compute known functions, the relation is a function:
//! the answer is `network_answer` under these functions, and no other.

use vstd::prelude::*;
use crate::codec::NeuronView;
use crate::word::{is_non_negative, lemma_rectified_non_negative, rectified, ZERO};

verus! {

/// The operation `op` may be called on every pair of words.
pub open spec fn total<F: Fn(u32, u32) -> u32>(op: F) -> bool {
    forall|a: u32, b: u32| call_requires(op, (a, b))
}

/// The operation `op` has one possible result for each pair of words.
pub open spec fn deterministic<F: Fn(u32, u32) -> u32>(op: F) -> bool {
    forall|a: u32, b: u32, r: u32, s: u32|
        call_ensures(op, (a, b), r) && call_ensures(op, (a, b), s) ==> r == s
}

/// `sum` is a possible value of the sum of the first `n` products
/// `inputs[i] * weights[i]`: it starts at positive zero, and the products are
/// added from the left, one after the other.
pub open spec fn weighted_sum<M: Fn(u32, u32) -> u32, A: Fn(u32, u32) -> u32>(
    times: M,
    plus: A,
    inputs: Seq<u32>,
    weights: Seq<u32>,
    n: nat,
    sum: u32,
) -> bool
    decreases n,
{
    if n == 0 {
        sum == ZERO
    } else {
        exists|before: u32, term: u32|
            weighted_sum(times, plus, inputs, weights, (n - 1) as nat, before) && call_ensures(
                times,
                (inputs[n - 1], weights[n - 1]),
                term,
            ) && call_ensures(plus, (before, term), sum)
    }
}

/// `output` is a possible answer of `neuron` to `inputs`: there is one weight
/// per input, the bias is added to the weighted sum of all inputs, and the
/// total is rectified.
pub open spec fn neuron_response<M: Fn(u32, u32) -> u32, A: Fn(u32, u32) -> u32>(
    times: M,
    plus: A,
    neuron: NeuronView,
    inputs: Seq<u32>,
    output: u32,
) -> bool {
    &&& inputs.len() == neuron.weights.len()
    &&& exists|sum: u32, biased: u32|
        weighted_sum(times, plus, inputs, neuron.weights, inputs.len(), sum) && call_ensures(
            plus,
            (sum, neuron.bias),
            biased,
        ) && output == rectified(biased)
}

/// `outputs` is a possible answer of `layer` to `inputs`: one output per
/// neuron, in order, each a possible answer of that neuron to the same inputs.
pub open spec fn layer_response<M: Fn(u32, u32) -> u32, A: Fn(u32, u32) -> u32>(
    times: M,
    plus: A,
    layer: Seq<NeuronView>,
    inputs: Seq<u32>,
    outputs: Seq<u32>,
) -> bool {
    &&& outputs.len() == layer.len()
    &&& forall|j: int|
        0 <= j < layer.len() ==> neuron_response(
            times,
            plus,
            #[trigger] layer[j],
            inputs,
            outputs[j],
        )
}

/// `outputs` is a possible answer of the layers `net` to `inputs`: the inputs
/// go through the layers in order, the outputs of each being the inputs of the
/// next.
pub open spec fn network_response<M: Fn(u32, u32) -> u32, A: Fn(u32, u32) -> u32>(
    times: M,
    plus: A,
    net: Seq<Seq<NeuronView>>,
    inputs: Seq<u32>,
    outputs: Seq<u32>,
) -> bool
    decreases net.len(),
{
    if net.len() == 0 {
        outputs == inputs
    } else {
        exists|between: Seq<u32>|
            network_response(times, plus, net.drop_last(), inputs, between) && layer_response(
                times,
                plus,
                net.last(),
                between,
                outputs,
            )
    }
}

/// The operation `op` computes `f`: whatever it returns for a pair of words is
/// the value of `f` on that pair.
pub open spec fn computes<F: Fn(u32, u32) -> u32>(op: F, f: spec_fn(u32, u32) -> u32) -> bool {
    forall|a: u32, b: u32, r: u32| call_ensures(op, (a, b), r) ==> r == f(a, b)
}

/// The function that an operation with one possible result for each pair of
/// words computes.
pub open spec fn function_of<F: Fn(u32, u32) -> u32>(op: F) -> spec_fn(u32, u32) -> u32 {
    |a: u32, b: u32| choose|r: u32| call_ensures(op, (a, b), r)
}

/// The sum of the first `n` products `inputs[i] * weights[i]` under the
/// product `times` and the sum `plus`: positive zero for no product, and each
/// further product added to the sum of those before it.
pub open spec fn sum_of_products(
    times: spec_fn(u32, u32) -> u32,
    plus: spec_fn(u32, u32) -> u32,
    inputs: Seq<u32>,
    weights: Seq<u32>,
    n: nat,
) -> u32
    decreases n,
{
    if n == 0 {
        ZERO
    } else {
        plus(
            sum_of_products(times, plus, inputs, weights, (n - 1) as nat),
            times(inputs[n - 1], weights[n - 1]),
        )
    }
}

/// The answer of `neuron` to `inputs` under the product `times` and the sum
/// `plus`: the sum of all products, plus the bias, rectified.
pub open spec fn neuron_answer(
    times: spec_fn(u32, u32) -> u32,
    plus: spec_fn(u32, u32) -> u32,
    neuron: NeuronView,
    inputs: Seq<u32>,
) -> u32 {
    rectified(
        plus(sum_of_products(times, plus, inputs, neuron.weights, inputs.len()), neuron.bias),
    )
}

/// The answer of `layer` to `inputs` under the product `times` and the sum
/// `plus`: the answer of each neuron, in order.
pub open spec fn layer_answer(
    times: spec_fn(u32, u32) -> u32,
    plus: spec_fn(u32, u32) -> u32,
    layer: Seq<NeuronView>,
    inputs: Seq<u32>,
) -> Seq<u32> {
    Seq::new(layer.len(), |j: int| neuron_answer(times, plus, layer[j], inputs))
}

/// The answer of the layers `net` to `inputs` under the product `times` and
/// the sum `plus`: the answer of the last layer to the answer of the layers
/// before it.
pub open spec fn network_answer(
    times: spec_fn(u32, u32) -> u32,
    plus: spec_fn(u32, u32) -> u32,
    net: Seq<Seq<NeuronView>>,
    inputs: Seq<u32>,
) -> Seq<u32>
    decreases net.len(),
{
    if net.len() == 0 {
        inputs
    } else {
        layer_answer(times, plus, net.last(), network_answer(times, plus, net.drop_last(), inputs))
    }
}

/// Every answer of a network with at least one layer has one element per
/// neuron of the last layer, and each element is at least zero.
pub proof fn lemma_response_shape<M: Fn(u32, u32) -> u32, A: Fn(u32, u32) -> u32>(
    times: M,
    plus: A,
    net: Seq<Seq<NeuronView>>,
    inputs: Seq<u32>,
    outputs: Seq<u32>,
)
    requires
        net.len() >= 1,
        network_response(times, plus, net, inputs, outputs),
    ensures
        outputs.len() == net.last().len(),
        forall|j: int| 0 <= j < outputs.len() ==> is_non_negative(#[trigger] outputs[j]),
{
    let between = choose|between: Seq<u32>|
        network_response(times, plus, net.drop_last(), inputs, between) && layer_response(
            times,
            plus,
            net.last(),
            between,
            outputs,
        );
    assert forall|j: int| 0 <= j < outputs.len() implies is_non_negative(
        #[trigger] outputs[j],
    ) by {
        assert(neuron_response(times, plus, net.last()[j], between, outputs[j]));
        let (sum, biased) = choose|sum: u32, biased: u32|
            weighted_sum(times, plus, between, net.last()[j].weights, between.len(), sum)
                && call_ensures(plus, (sum, net.last()[j].bias), biased) && outputs[j]
                == rectified(biased);
        lemma_rectified_non_negative(biased);
    }
}

/// With operations that compute `times` and `plus`, a weighted sum is the sum
/// of products under these two.
pub proof fn lemma_weighted_sum_is_sum_of_products<M: Fn(u32, u32) -> u32, A: Fn(u32, u32) -> u32>(
    times_op: M,
    plus_op: A,
    times: spec_fn(u32, u32) -> u32,
    plus: spec_fn(u32, u32) -> u32,
    inputs: Seq<u32>,
    weights: Seq<u32>,
    n: nat,
    sum: u32,
)
    requires
        computes(times_op, times),
        computes(plus_op, plus),
        weighted_sum(times_op, plus_op, inputs, weights, n, sum),
    ensures
        sum == sum_of_products(times, plus, inputs, weights, n),
    decreases n,
{
    if n > 0 {
        let (before, term) = choose|before: u32, term: u32|
            weighted_sum(times_op, plus_op, inputs, weights, (n - 1) as nat, before)
                && call_ensures(times_op, (inputs[n - 1], weights[n - 1]), term) && call_ensures(
                plus_op,
                (before, term),
                sum,
            );
        lemma_weighted_sum_is_sum_of_products(
            times_op,
            plus_op,
            times,
            plus,
            inputs,
            weights,
            (n - 1) as nat,
            before,
        );
    }
}

/// With operations that compute `times` and `plus`, the only possible answer
/// of a neuron to an input is its answer under these two.
pub proof fn lemma_neuron_response_is_answer<M: Fn(u32, u32) -> u32, A: Fn(u32, u32) -> u32>(
    times_op: M,
    plus_op: A,
    times: spec_fn(u32, u32) -> u32,
    plus: spec_fn(u32, u32) -> u32,
    neuron: NeuronView,
    inputs: Seq<u32>,
    output: u32,
)
    requires
        computes(times_op, times),
        computes(plus_op, plus),
        neuron_response(times_op, plus_op, neuron, inputs, output),
    ensures
        output == neuron_answer(times, plus, neuron, inputs),
{
    let (sum, biased) = choose|sum: u32, biased: u32|
        weighted_sum(times_op, plus_op, inputs, neuron.weights, inputs.len(), sum)
            && call_ensures(plus_op, (sum, neuron.bias), biased) && output == rectified(biased);
    lemma_weighted_sum_is_sum_of_products(
        times_op,
        plus_op,
        times,
        plus,
        inputs,
        neuron.weights,
        inputs.len(),
        sum,
    );
}

/// With operations that compute `times` and `plus`, the only possible answer
/// of a layer to an input is its answer under these two.
pub proof fn lemma_layer_response_is_answer<M: Fn(u32, u32) -> u32, A: Fn(u32, u32) -> u32>(
    times_op: M,
    plus_op: A,
    times: spec_fn(u32, u32) -> u32,
    plus: spec_fn(u32, u32) -> u32,
    layer: Seq<NeuronView>,
    inputs: Seq<u32>,
    outputs: Seq<u32>,
)
    requires
        computes(times_op, times),
        computes(plus_op, plus),
        layer_response(times_op, plus_op, layer, inputs, outputs),
    ensures
        outputs == layer_answer(times, plus, layer, inputs),
{
    assert forall|j: int| 0 <= j < layer.len() implies outputs[j] == neuron_answer(
        times,
        plus,
        layer[j],
        inputs,
    ) by {
        assert(neuron_response(times_op, plus_op, layer[j], inputs, outputs[j]));
        lemma_neuron_response_is_answer(
            times_op,
            plus_op,
            times,
            plus,
            layer[j],
            inputs,
            outputs[j],
        );
    }
    assert(outputs =~= layer_answer(times, plus, layer, inputs));
}

/// With operations that compute `times` and `plus`, the only possible answer
/// of a network to an input is its answer under these two.
pub proof fn lemma_response_is_answer<M: Fn(u32, u32) -> u32, A: Fn(u32, u32) -> u32>(
    times_op: M,
    plus_op: A,
    times: spec_fn(u32, u32) -> u32,
    plus: spec_fn(u32, u32) -> u32,
    net: Seq<Seq<NeuronView>>,
    inputs: Seq<u32>,
    outputs: Seq<u32>,
)
    requires
        computes(times_op, times),
        computes(plus_op, plus),
        network_response(times_op, plus_op, net, inputs, outputs),
    ensures
        outputs == network_answer(times, plus, net, inputs),
    decreases net.len(),
{
    if net.len() > 0 {
        let between = choose|between: Seq<u32>|
            network_response(times_op, plus_op, net.drop_last(), inputs, between)
                && layer_response(times_op, plus_op, net.last(), between, outputs);
        lemma_response_is_answer(times_op, plus_op, times, plus, net.drop_last(), inputs, between);
        lemma_layer_response_is_answer(times_op, plus_op, times, plus, net.last(), between, outputs);
    }
}

/// An operation with one possible result for each pair of words computes a
/// function.
pub proof fn lemma_deterministic_computes<F: Fn(u32, u32) -> u32>(op: F)
    requires
        deterministic(op),
    ensures
        computes(op, function_of(op)),
{
}

} // verus!

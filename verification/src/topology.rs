//! Topologies: the neuron count of each layer, the input layer first.

use vstd::prelude::*;

verus! {

/// The size of one layer of a topology.
///
/// The first entry of a topology gives the width of the input, every later
/// entry the number of neurons of one computed layer.
#[derive(Clone, Copy, Debug, PartialEq, Eq)]
pub struct LayerTopology {
    pub neurons: usize,
}

/// The neuron counts of a topology, as mathematical numbers.
pub open spec fn sizes(layers: Seq<LayerTopology>) -> Seq<nat> {
    Seq::new(layers.len(), |i: int| layers[i].neurons as nat)
}

/// The number of words of one neuron with `inputs` inputs: its bias and one
/// weight per input.
pub open spec fn neuron_span(inputs: nat) -> nat {
    1 + inputs
}

/// The number of words of a layer of `outputs` neurons with `inputs` inputs
/// each.
pub open spec fn layer_span(inputs: nat, outputs: nat) -> nat {
    outputs * neuron_span(inputs)
}

/// The number of words of the first `n` computed layers of the topology `t`.
pub open spec fn span_before(t: Seq<nat>, n: nat) -> nat
    decreases n,
{
    if n == 0 {
        0
    } else {
        span_before(t, (n - 1) as nat) + layer_span(t[n - 1], t[n as int])
    }
}

/// The number of words of a whole network of the topology `t`: the sum, over
/// its computed layers, of neurons times one more than the inputs of each.
pub open spec fn weight_count(t: Seq<nat>) -> nat {
    if t.len() < 2 {
        0
    } else {
        span_before(t, (t.len() - 1) as nat)
    }
}

} // verus!

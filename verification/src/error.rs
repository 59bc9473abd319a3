//! The ways in which building or evaluating a network fails.

use vstd::prelude::*;

verus! {

/// Why a network could not be built or evaluated.
#[derive(Clone, Copy, Debug, PartialEq, Eq, Structural)]
pub enum NetworkError {
    /// The topology has fewer than two entries.
    InvalidTopology,
    /// The number of inputs is not the number of weights of the neurons that
    /// receive them.
    DimensionMismatch,
    /// The words ran out before every neuron had its bias and weights.
    InsufficientWeights,
    /// Words were left over after every neuron had its bias and weights.
    ExcessWeights,
}

} // verus!

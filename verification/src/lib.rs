//! Feed-forward neural networks: construction from a topology, evaluation,
//! and a flat encoding of all biases and weights.
//!
//! A network is a sequence of layers, a layer a sequence of neurons, a neuron
//! a bias and one weight per input. Biases, weights, inputs and outputs are
//! 32-bit words, the bit patterns of single-precision numbers; what is kept in
//! a network comes out again bit for bit.
//!
//! The library decides everything that can be decided on integers: the shape
//! of a network, the order of its words, how an input travels through the
//! layers, which answers are at least zero, and each way of failing. It does
//! no arithmetic on the numbers that the words stand for. The caller hands in
//! the source of random words and the operations that multiply and add two
//! words, and every contract says what holds for whatever they return.
//!
//! - [`topology`]: the sizes of the layers and the number of words they take.
//! - [`codec`]: what the words of a network are, and what network a sequence
//!   of words describes.
//! - [`response`]: which answers a network may give to an input.
//! - [`word`]: the rectified linear unit on words.
//! - [`source`], [`neuron`], [`layer`], [`network`]: the executable types.
//! - [`laws`]: what holds of all of them together.

pub mod word;
pub mod error;
pub mod topology;
pub mod codec;
pub mod source;
pub mod response;
pub mod neuron;
pub mod layer;
pub mod network;
pub mod laws;

pub use error::NetworkError;
pub use layer::Layer;
pub use network::Network;
pub use neuron::Neuron;
pub use source::WeightSource;
pub use topology::LayerTopology;

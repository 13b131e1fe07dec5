//! A feedforward neural-network trainer built on a dense, row-major matrix
//! type, generic over a verified scalar: forward propagation, a softmax
//! output layer, manual backpropagation and plain per-sample gradient
//! descent, each pinned by an exact contract.

pub mod scalar;
pub mod matrix;
pub mod util;
pub mod network;

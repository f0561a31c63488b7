//! Layers of a small transformer, forward and backward.
//!
//! Tensors hold their elements in row-major order.  The layers are generic over
//! the arithmetic of those elements ([`scalar::Scalar`]), so that what each
//! layer computes is stated exactly, operation by operation, without fixing how
//! a number is rounded.  A [`context::Context`] holds what the layers share: the
//! weights, their gradients, and the place in the model that is being walked.
pub mod context;
pub mod digit;
pub mod exact;
pub mod nn;
pub mod optimizer;
pub mod scalar;
pub mod state;
pub mod tensor;
pub mod term;
pub mod vector;

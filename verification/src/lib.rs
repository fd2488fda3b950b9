//! A small feedforward neural-network engine in fixed-point arithmetic.
//!
//! Every quantity is a signed 64-bit count of fixed-point units, with
//! `fixed::SCALE` units to 1.0. Layers own their weights and transient
//! caches, a network
//! chains layers, and training runs plain stochastic gradient descent.
//! Arithmetic that would leave the representable range is reported as a
//! [`NetError::FatalNumericDefect`] instead of being absorbed.

use vstd::prelude::*;

pub mod activation_function;
pub mod error_function;
pub mod fixed;
pub mod layer;
pub mod network;

verus! {

/// Failure channel shared by every forward, backward and training call.
#[derive(Clone, Copy, Debug, PartialEq, Eq, Structural)]
pub enum NetError {
    /// A vector length disagrees with a layer's or the network's declared size.
    ShapeMismatch,
    /// An arithmetic step left the representable fixed-point range, or an
    /// error-function precondition was violated. Either signals divergence
    /// (or a caller bug) that must be reported rather than absorbed.
    FatalNumericDefect,
    /// A backward call without a matching forward call on the same layer.
    StaleCache,
}

} // verus!

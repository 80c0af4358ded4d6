//! A dense feed-forward network: its store, forward propagation, and
//! training by gradient descent with memoized reverse accumulation.
//!
//! # Numbers
//!
//! Every coefficient is a `u32`: the bit pattern of an IEEE-754
//! single-precision number. What can be decided on the pattern alone (the
//! not-computed mark, comparisons, the step activation) is decided here, in
//! [`ieee`] and [`algorithm::func`]. What needs rounding is not: sums,
//! differences and products are computed by a function value that the caller
//! hands in, just as the activation function and the cost derivative are.
//!
//! # Contracts
//!
//! A capability need not be a function in the mathematical sense, so the
//! contracts speak of the relation between its arguments and its results. A
//! weighted sum, a derivative, a trained weight is specified as a value that
//! the defining formula can give when each of its operations is done by the
//! capability, in the order of the formula. For capabilities that do give one
//! result per input this pins every coefficient: see
//! [`algorithm::forward::lemma_forward_deterministic`] and
//! [`algorithm::backward::lemma_backward_deterministic`].
//!
//! # Layout
//!
//! - [`network`]: the store and its shape rule.
//! - [`algorithm`]: initialisation, the forward pass, the backward pass, and
//!   sessions over a source of examples.
//! - [`ut`]: signals, comparison within a tolerance, the binary form of a
//!   network.
//! - [`training`]: sessions on a corpus of handwritten digits.
pub mod ieee;
pub mod network;
pub mod algorithm;
pub mod ut;
pub mod training;

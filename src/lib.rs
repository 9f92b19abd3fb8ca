//! Index bookkeeping for least-squares fits in which one model input is a
//! category label: every distinct label owns one multiplicative scale in the
//! parameter vector, after the continuous coefficients `a`, `b` and `c`.
//!
//! The floating-point arithmetic (residual values, Jacobian values, the
//! solver) is the caller's. This crate decides which parameter slot stands
//! for what, which closed-form derivative belongs in each Jacobian cell, and
//! how a forward-difference Jacobian is assembled from residual calls.

pub mod encoder;
pub mod finite_difference;
pub mod label_order;
pub mod layout;

//! The transcript, the commitments, the multilinear containers and the code.

use vstd::prelude::*;

pub mod channel;
pub mod code;
pub mod merkle;
pub mod mle;

verus! {

/// Base 2 logarithm of the degree of the field over the two-element field:
/// the number of variables bound by tensor batching.
pub const TAU: usize = 7;

} // verus!

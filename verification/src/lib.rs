//! Polynomial commitment for packed multilinear polynomials over the binary
//! tower field of 128 bits: tensor-batched sum-check coupled with a FRI
//! low-degree test, compiled with Fiat-Shamir.
//!
//! Field elements are `u128` values; the field itself is a
//! [`field::BinaryField128`], the additive transform is a closure of the
//! caller, and its twiddles are a [`utils::code::TwiddleTable`].
//!
//! - [`field`]: multiplication by the products of the basis, and its laws.
//! - [`utils`]: the Merkle tree, the transcript, the multilinear
//!   containers and the code with its fold.
//! - [`prover`]: `commit` and `prove`, and the model of the proof.
//! - [`verification`]: `verify`, and the model of its verdict.
//! - [`honest`]: completeness, the verdict on a proof of the prover.
//! - [`codewords`]: the codes of butterflies and what the folds make of them.
//! - [`sums`], [`pow2`]: sums in the field, powers of two.
//! - [`error`]: the failures.

pub mod codewords;
pub mod error;
pub mod field;
pub mod honest;
pub mod pow2;
pub mod prover;
pub mod sums;
pub mod utils;
pub mod verification;

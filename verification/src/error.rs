//! The ways in which an operation of this crate can fail.

use vstd::prelude::*;

verus! {

/// The five classes of failure.
#[derive(Clone, Copy, Debug, PartialEq, Eq, Structural)]
pub enum ErrorKind {
    /// A field element could not be turned into bytes.
    SerializationFailure,
    /// The transcript's challenge counter is exhausted.
    TranscriptOverflow,
    /// A query domain does not fit the machine's index type.
    DomainSizeOverflow,
    /// A part of a proof has the wrong length.
    ShapeMismatch,
    /// A part of a proof disagrees with the transcript or the commitment.
    ConsistencyFailure,
}

/// A failure, with the place at which it was found.
#[derive(Clone, Copy, Debug, PartialEq, Eq, Structural)]
pub enum Error {
    /// A field element could not be turned into bytes.
    SerializationFailure,
    /// The transcript's challenge counter cannot be advanced.
    TranscriptOverflow,
    /// The logarithm of a query domain is at least the width of `usize`.
    DomainSizeOverflow,
    /// A vector of the proof, or a Merkle path, has the wrong length.
    ShapeMismatch,
    /// The partial evaluations of the proof do not combine to the claimed evaluation.
    InitialClaim,
    /// The oracle of this round does not sum to the running claim.
    SumCheck { round: usize },
    /// The symbol opened for this query in this round is not the fold of the
    /// pair opened for it in the round before.
    FoldConsistency { round: usize, query: usize },
    /// The Merkle path for the leaf of this index does not lead to the committed root.
    MerklePath { index: usize },
    /// A symbol folded in the last round differs from the final folded value.
    FinalValue,
}

impl Error {
    /// The class of this failure.
    pub open spec fn spec_kind(self) -> ErrorKind {
        match self {
            Error::SerializationFailure => ErrorKind::SerializationFailure,
            Error::TranscriptOverflow => ErrorKind::TranscriptOverflow,
            Error::DomainSizeOverflow => ErrorKind::DomainSizeOverflow,
            Error::ShapeMismatch => ErrorKind::ShapeMismatch,
            Error::InitialClaim => ErrorKind::ConsistencyFailure,
            Error::SumCheck { .. } => ErrorKind::ConsistencyFailure,
            Error::FoldConsistency { .. } => ErrorKind::ConsistencyFailure,
            Error::MerklePath { .. } => ErrorKind::ConsistencyFailure,
            Error::FinalValue => ErrorKind::ConsistencyFailure,
        }
    }

    /// The class of this failure.
    pub fn kind(&self) -> (k: ErrorKind)
        ensures
            k == self.spec_kind(),
    {
        match self {
            Error::SerializationFailure => ErrorKind::SerializationFailure,
            Error::TranscriptOverflow => ErrorKind::TranscriptOverflow,
            Error::DomainSizeOverflow => ErrorKind::DomainSizeOverflow,
            Error::ShapeMismatch => ErrorKind::ShapeMismatch,
            Error::InitialClaim => ErrorKind::ConsistencyFailure,
            Error::SumCheck { .. } => ErrorKind::ConsistencyFailure,
            Error::FoldConsistency { .. } => ErrorKind::ConsistencyFailure,
            Error::MerklePath { .. } => ErrorKind::ConsistencyFailure,
            Error::FinalValue => ErrorKind::ConsistencyFailure,
        }
    }

    /// What went wrong, in words.
    pub open spec fn spec_message(self) -> Seq<char> {
        match self {
            Error::SerializationFailure => "a field element could not be serialized"@,
            Error::TranscriptOverflow => "channel counter overflow"@,
            Error::DomainSizeOverflow => "log_max_len too large for usize"@,
            Error::ShapeMismatch => "a part of the proof has the wrong length"@,
            Error::InitialClaim => "the partial evaluations do not give the claimed evaluation"@,
            Error::SumCheck { .. } => "sum of oracle evaluations failed"@,
            Error::FoldConsistency { .. } => "symbol not consistent with the fold of the round before"@,
            Error::MerklePath { .. } => "path failed to verify"@,
            Error::FinalValue => "a folded symbol differs from the final folded value"@,
        }
    }

    /// What went wrong, in words.
    pub fn message(&self) -> (text: &'static str)
        ensures
            text@ == self.spec_message(),
    {
        match self {
            Error::SerializationFailure => "a field element could not be serialized",
            Error::TranscriptOverflow => "channel counter overflow",
            Error::DomainSizeOverflow => "log_max_len too large for usize",
            Error::ShapeMismatch => "a part of the proof has the wrong length",
            Error::InitialClaim => "the partial evaluations do not give the claimed evaluation",
            Error::SumCheck { .. } => "sum of oracle evaluations failed",
            Error::FoldConsistency { .. } => "symbol not consistent with the fold of the round before",
            Error::MerklePath { .. } => "path failed to verify",
            Error::FinalValue => "a folded symbol differs from the final folded value",
        }
    }
}

} // verus!

//! Errors reported by permutation construction.

use vstd::prelude::*;

verus! {

/// Why a permutation could not be produced.
#[derive(Debug, Clone, Copy, PartialEq, Eq, Structural)]
pub enum PermutationError {
    /// The requested size is below the minimum of 3 for which a valid
    /// permutation (no fixed points, no 2-cycles) exists.
    SizeTooSmall,
    /// The shuffle was re-drawn more times than the iteration budget
    /// allows.  Termination of the retry loop is only probabilistic, so a
    /// finite budget bounds it; exhausting the budget is reported rather
    /// than looping on.
    RetriesExhausted,
}

impl PermutationError {
    /// A short human-readable description.
    pub fn describe(&self) -> (r: &'static str)
        ensures
            r@ =~= match self {
                PermutationError::SizeTooSmall => "permutation size too small"@,
                PermutationError::RetriesExhausted => "shuffle retry budget exhausted"@,
            },
    {
        match self {
            PermutationError::SizeTooSmall => "permutation size too small",
            PermutationError::RetriesExhausted => "shuffle retry budget exhausted",
        }
    }
}

} // verus!

//! The ways in which the engine refuses its input.

use vstd::prelude::*;

verus! {

/// Why an operation of the engine failed.
#[derive(Clone, Copy, Debug, PartialEq, Eq, Structural)]
pub enum EngineError {
    /// A word is not exactly five letters long.
    InvalidLength,
    /// A word holds a character outside `a`-`z`, or a dictionary token is malformed.
    InvalidWord,
    /// The feedback received so far rules out every candidate.
    NoCandidates,
    /// The secret answer is not a legal word.
    InvalidAnswer,
}

} // verus!

//! Why a chain may refuse to generate.

use vstd::prelude::*;
use vstd::string::StringExecFns;

verus! {

/// The reason why no sequence was generated. It is found before any work is
/// done, so a failed request has produced nothing.
#[derive(Debug, Clone, Copy, PartialEq, Eq, Structural)]
pub enum GenerationError {
    /// The chain was built from no token at all.
    EmptyVocabulary,
    /// A sequence was to start at a first token, and the chain has none.
    NoSeedTokens,
}

/// The reason why a text gives no bounds for the length of a sentence.
#[derive(Debug, Clone, Copy, PartialEq, Eq, Structural)]
pub enum BoundsError {
    /// A bound is not a number that fits a `usize`.
    NotANumber,
    /// There are more than two bounds.
    InvalidRange,
}

impl BoundsError {
    /// The text that describes the error.
    pub open spec fn text(self) -> Seq<char> {
        match self {
            BoundsError::NotANumber => "Invalid number"@,
            BoundsError::InvalidRange => "Invalid range"@,
        }
    }

    /// A description of the error for display.
    pub fn message(&self) -> (message: String)
        ensures
            message@ == self.text(),
    {
        match self {
            BoundsError::NotANumber => String::from_str("Invalid number"),
            BoundsError::InvalidRange => String::from_str("Invalid range"),
        }
    }
}

impl GenerationError {
    /// The text that describes the error.
    pub open spec fn text(self) -> Seq<char> {
        match self {
            GenerationError::EmptyVocabulary => "No tokens found"@,
            GenerationError::NoSeedTokens => "No first tokens found"@,
        }
    }

    /// A description of the error for display.
    pub fn message(&self) -> (message: String)
        ensures
            message@ == self.text(),
    {
        match self {
            GenerationError::EmptyVocabulary => String::from_str("No tokens found"),
            GenerationError::NoSeedTokens => String::from_str("No first tokens found"),
        }
    }
}

} // verus!

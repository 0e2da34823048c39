//! Why a pattern cannot be turned into a string.

use vstd::prelude::*;
use vstd::string::StringExecFns;

verus! {

/// A character class from which nothing can be produced.
#[derive(Clone, Copy, Debug, PartialEq, Eq, Structural)]
pub enum PatternError {
    /// A character has to be drawn from a class whose pool is empty.
    EmptyClass,
    /// A quantifier asks for at least more characters than it allows at most.
    InvertedQuantifier,
}

impl PatternError {
    /// A sentence that names the fault.
    pub fn message(&self) -> (text: String)
        ensures
            text@ == match *self {
                PatternError::EmptyClass => "empty character class"@,
                PatternError::InvertedQuantifier => "quantifier minimum exceeds its maximum"@,
            },
    {
        match self {
            PatternError::EmptyClass => String::from_str("empty character class"),
            PatternError::InvertedQuantifier => String::from_str(
                "quantifier minimum exceeds its maximum",
            ),
        }
    }
}

} // verus!

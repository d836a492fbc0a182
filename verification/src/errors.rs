//! The ways in which building an automaton can fail.
use vstd::prelude::*;

verus! {

/// Why an automaton could not be built.
#[derive(Clone, Copy, Debug, PartialEq, Eq, Hash, Structural)]
pub enum DaachorseError {
    /// The pattern set is empty, or it holds a pattern of length zero.
    InvalidArgument,
    /// A pattern occurs twice in the pattern set.
    DuplicatePattern,
    /// The patterns, or the automaton built from them, are too large to be addressed.
    AutomatonScale,
    /// The position of a pattern could not be converted to the type of the values.
    InvalidConversion,
}

impl DaachorseError {
    /// Returns a description of the failure.
    pub fn message(&self) -> (r: &'static str)
        ensures
            *self == DaachorseError::InvalidArgument ==> r@ == "invalid argument: the pattern set must not be empty and must not hold an empty pattern"@,
            *self == DaachorseError::DuplicatePattern ==> r@ == "duplicate pattern: every pattern must be registered once"@,
            *self == DaachorseError::AutomatonScale ==> r@ == "automaton scale: the patterns exceed what the automaton can address"@,
            *self == DaachorseError::InvalidConversion ==> r@ == "invalid conversion: the position of a pattern does not fit the value type"@,
    {
        match self {
            DaachorseError::InvalidArgument => "invalid argument: the pattern set must not be empty and must not hold an empty pattern",
            DaachorseError::DuplicatePattern => "duplicate pattern: every pattern must be registered once",
            DaachorseError::AutomatonScale => "automaton scale: the patterns exceed what the automaton can address",
            DaachorseError::InvalidConversion => "invalid conversion: the position of a pattern does not fit the value type",
        }
    }
}

/// The result of building an automaton.
pub type Result<T> = core::result::Result<T, DaachorseError>;

} // verus!

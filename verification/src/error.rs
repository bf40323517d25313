//! Parse error types.
use vstd::prelude::*;

verus! {

/// Errors that can occur during regex pattern parsing. Positions are byte
/// offsets into the pattern.
#[derive(Debug, Clone, PartialEq, Eq, Structural)]
pub enum ParseError {
    /// Unexpected end of input.
    UnexpectedEof { pos: usize },
    /// Unexpected character encountered.
    UnexpectedChar { ch: char, pos: usize },
    /// Unclosed group.
    UnclosedGroup { pos: usize },
    /// Unclosed character class.
    UnclosedCharClass { pos: usize },
    /// Invalid escape sequence.
    InvalidEscape { pos: usize },
    /// Invalid quantifier.
    InvalidQuantifier { pos: usize },
    /// Quantifier min greater than max.
    QuantifierMinGreaterThanMax { min: u32, max: u32, pos: usize },
    /// Nothing to repeat.
    NothingToRepeat { pos: usize },
    /// Invalid group name.
    InvalidGroupName { pos: usize },
    /// Unknown group type.
    UnknownGroupType { pos: usize },
}

} // verus!

//! The two ways in which reading the block files can fail.

use vstd::prelude::*;

verus! {

/// The cursor ran out of bytes in the middle of a structure.
#[derive(Clone, Copy, PartialEq, Eq, Structural, Debug)]
pub struct EofError;

/// A failure of the parser. Both kinds are fatal to a traversal.
#[derive(Clone, Copy, PartialEq, Eq, Structural, Debug)]
pub enum ParseError {
    /// Fewer bytes remained than the structure being read requires.
    Eof,
    /// A framing byte was neither the expected value nor a terminator.
    Invalid,
}

impl ParseError {
    /// The parse error that stands for running out of bytes.
    pub fn from_eof(e: EofError) -> (r: ParseError)
        ensures
            r == ParseError::Eof,
    {
        ParseError::Eof
    }

    /// The name of the failing condition.
    pub fn name(&self) -> (r: &'static str)
        ensures
            r@ == (match *self {
                ParseError::Eof => "Eof"@,
                ParseError::Invalid => "Invalid"@,
            }),
    {
        match self {
            ParseError::Eof => "Eof",
            ParseError::Invalid => "Invalid",
        }
    }
}

} // verus!

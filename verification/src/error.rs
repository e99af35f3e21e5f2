//! The errors a pattern compilation or a match attempt can raise.

use vstd::prelude::*;

verus! {

/// Errors that can occur when compiling a pattern or matching an input line.
#[derive(Clone, Copy, Debug, PartialEq, Eq, Structural)]
pub enum RegexError {
    /// The pattern contains an opening `[` that is never closed.
    UnmatchedBracket,
    /// The pattern names an unknown POSIX character class.
    InvalidCharacterClassName,
    /// The pattern is otherwise malformed: a quantifier with no preceding
    /// state, a misplaced `^` or `$`, or a malformed `{...}` body.
    InvalidRegularExpression,
    /// The input line handed to the matcher contains non-ASCII characters.
    NonAsciiInput,
    /// A bracket range `[x-y]` whose end is below its start.
    InvalidBracketRange,
    /// Reading the searched file failed; raised by the surrounding file
    /// reader, never by the engine itself.
    InvalidFile,
}

impl RegexError {
    /// A human-readable description of the error.
    pub fn message(&self) -> (r: &'static str)
        ensures
            r@ == spec_message(*self),
    {
        match self {
            RegexError::UnmatchedBracket => "Unmatched [, [^, [:, or [.",
            RegexError::InvalidCharacterClassName => "Invalid character class name",
            RegexError::InvalidRegularExpression => "Invalid regular expression",
            RegexError::NonAsciiInput => "Input is not ASCII",
            RegexError::InvalidFile => "Invalid file",
            RegexError::InvalidBracketRange => "Invalid range end",
        }
    }
}

/// The description text that [`RegexError::message`] returns for each error.
pub open spec fn spec_message(e: RegexError) -> Seq<char> {
    match e {
        RegexError::UnmatchedBracket => "Unmatched [, [^, [:, or [."@,
        RegexError::InvalidCharacterClassName => "Invalid character class name"@,
        RegexError::InvalidRegularExpression => "Invalid regular expression"@,
        RegexError::NonAsciiInput => "Input is not ASCII"@,
        RegexError::InvalidFile => "Invalid file"@,
        RegexError::InvalidBracketRange => "Invalid range end"@,
    }
}

} // verus!

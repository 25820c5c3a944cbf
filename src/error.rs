use vstd::prelude::*;

use crate::lexer::TokenType;

verus! {

/// What went wrong while scanning or parsing.
#[derive(Debug, Clone, Copy, PartialEq, Eq, Structural)]
pub enum ErrorKind {
    /// A character that starts no token.
    UnexpectedCharacter(char),
    /// A string literal not closed before the end of its line or of the input.
    UnterminatedString,
    /// A backslash in a string literal followed by an unsupported character.
    InvalidEscapeSequence(char),
    /// A numeric literal whose digits do not fit its form.
    InvalidNumericLiteral,
    /// The parser needed one kind of token and found another.
    UnexpectedToken { expected: TokenType, found: TokenType },
    /// A pin type other than `logic`, `analog` or `clock`.
    InvalidPinType,
    /// A top-level token that is neither `package` nor the end of the input.
    MalformedPackageFile,
}

/// An error together with the zero-based line and column of the scanner's
/// cursor at the moment it was detected.
#[derive(Debug, Clone, Copy, PartialEq, Eq, Structural)]
pub struct Error {
    pub kind: ErrorKind,
    pub line: usize,
    pub column: usize,
}

/// Number of line breaks among the first `n` characters of `s`.
pub open spec fn row_at(s: Seq<char>, n: int) -> int
    decreases n,
{
    if n <= 0 {
        0
    } else {
        row_at(s, n - 1) + if s[n - 1] == '\n' { 1int } else { 0int }
    }
}

/// Offset of the first character of the line that holds offset `n`.
pub open spec fn bol_at(s: Seq<char>, n: int) -> int
    decreases n,
{
    if n <= 0 {
        0
    } else if s[n - 1] == '\n' {
        n
    } else {
        bol_at(s, n - 1)
    }
}

/// `e` reports `fault`, a kind detected at an offset of `s`, with that offset's
/// line and column.
pub open spec fn error_at(e: Error, s: Seq<char>, fault: (ErrorKind, int)) -> bool {
    &&& e.kind == fault.0
    &&& e.line == row_at(s, fault.1)
    &&& e.column == fault.1 - bol_at(s, fault.1)
}

} // verus!

use vstd::prelude::*;
use crate::rawjson::Position;
use crate::token::{EscapedStringToken, ImmediateToken, MainToken};

verus! {

/// What the parser would have accepted where it failed.
#[derive(PartialEq, Eq, Structural, Clone, Copy, Debug)]
pub enum Expected {
    /// One structural token.
    Token(MainToken),
    /// The start of a value: `{`, `[`, `"`, `t`, `f`, `n`, `-` or a digit.
    Value,
    /// A sign or a digit after an exponent mark.
    ExponentSignOrDigit,
    /// The rest of a string, up to its closing quotation mark.
    StringEnd,
}

/// A parse failure, with the positions it concerns.
#[derive(PartialEq, Eq, Debug)]
#[allow(inconsistent_fields)]
pub enum ParseError {
    /// The character starts no value.
    Tokenize { found: char, pos: Position },
    /// A character other than the one required.
    UnexpectedToken { expected: Expected, found: char, pos: Position },
    /// The input ended while more was required.
    UnexpectedEof { expected: Expected, pos: Position },
    /// Whitespace inside a token of several characters.
    UnexpectedWhitespace { found: String, start: Position, end: Position },
    /// The input ended inside a token of several characters.
    TruncatedToken { found: String, start: Position, end: Position },
    /// A literal other than the one its first character announced.
    UnexpectedLiteral { expected: ImmediateToken, found: String, start: Position, end: Position },
    /// A comma right before a closing `}` or `]`, at the comma.
    TrailingComma { pos: Position },
    /// A line break inside a string.
    CannotCloseString { building: String, start: Position, end: Position },
    /// `\b` or `\f`, which this parser does not support.
    UnsupportedEscape { escape: EscapedStringToken, start: Position, end: Position },
    /// A backslash followed by a character that escapes nothing.
    UnexpectedEscape { escape: char, start: Position, end: Position },
    /// Four characters after `\u` that give no character.
    CannotConvertUnicode { hex: String, start: Position, end: Position },
    /// A number part with no digit.
    EmptyDigits { pos: Position },
    /// An integer numeral outside the range of `i64`.
    CannotConvertInteger { num: String, start: Position, end: Position },
    /// Text after the value.
    FoundSurplus { start: Position, end: Position },
}

} // verus!

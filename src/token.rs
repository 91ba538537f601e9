use vstd::prelude::*;
use crate::text::chars_of;

verus! {

/// Why a character or a text is no token of a grammar region.
#[derive(PartialEq, Eq, Clone, Debug)]
pub enum TokenizeError {
    /// No token of the region starts with this character.
    UnmatchedTokenPrefix { c: char },
    /// The text is no token of the region.
    UnmatchedToken { s: String },
}

/// Structural tokens: brackets, braces, colon, comma, quotation mark and
/// whitespace. Any other character is `Undecided`: it may start a literal or a
/// number, or nothing at all.
#[derive(PartialEq, Eq, Structural, Clone, Copy, Debug)]
pub enum MainToken {
    LeftBrace,
    RightBrace,
    LeftBracket,
    RightBracket,
    Colon,
    Comma,
    Quotation,
    Whitespace,
    Undecided(char),
}

/// JSON whitespace: space, tab, carriage return, line feed.
pub open spec fn is_ws(c: char) -> bool {
    c == ' ' || c == '\t' || c == '\r' || c == '\n'
}

pub open spec fn main_token_of(c: char) -> MainToken {
    if c == '{' {
        MainToken::LeftBrace
    } else if c == '}' {
        MainToken::RightBrace
    } else if c == '[' {
        MainToken::LeftBracket
    } else if c == ']' {
        MainToken::RightBracket
    } else if c == ':' {
        MainToken::Colon
    } else if c == ',' {
        MainToken::Comma
    } else if c == '"' {
        MainToken::Quotation
    } else if is_ws(c) {
        MainToken::Whitespace
    } else {
        MainToken::Undecided(c)
    }
}

impl MainToken {
    /// Classifies a character.
    pub fn tokenize(c: char) -> (r: MainToken)
        ensures
            r == main_token_of(c),
    {
        if c == '{' {
            MainToken::LeftBrace
        } else if c == '}' {
            MainToken::RightBrace
        } else if c == '[' {
            MainToken::LeftBracket
        } else if c == ']' {
            MainToken::RightBracket
        } else if c == ':' {
            MainToken::Colon
        } else if c == ',' {
            MainToken::Comma
        } else if c == '"' {
            MainToken::Quotation
        } else if c == ' ' || c == '\t' || c == '\r' || c == '\n' {
            MainToken::Whitespace
        } else {
            MainToken::Undecided(c)
        }
    }
}

/// The literals `true`, `false` and `null`.
#[derive(PartialEq, Eq, Structural, Clone, Copy, Debug)]
pub enum ImmediateToken {
    True,
    False,
    Null,
}

pub open spec fn literal_of(t: ImmediateToken) -> Seq<char> {
    match t {
        ImmediateToken::True => seq!['t', 'r', 'u', 'e'],
        ImmediateToken::False => seq!['f', 'a', 'l', 's', 'e'],
        ImmediateToken::Null => seq!['n', 'u', 'l', 'l'],
    }
}

pub open spec fn immediate_prefix(c: char) -> Option<ImmediateToken> {
    if c == 't' {
        Some(ImmediateToken::True)
    } else if c == 'f' {
        Some(ImmediateToken::False)
    } else if c == 'n' {
        Some(ImmediateToken::Null)
    } else {
        None
    }
}

impl ImmediateToken {
    /// The literal that a first character announces.
    pub fn lookahead(c: char) -> (r: Result<ImmediateToken, TokenizeError>)
        ensures
            match r {
                Ok(t) => immediate_prefix(c) == Some(t),
                Err(e) => immediate_prefix(c) is None && e == TokenizeError::UnmatchedTokenPrefix { c },
            },
    {
        if c == 't' {
            Ok(ImmediateToken::True)
        } else if c == 'f' {
            Ok(ImmediateToken::False)
        } else if c == 'n' {
            Ok(ImmediateToken::Null)
        } else {
            Err(TokenizeError::UnmatchedTokenPrefix { c })
        }
    }

    /// The literal's text.
    pub fn literal(&self) -> (r: Vec<char>)
        ensures
            r@ == literal_of(*self),
    {
        let r = match self {
            ImmediateToken::True => vec!['t', 'r', 'u', 'e'],
            ImmediateToken::False => vec!['f', 'a', 'l', 's', 'e'],
            ImmediateToken::Null => vec!['n', 'u', 'l', 'l'],
        };
        assert(r@ =~= literal_of(*self));
        r
    }

    /// The literal whose whole text is `s`.
    pub fn tokenize(s: &str) -> (r: Result<ImmediateToken, TokenizeError>)
        ensures
            match r {
                Ok(t) => literal_of(t) == s@,
                Err(e) => (forall|t: ImmediateToken| literal_of(t) != s@) && e is UnmatchedToken,
            },
    {
        let cs = chars_of(s);

        let t = ImmediateToken::True;
        if crate::text::chars_eq(&cs, &t.literal()) {
            return Ok(t);
        }
        let t = ImmediateToken::False;
        if crate::text::chars_eq(&cs, &t.literal()) {
            return Ok(t);
        }
        let t = ImmediateToken::Null;
        if crate::text::chars_eq(&cs, &t.literal()) {
            return Ok(t);
        }
        assert forall|t: ImmediateToken| literal_of(t) != s@ by {
            match t {
                ImmediateToken::True => {},
                ImmediateToken::False => {},
                ImmediateToken::Null => {},
            }
        }
        Err(TokenizeError::UnmatchedToken { s: crate::text::string_of(&cs) })
    }
}

/// What may follow a backslash inside a string.
#[derive(PartialEq, Eq, Structural, Clone, Copy, Debug)]
pub enum EscapedStringToken {
    Quotation,
    ReverseSolidus,
    Solidus,
    Backspace,
    Formfeed,
    Linefeed,
    CarriageReturn,
    HorizontalTab,
    Unicode,
}

pub open spec fn escape_of(c: char) -> Option<EscapedStringToken> {
    if c == '"' {
        Some(EscapedStringToken::Quotation)
    } else if c == '\\' {
        Some(EscapedStringToken::ReverseSolidus)
    } else if c == '/' {
        Some(EscapedStringToken::Solidus)
    } else if c == 'b' {
        Some(EscapedStringToken::Backspace)
    } else if c == 'f' {
        Some(EscapedStringToken::Formfeed)
    } else if c == 'n' {
        Some(EscapedStringToken::Linefeed)
    } else if c == 'r' {
        Some(EscapedStringToken::CarriageReturn)
    } else if c == 't' {
        Some(EscapedStringToken::HorizontalTab)
    } else if c == 'u' {
        Some(EscapedStringToken::Unicode)
    } else {
        None
    }
}

/// The character a simple escape stands for; none for `\b`, `\f` (not
/// supported) and `\u` (four hex digits follow).
pub open spec fn unescaped_of(t: EscapedStringToken) -> Option<char> {
    match t {
        EscapedStringToken::Quotation => Some('"'),
        EscapedStringToken::ReverseSolidus => Some('\\'),
        EscapedStringToken::Solidus => Some('/'),
        EscapedStringToken::Linefeed => Some('\n'),
        EscapedStringToken::CarriageReturn => Some('\r'),
        EscapedStringToken::HorizontalTab => Some('\t'),
        _ => None,
    }
}

impl EscapedStringToken {
    /// Classifies the character after a backslash.
    pub fn lookahead(c: char) -> (r: Result<EscapedStringToken, TokenizeError>)
        ensures
            match r {
                Ok(t) => escape_of(c) == Some(t),
                Err(e) => escape_of(c) is None && e == TokenizeError::UnmatchedTokenPrefix { c },
            },
    {
        if c == '"' {
            Ok(EscapedStringToken::Quotation)
        } else if c == '\\' {
            Ok(EscapedStringToken::ReverseSolidus)
        } else if c == '/' {
            Ok(EscapedStringToken::Solidus)
        } else if c == 'b' {
            Ok(EscapedStringToken::Backspace)
        } else if c == 'f' {
            Ok(EscapedStringToken::Formfeed)
        } else if c == 'n' {
            Ok(EscapedStringToken::Linefeed)
        } else if c == 'r' {
            Ok(EscapedStringToken::CarriageReturn)
        } else if c == 't' {
            Ok(EscapedStringToken::HorizontalTab)
        } else if c == 'u' {
            Ok(EscapedStringToken::Unicode)
        } else {
            Err(TokenizeError::UnmatchedTokenPrefix { c })
        }
    }

    /// The character this escape stands for, if it is a simple one.
    pub fn unescaped(&self) -> (r: Option<char>)
        ensures
            r == unescaped_of(*self),
    {
        match self {
            EscapedStringToken::Quotation => Some('"'),
            EscapedStringToken::ReverseSolidus => Some('\\'),
            EscapedStringToken::Solidus => Some('/'),
            EscapedStringToken::Linefeed => Some('\n'),
            EscapedStringToken::CarriageReturn => Some('\r'),
            EscapedStringToken::HorizontalTab => Some('\t'),
            _ => None,
        }
    }
}

/// Characters of the number grammar.
#[derive(PartialEq, Eq, Structural, Clone, Copy, Debug)]
pub enum NumberToken {
    Zero,
    OneNine(char),
    Plus,
    Minus,
    Dot,
    Exponent,
}

pub open spec fn is_digit(c: char) -> bool {
    '0' <= c && c <= '9'
}

pub open spec fn number_token_of(c: char) -> Option<NumberToken> {
    if c == '0' {
        Some(NumberToken::Zero)
    } else if '1' <= c && c <= '9' {
        Some(NumberToken::OneNine(c))
    } else if c == '+' {
        Some(NumberToken::Plus)
    } else if c == '-' {
        Some(NumberToken::Minus)
    } else if c == '.' {
        Some(NumberToken::Dot)
    } else if c == 'e' || c == 'E' {
        Some(NumberToken::Exponent)
    } else {
        None
    }
}

impl NumberToken {
    /// Classifies a character of a number.
    pub fn lookahead(c: char) -> (r: Result<NumberToken, TokenizeError>)
        ensures
            match r {
                Ok(t) => number_token_of(c) == Some(t),
                Err(e) => number_token_of(c) is None && e == TokenizeError::UnmatchedTokenPrefix { c },
            },
    {
        if c == '0' {
            Ok(NumberToken::Zero)
        } else if '1' <= c && c <= '9' {
            Ok(NumberToken::OneNine(c))
        } else if c == '+' {
            Ok(NumberToken::Plus)
        } else if c == '-' {
            Ok(NumberToken::Minus)
        } else if c == '.' {
            Ok(NumberToken::Dot)
        } else if c == 'e' || c == 'E' {
            Ok(NumberToken::Exponent)
        } else {
            Err(TokenizeError::UnmatchedTokenPrefix { c })
        }
    }
}

/// How a value starts, from its first character.
#[derive(PartialEq, Eq, Structural, Clone, Copy, Debug)]
pub enum JsonToken {
    LeftBrace,
    LeftBracket,
    Quotation,
    Immediate(ImmediateToken),
    Number(NumberToken),
}

pub open spec fn value_start_of(c: char) -> Option<JsonToken> {
    if c == '{' {
        Some(JsonToken::LeftBrace)
    } else if c == '[' {
        Some(JsonToken::LeftBracket)
    } else if c == '"' {
        Some(JsonToken::Quotation)
    } else if immediate_prefix(c) is Some {
        Some(JsonToken::Immediate(immediate_prefix(c)->0))
    } else if c == '-' || is_digit(c) {
        Some(JsonToken::Number(number_token_of(c)->0))
    } else {
        None
    }
}

impl JsonToken {
    /// Which value a character starts, if any.
    pub fn lookahead(c: char) -> (r: Result<JsonToken, TokenizeError>)
        ensures
            match r {
                Ok(t) => value_start_of(c) == Some(t),
                Err(e) => value_start_of(c) is None && e == TokenizeError::UnmatchedTokenPrefix { c },
            },
    {
        if c == '{' {
            Ok(JsonToken::LeftBrace)
        } else if c == '[' {
            Ok(JsonToken::LeftBracket)
        } else if c == '"' {
            Ok(JsonToken::Quotation)
        } else if c == 't' || c == 'f' || c == 'n' {
            match ImmediateToken::lookahead(c) {
                Ok(t) => Ok(JsonToken::Immediate(t)),
                Err(e) => Err(e),
            }
        } else if c == '-' || ('0' <= c && c <= '9') {
            match NumberToken::lookahead(c) {
                Ok(t) => Ok(JsonToken::Number(t)),
                Err(e) => Err(e),
            }
        } else {
            Err(TokenizeError::UnmatchedTokenPrefix { c })
        }
    }
}

/// Structural tokens of an array.
#[derive(PartialEq, Eq, Structural, Clone, Copy, Debug)]
pub enum ArrayToken {
    LeftBracket,
    RightBracket,
    Comma,
}

pub open spec fn array_token_of(c: char) -> Option<ArrayToken> {
    if c == '[' {
        Some(ArrayToken::LeftBracket)
    } else if c == ']' {
        Some(ArrayToken::RightBracket)
    } else if c == ',' {
        Some(ArrayToken::Comma)
    } else {
        None
    }
}

impl ArrayToken {
    /// Classifies a character.
    pub fn lookahead(c: char) -> (r: Result<ArrayToken, TokenizeError>)
        ensures
            match r {
                Ok(t) => array_token_of(c) == Some(t),
                Err(e) => array_token_of(c) is None && e == TokenizeError::UnmatchedTokenPrefix { c },
            },
    {
        if c == '[' {
            Ok(ArrayToken::LeftBracket)
        } else if c == ']' {
            Ok(ArrayToken::RightBracket)
        } else if c == ',' {
            Ok(ArrayToken::Comma)
        } else {
            Err(TokenizeError::UnmatchedTokenPrefix { c })
        }
    }

    /// The token whose whole text is `s`: exactly one character of the region.
    pub fn tokenize(s: &str) -> (r: Result<ArrayToken, TokenizeError>)
        ensures
            match r {
                Ok(t) => s@.len() == 1 && array_token_of(s@[0]) == Some(t),
                Err(e) => (s@.len() != 1 || array_token_of(s@[0]) is None) && e is UnmatchedToken,
            },
    {
        let cs = chars_of(s);
        if cs.len() == 1 {
            if let Ok(t) = ArrayToken::lookahead(cs[0]) {
                return Ok(t);
            }
        }
        Err(TokenizeError::UnmatchedToken { s: crate::text::string_of(&cs) })
    }

    /// The same token as a structural one.
    pub fn main(&self) -> (r: MainToken)
        ensures
            r == main_token_of(array_char(*self)),
    {
        match self {
            ArrayToken::LeftBracket => MainToken::LeftBracket,
            ArrayToken::RightBracket => MainToken::RightBracket,
            ArrayToken::Comma => MainToken::Comma,
        }
    }
}

pub open spec fn array_char(t: ArrayToken) -> char {
    match t {
        ArrayToken::LeftBracket => '[',
        ArrayToken::RightBracket => ']',
        ArrayToken::Comma => ',',
    }
}

/// Structural tokens of an object.
#[derive(PartialEq, Eq, Structural, Clone, Copy, Debug)]
pub enum ObjectToken {
    LeftBrace,
    RightBrace,
    Colon,
    Comma,
}

pub open spec fn object_char(t: ObjectToken) -> char {
    match t {
        ObjectToken::LeftBrace => '{',
        ObjectToken::RightBrace => '}',
        ObjectToken::Colon => ':',
        ObjectToken::Comma => ',',
    }
}

pub open spec fn object_token_of(c: char) -> Option<ObjectToken> {
    if c == '{' {
        Some(ObjectToken::LeftBrace)
    } else if c == '}' {
        Some(ObjectToken::RightBrace)
    } else if c == ':' {
        Some(ObjectToken::Colon)
    } else if c == ',' {
        Some(ObjectToken::Comma)
    } else {
        None
    }
}

impl ObjectToken {
    /// Classifies a character.
    pub fn lookahead(c: char) -> (r: Result<ObjectToken, TokenizeError>)
        ensures
            match r {
                Ok(t) => object_token_of(c) == Some(t),
                Err(e) => object_token_of(c) is None && e == TokenizeError::UnmatchedTokenPrefix { c },
            },
    {
        if c == '{' {
            Ok(ObjectToken::LeftBrace)
        } else if c == '}' {
            Ok(ObjectToken::RightBrace)
        } else if c == ':' {
            Ok(ObjectToken::Colon)
        } else if c == ',' {
            Ok(ObjectToken::Comma)
        } else {
            Err(TokenizeError::UnmatchedTokenPrefix { c })
        }
    }

    /// The same token as a structural one.
    pub fn main(&self) -> (r: MainToken)
        ensures
            r == main_token_of(object_char(*self)),
    {
        match self {
            ObjectToken::LeftBrace => MainToken::LeftBrace,
            ObjectToken::RightBrace => MainToken::RightBrace,
            ObjectToken::Colon => MainToken::Colon,
            ObjectToken::Comma => MainToken::Comma,
        }
    }
}

} // verus!

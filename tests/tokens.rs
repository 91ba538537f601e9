use dyson::token::{
    ArrayToken, EscapedStringToken, ImmediateToken, JsonToken, MainToken, NumberToken, ObjectToken, TokenizeError,
};

#[test]
fn token_test_undecided() {
    assert_eq!(MainToken::tokenize('t'), MainToken::Undecided('t'));
    assert_eq!(MainToken::tokenize('f'), MainToken::Undecided('f'));
    assert_eq!(MainToken::tokenize('n'), MainToken::Undecided('n'));
}

#[test]
fn test_lookahead() {
    assert!(matches!(JsonToken::lookahead('{'), Ok(JsonToken::LeftBrace)));
    assert!(matches!(JsonToken::lookahead('f'), Ok(JsonToken::Immediate(ImmediateToken::False))));
    assert!(matches!(NumberToken::lookahead('+'), Ok(NumberToken::Plus)));
}

#[test]
fn array_test_tokenize() {
    assert!(matches!(ArrayToken::lookahead('{'), Err(_)));
    assert!(matches!(ArrayToken::lookahead('['), Ok(ArrayToken::LeftBracket)));
    assert!(matches!(ArrayToken::tokenize(","), Ok(ArrayToken::Comma)));
    assert!(matches!(ArrayToken::tokenize(";"), Err(_)));
}

#[test]
fn numeric_test_tokenize() {
    assert!(matches!(NumberToken::lookahead('0'), Ok(NumberToken::Zero)));
    assert!(matches!(NumberToken::lookahead('7'), Ok(NumberToken::OneNine('7'))));
}

#[test]
fn string_test_tokenize() {
    assert_eq!(MainToken::tokenize('"'), MainToken::Quotation);
    assert_eq!(MainToken::tokenize('{'), MainToken::LeftBrace);
    assert!(matches!(EscapedStringToken::lookahead('n'), Ok(EscapedStringToken::Linefeed)));
    assert!(matches!(EscapedStringToken::lookahead('f'), Ok(EscapedStringToken::Formfeed)));
    assert!(matches!(EscapedStringToken::lookahead('"'), Ok(EscapedStringToken::Quotation)));
    assert!(matches!(EscapedStringToken::lookahead('d'), Err(TokenizeError::UnmatchedTokenPrefix { c: 'd' })));
    assert_eq!(EscapedStringToken::Linefeed.unescaped(), Some('\n'));
    assert_eq!(EscapedStringToken::Formfeed.unescaped(), None);
}

#[test]
fn main_token_classes() {
    assert_eq!(MainToken::tokenize(' '), MainToken::Whitespace);
    assert_eq!(MainToken::tokenize('\t'), MainToken::Whitespace);
    assert_eq!(MainToken::tokenize('\r'), MainToken::Whitespace);
    assert_eq!(MainToken::tokenize('\n'), MainToken::Whitespace);
    assert_eq!(MainToken::tokenize(':'), MainToken::Colon);
    assert_eq!(MainToken::tokenize(','), MainToken::Comma);
    assert_eq!(MainToken::tokenize('7'), MainToken::Undecided('7'));
}

#[test]
fn immediate_tokens() {
    assert_eq!(ImmediateToken::tokenize("true"), Ok(ImmediateToken::True));
    assert_eq!(ImmediateToken::tokenize("null"), Ok(ImmediateToken::Null));
    assert!(matches!(ImmediateToken::tokenize("nul"), Err(TokenizeError::UnmatchedToken { .. })));
    assert_eq!(ImmediateToken::lookahead('x'), Err(TokenizeError::UnmatchedTokenPrefix { c: 'x' }));
    assert_eq!(ImmediateToken::False.literal(), vec!['f', 'a', 'l', 's', 'e']);
}

#[test]
fn value_start_tokens() {
    assert_eq!(JsonToken::lookahead('-'), Ok(JsonToken::Number(NumberToken::Minus)));
    assert_eq!(JsonToken::lookahead('"'), Ok(JsonToken::Quotation));
    assert_eq!(JsonToken::lookahead('+'), Err(TokenizeError::UnmatchedTokenPrefix { c: '+' }));
    assert_eq!(ObjectToken::lookahead(':'), Ok(ObjectToken::Colon));
    assert_eq!(ObjectToken::RightBrace.main(), MainToken::RightBrace);
    assert_eq!(ArrayToken::Comma.main(), MainToken::Comma);
}

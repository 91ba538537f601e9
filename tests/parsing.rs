use dyson::error::{Expected, ParseError};
use dyson::lexer::Lexer;
use dyson::parser::Parser;
use dyson::rawjson::RawJson;
use dyson::token::{EscapedStringToken, ImmediateToken, MainToken};
use dyson::{parse, Value};

fn float_of(v: &Value) -> f64 {
    v.get_float().expect("a float").parse::<f64>().unwrap()
}

#[test]
fn test_parse_json() {
    let json = RawJson::from_text(
        "{\n    \"language\": \"rust\",\n    \"notation\": \"json\"\n    \"version\": 0.1\n    \"keyword\": [\"rust\", \"json\", \"parser\"]\n{",
    );
    assert_eq!(json.rows(), 6);
}

#[test]
fn parser_test_parse_empty_object() {
    let empty = RawJson::from_text("{}");
    let (mut lexer, parser) = (Lexer::new(&empty), Parser::new());
    let object = parser.parse_object(&mut lexer);
    assert_eq!(object, Ok(Value::Object(Vec::new())));
    assert_eq!(lexer.next(), Some(((0, 2), '\n')));
    assert_eq!(lexer.next(), None);
}

#[test]
fn object_test_parse_empty_object() {
    let empty = RawJson::from_text("{}");
    let (mut lexer, parser) = (Lexer::new(&empty), Parser::new());
    if let Value::Object(m) = parser.parse_value(&mut lexer).unwrap() {
        assert!(m.is_empty());
    } else {
        unreachable!("\"{{}}\" must be parsed as empty object");
    }
    assert_eq!(lexer.next(), Some(((0, 2), '\n')));
    assert_eq!(lexer.next(), None);
}

#[test]
fn parser_test_parse_empty_array() {
    let empty = RawJson::from_text("[\r\n \t \n  ]");
    let (mut lexer, parser) = (Lexer::new(&empty), Parser::new());
    let array = parser.parse_array(&mut lexer);
    assert_eq!(array, Ok(Value::Array(Vec::new())));
    assert_eq!(lexer.next(), Some(((2, 3), '\n')));
    assert_eq!(lexer.next(), None);
}

#[test]
fn array_test_parse_empty_object() {
    let empty = RawJson::from_text("[]");
    let (mut lexer, parser) = (Lexer::new(&empty), Parser::new());
    if let Value::Array(vec) = parser.parse_value(&mut lexer).unwrap() {
        assert!(vec.is_empty());
    } else {
        unreachable!("\"[]\" must be parsed as empty array");
    }
    assert_eq!(lexer.next(), Some(((0, 2), '\n')));
    assert_eq!(lexer.next(), None);
}

#[test]
fn parser_test_parse_bool() {
    let parser = Parser::new();
    let (tru, fal) = (RawJson::from_text("true"), RawJson::from_text("false"));
    let (mut true_lexer, mut false_lexer) = (Lexer::new(&tru), Lexer::new(&fal));
    let (true_value, false_value) =
        (parser.parse_immediate(&mut true_lexer).unwrap(), parser.parse_immediate(&mut false_lexer).unwrap());
    assert_eq!((true_value, false_value), (Value::Bool(true), Value::Bool(false)));
    assert_eq!((true_lexer.next(), false_lexer.next()), (Some(((0, 4), '\n')), Some(((0, 5), '\n'))));
    assert_eq!((true_lexer.next(), false_lexer.next()), (None, None));

    let (tru3, f4lse) = (RawJson::from_text("tru3"), RawJson::from_text("f4lse"));
    let (mut tru3_lexer, mut f4lse_lexer) = (Lexer::new(&tru3), Lexer::new(&f4lse));
    let tru3_err = parser.parse_immediate(&mut tru3_lexer).unwrap_err();
    let f4lse_err = parser.parse_immediate(&mut f4lse_lexer).unwrap_err();
    assert_eq!(
        tru3_err,
        ParseError::UnexpectedLiteral { expected: ImmediateToken::True, found: "tru3".to_string(), start: (0, 0), end: (0, 4) }
    );
    assert_eq!(
        f4lse_err,
        ParseError::UnexpectedLiteral {
            expected: ImmediateToken::False,
            found: "f4lse".to_string(),
            start: (0, 0),
            end: (0, 5)
        }
    );
    assert_eq!((tru3_lexer.next(), f4lse_lexer.next()), (Some(((0, 4), '\n')), Some(((0, 5), '\n'))));
    assert_eq!((tru3_lexer.next(), f4lse_lexer.next()), (None, None));
}

#[test]
fn immediate_test_parse_bool() {
    let (t, f) = (RawJson::from_text("true"), RawJson::from_text("false"));
    let parser = Parser::new();
    let (mut tp, mut fp) = (Lexer::new(&t), Lexer::new(&f));
    let (tv, fv) = (parser.parse_value(&mut tp).unwrap(), parser.parse_value(&mut fp).unwrap());
    assert_eq!(tv, Value::Bool(true));
    assert_eq!(fv, Value::Bool(false));
    assert_eq!((tp.next(), fp.next()), (Some(((0, 4), '\n')), Some(((0, 5), '\n'))));
    assert_eq!((tp.next(), fp.next()), (None, None));
}

#[test]
fn parser_test_parse_null() {
    let null = RawJson::from_text("null");
    let (mut lexer, parser) = (Lexer::new(&null), Parser::new());
    assert_eq!(parser.parse_immediate(&mut lexer).unwrap(), Value::Null);
    assert_eq!(lexer.next(), Some(((0, 4), '\n')));
    assert_eq!(lexer.next(), None);

    let nuli = RawJson::from_text("nuli");
    let (mut lexer, parser) = (Lexer::new(&nuli), Parser::new());
    let err = parser.parse_immediate(&mut lexer).unwrap_err();
    assert_eq!(
        err,
        ParseError::UnexpectedLiteral { expected: ImmediateToken::Null, found: "nuli".to_string(), start: (0, 0), end: (0, 4) }
    );
    assert_eq!(lexer.next(), Some(((0, 4), '\n')));
    assert_eq!(lexer.next(), None);
}

#[test]
fn literal_split_by_a_line_break() {
    let json = RawJson::from_text("[true,  fal\nse]");
    let (mut lexer, parser) = (Lexer::new(&json), Parser::new());
    let err = parser.parse_value(&mut lexer).unwrap_err();
    assert_eq!(
        err,
        ParseError::UnexpectedLiteral { expected: ImmediateToken::False, found: "fal".to_string(), start: (0, 8), end: (0, 11) }
    );
}

fn parse_string_at(text: &str) -> (Value, Option<((usize, usize), char)>) {
    let json = RawJson::from_text(text);
    let (mut lexer, parser) = (Lexer::new(&json), Parser::new());
    let v = parser.parse_string(&mut lexer).unwrap();
    (v, lexer.next())
}

#[test]
fn parser_test_parse_string() {
    assert_eq!(parse_string_at(r#""Rust""#), (Value::String("Rust".to_string()), Some(((0, 6), '\n'))));
    assert_eq!(parse_string_at(r#""Ru\"st""#), (Value::String("Ru\"st".to_string()), Some(((0, 8), '\n'))));
    assert_eq!(parse_string_at(r#""Ru\nst""#), (Value::String("Ru\nst".to_string()), Some(((0, 8), '\n'))));
    assert_eq!(parse_string_at(r#""R\u00f9st""#), (Value::String("Rùst".to_string()), Some(((0, 11), '\n'))));
}

#[test]
fn string_test_parse_string() {
    assert_eq!(parse_string_at(r#""Rust""#), (Value::String("Rust".to_string()), Some(((0, 6), '\n'))));
    assert_eq!(parse_string_at(r#""Ru\"st""#), (Value::String("Ru\"st".to_string()), Some(((0, 8), '\n'))));
    assert_eq!(parse_string_at(r#""Ru\/st""#), (Value::String("Ru/st".to_string()), Some(((0, 8), '\n'))));
    assert_eq!(parse_string_at(r#""Ru\nst""#), (Value::String("Ru\nst".to_string()), Some(((0, 8), '\n'))));
    assert_eq!(parse_string_at(r#""R\u00f9st""#), (Value::String("Rùst".to_string()), Some(((0, 11), '\n'))));
    assert_eq!(
        parse_string_at(r#""\u01a6\u03Cd\u03E8\u01aC""#),
        (Value::String("ƦύϨƬ".to_string()), Some(((0, 26), '\n')))
    );
}

fn parse_number_at(text: &str) -> (Value, Option<((usize, usize), char)>) {
    let json = RawJson::from_text(text);
    let (mut lexer, parser) = (Lexer::new(&json), Parser::new());
    let v = parser.parse_number(&mut lexer).unwrap();
    (v, lexer.next())
}

#[test]
fn test_parse_number() {
    let (hundred, next) = parse_number_at("100");
    assert_eq!(hundred, Value::Integer(100));
    assert_eq!(next, Some(((0, 3), '\n')));

    let (half, next) = parse_number_at("0.5");
    assert_eq!(half, Value::Float("0.5".to_string()));
    assert_eq!(float_of(&half), 0.5);
    assert_eq!(next, Some(((0, 3), '\n')));

    let (thousand, next) = parse_number_at("1E3");
    assert_eq!(float_of(&thousand), 1000.);
    assert_eq!(next, Some(((0, 3), '\n')));

    let (ten, next) = parse_number_at("0.1e2");
    assert_eq!(float_of(&ten), 10.);
    assert_eq!(next, Some(((0, 5), '\n')));
}

#[test]
fn numeric_test_parse_string() {
    let (v, next) = parse_number_at("123456");
    assert_eq!(v, Value::Integer(123456));
    assert_eq!(next, Some(((0, 6), '\n')));
}

#[test]
fn integer_bounds() {
    assert_eq!(parse("-9223372036854775808"), Ok(Value::Integer(i64::MIN)));
    assert_eq!(parse("9223372036854775807"), Ok(Value::Integer(i64::MAX)));
    assert_eq!(
        parse("9223372036854775808"),
        Err(ParseError::CannotConvertInteger { num: "9223372036854775808".to_string(), start: (0, 0), end: (0, 19) })
    );
    assert_eq!(parse("-0"), Ok(Value::Integer(0)));
    assert_eq!(parse("-"), Err(ParseError::EmptyDigits { pos: (0, 0) }));
    assert_eq!(parse("1."), Err(ParseError::EmptyDigits { pos: (0, 0) }));
}

#[test]
fn test_parse_empty() {
    assert_eq!(parse(""), Err(ParseError::UnexpectedEof { expected: Expected::Value, pos: (0, 0) }));
    assert_eq!(parse("  \n "), Err(ParseError::UnexpectedEof { expected: Expected::Value, pos: (2, 0) }));
}

#[test]
fn test_parse_double() {
    assert_eq!(
        parse("{{}}"),
        Err(ParseError::UnexpectedToken {
            expected: Expected::Token(MainToken::RightBrace),
            found: '{',
            pos: (0, 1)
        })
    );
    assert_eq!(parse("[[]]"), Ok(Value::Array(vec![Value::Array(Vec::new())])));
}

#[test]
fn test_trailing_comma() {
    let object = r#"
        {
            "one": 1,
            "two": 2,
        }
        "#;
    assert_eq!(parse(object), Err(ParseError::TrailingComma { pos: (3, 20) }));

    let array = r#"
        [
            "one",
            "two",
        ]
        "#;
    assert_eq!(parse(array), Err(ParseError::TrailingComma { pos: (3, 17) }));
    assert_eq!(parse(r#"{"a":1,}"#), Err(ParseError::TrailingComma { pos: (0, 6) }));
    assert_eq!(parse("[1,]"), Err(ParseError::TrailingComma { pos: (0, 2) }));
}

#[test]
fn test_invalid_string() {
    assert_eq!(
        parse("\"not closed string"),
        Err(ParseError::CannotCloseString { building: "not closed string".to_string(), start: (0, 0), end: (0, 18) })
    );
    assert_eq!(
        parse("\"\\d mean digit\""),
        Err(ParseError::UnexpectedEscape { escape: 'd', start: (0, 1), end: (0, 2) })
    );
    assert_eq!(
        parse("\"formfeed \\f is not supported\""),
        Err(ParseError::UnsupportedEscape { escape: EscapedStringToken::Formfeed, start: (0, 10), end: (0, 11) })
    );
    let quotation = r#"
        {
            "one": 1,
            "two": "three"four",
        }"#;
    assert!(matches!(
        parse(quotation),
        Err(ParseError::UnexpectedToken { expected: Expected::Token(MainToken::RightBrace), found: 'f', .. })
    ));
}

#[test]
fn invalid_unicode_escapes() {
    assert!(matches!(parse(r#""\ud800""#), Err(ParseError::CannotConvertUnicode { .. })));
    assert!(matches!(parse(r#""\u00g0""#), Err(ParseError::CannotConvertUnicode { .. })));
    assert!(matches!(parse(r#""\u00""#), Err(ParseError::CannotConvertUnicode { .. })));
    assert_eq!(
        parse(r#""\b""#),
        Err(ParseError::UnsupportedEscape { escape: EscapedStringToken::Backspace, start: (0, 1), end: (0, 2) })
    );
}

#[test]
fn test_invalid_number() {
    assert_eq!(parse("+123"), Err(ParseError::Tokenize { found: '+', pos: (0, 0) }));
    assert_eq!(parse("1.2.3"), Err(ParseError::FoundSurplus { start: (0, 3), end: (1, 0) }));
    assert_eq!(
        parse("1eE5"),
        Err(ParseError::UnexpectedToken { expected: Expected::ExponentSignOrDigit, found: 'E', pos: (0, 2) })
    );
    let overflow = "999999999999999999999999999999999999999999999999999999999999";
    assert_eq!(
        parse(overflow),
        Err(ParseError::CannotConvertInteger { num: overflow.to_string(), start: (0, 0), end: (0, 60) })
    );
    assert_eq!(parse("01"), Err(ParseError::FoundSurplus { start: (0, 1), end: (1, 0) }));
}

#[test]
fn test_invalid_json() {
    let rs = r#"
        {
            1: "one",
            2: "two"
        }"#;
    assert_eq!(
        parse(rs),
        Err(ParseError::UnexpectedToken {
            expected: Expected::Token(MainToken::RightBrace),
            found: '1',
            pos: (2, 12)
        })
    );
}

#[test]
fn test_surplus_json() {
    let rs = r#"
        {
            "one": 1,
            "two": 2
        }, "this is text"#;
    assert_eq!(parse(rs), Err(ParseError::FoundSurplus { start: (4, 9), end: (5, 0) }));
}

#[test]
fn test_invalid_value() {
    assert_eq!(parse("invalid json"), Err(ParseError::Tokenize { found: 'i', pos: (0, 0) }));
}

#[test]
fn test_str_object() {
    let v = parse(r#"{"this": "is", "json": "parser"}"#).unwrap();
    assert_eq!(
        v,
        Value::Object(vec![
            ("this".to_string(), Value::String("is".to_string())),
            ("json".to_string(), Value::String("parser".to_string())),
        ])
    );
}

#[test]
fn duplicate_keys_keep_first_place() {
    let v = parse(r#"{"a": 1, "b": 2, "a": 3}"#).unwrap();
    assert_eq!(
        v,
        Value::Object(vec![("a".to_string(), Value::Integer(3)), ("b".to_string(), Value::Integer(2))])
    );
}

#[test]
fn escape_handling() {
    assert_eq!(parse(r#""\u00f9""#), Ok(Value::String("ù".to_string())));
    assert_eq!(parse(r#""\/""#), Ok(Value::String("/".to_string())));
    assert_eq!(
        parse(r#""\f""#),
        Err(ParseError::UnsupportedEscape { escape: EscapedStringToken::Formfeed, start: (0, 1), end: (0, 2) })
    );
}

#[test]
fn number_grammar() {
    assert_eq!(parse("100"), Ok(Value::Integer(100)));
    assert_eq!(float_of(&parse("0.5").unwrap()), 0.5);
    assert_eq!(float_of(&parse("1E3").unwrap()), 1000.0);
    assert_eq!(float_of(&parse("-2.5e-1").unwrap()), -0.25);
    assert!(parse("+123").is_err());
    assert!(parse("1.2.3").is_err());
    assert!(parse("01").is_err());
}

#[test]
fn members_need_commas() {
    assert_eq!(
        parse(r#"{"a":1 "b":2}"#),
        Err(ParseError::UnexpectedToken { expected: Expected::Token(MainToken::RightBrace), found: '"', pos: (0, 7) })
    );
    assert_eq!(
        parse("[1 2]"),
        Err(ParseError::UnexpectedToken { expected: Expected::Token(MainToken::RightBracket), found: '2', pos: (0, 3) })
    );
}

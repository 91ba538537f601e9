use dyson::error::{Expected, ParseError};
use dyson::lexer::Lexer;
use dyson::token::MainToken;
use dyson::rawjson::RawJson;

fn lines_of(json: &RawJson) -> Vec<Vec<char>> {
    json.lines()
}

#[test]
fn json_test_json_into_iter() {
    let json = RawJson::from_text("{\n\"a\": 1\n}");
    let rows = lines_of(&json);
    let mut j_iter = rows.into_iter();
    let mut line1 = j_iter.next().unwrap().into_iter();
    assert_eq!(line1.next(), Some('{'));
    assert_eq!(line1.next(), None);
    let mut line2 = j_iter.next().unwrap().into_iter();
    assert_eq!(line2.next(), Some('"'));
    assert_eq!(line2.next(), Some('a'));
    assert_eq!(line2.next(), Some('"'));
    assert_eq!(line2.next(), Some(':'));
    assert_eq!(line2.next(), Some(' '));
    assert_eq!(line2.next(), Some('1'));
    assert_eq!(line2.next(), None);
    let mut line3 = j_iter.next().unwrap().into_iter();
    assert_eq!(line3.next(), Some('}'));
    assert_eq!(line3.next(), None);
    assert_eq!(j_iter.next(), None);
}

#[test]
fn json_test_json_iter() {
    let json = RawJson::from_text("{\n\"b\": 2\r\n}");
    let expected = vec![vec!['{'], vec!['"', 'b', '"', ':', ' ', '2'], vec!['}']];
    let rows = lines_of(&json);
    assert_eq!(rows.len(), expected.len());
    for (l, el) in rows.iter().zip(expected.iter()) {
        assert_eq!(l.len(), el.len());
        for (c, ec) in l.iter().zip(el.iter()) {
            assert_eq!(c, ec);
        }
    }
    let _json_is_not_moved = json;
}

#[test]
fn json_test_json_flatten() {
    let json = RawJson::from_text("{\n\"a\": 1\n}");
    let mut j_iter = lines_of(&json).into_iter().flat_map(|l| l.into_iter());
    assert_eq!(j_iter.next(), Some('{'));
    assert_eq!(j_iter.next(), Some('"'));
    assert_eq!(j_iter.next(), Some('a'));
    assert_eq!(j_iter.next(), Some('"'));
    assert_eq!(j_iter.next(), Some(':'));
    assert_eq!(j_iter.next(), Some(' '));
    assert_eq!(j_iter.next(), Some('1'));
    assert_eq!(j_iter.next(), Some('}'));
    assert_eq!(j_iter.next(), None);
}

#[test]
fn json_test_empty_json() {
    let json = RawJson::from_text("");
    assert_eq!(json.rows(), 0);
    assert!(json.is_empty());
    let mut j_iter = lines_of(&json).into_iter();
    assert_eq!(j_iter.next(), None);
}

#[test]
fn text_buffer_positions_and_eof() {
    let json = RawJson::from_text("ab\n\ncd\n");
    assert_eq!(json.rows(), 4);
    assert_eq!(json.row_len(1), 0);
    assert_eq!(json.at(0, 1), Some('b'));
    assert_eq!(json.at(0, 2), None);
    assert_eq!(json.at(9, 0), None);
    assert_eq!(json.eof(), (4, 0));
    assert_eq!(RawJson::from_text("").eof(), (0, 0));
    assert_eq!(json.first(), Some(((0, 0), 'a')));
}

#[test]
fn text_buffer_keeps_lone_carriage_return() {
    let json = RawJson::from_text("a\rb\r\nc");
    let rows = json.lines();
    assert_eq!(rows, vec![vec!['a', '\r', 'b'], vec!['c']]);
}

#[test]
fn lexer_test_json_read() {
    let json = RawJson::from_text("{\n\"a\": 1\n}");
    let mut lexer = Lexer::new(&json);
    assert_eq!(lexer.peek(), Some(((0, 0), '{')));
    assert_eq!(lexer.peek(), Some(((0, 0), '{')));
    assert_eq!(lexer.peek(), Some(((0, 0), '{')));
    assert_eq!(lexer.next(), Some(((0, 0), '{')));
    assert_eq!(lexer.next(), Some(((0, 1), '\n')));
    assert_eq!(lexer.next(), Some(((1, 0), '"')));
    assert_eq!(lexer.next(), Some(((1, 1), 'a')));
    assert_eq!(lexer.next(), Some(((1, 2), '"')));
    assert_eq!(lexer.peek(), Some(((1, 3), ':')));
    assert_eq!(lexer.peek(), Some(((1, 3), ':')));
    assert_eq!(lexer.peek(), Some(((1, 3), ':')));
    assert_eq!(lexer.next(), Some(((1, 3), ':')));
    assert_eq!(lexer.next(), Some(((1, 4), ' ')));
    assert_eq!(lexer.next(), Some(((1, 5), '1')));
    assert_eq!(lexer.peek(), Some(((1, 6), '\n')));
    assert_eq!(lexer.peek(), Some(((1, 6), '\n')));
    assert_eq!(lexer.peek(), Some(((1, 6), '\n')));
    assert_eq!(lexer.next(), Some(((1, 6), '\n')));
    assert_eq!(lexer.next(), Some(((2, 0), '}')));
    assert_eq!(lexer.peek(), Some(((2, 1), '\n')));
    assert_eq!(lexer.next(), Some(((2, 1), '\n')));
    assert_eq!(lexer.peek(), None);
    assert_eq!(lexer.next(), None);
    assert_eq!(lexer.peek(), None);
    assert_eq!(lexer.peek(), None);
    assert_eq!(lexer.next(), None);
    assert_eq!(lexer.next(), None);
}

#[test]
fn lexer_test_skip_whitespace() {
    let json = RawJson::from_text("{\n    \"a\": 1\n}");
    let expected = vec!['{', '"', 'a', '"', ':', '1', '}'];
    let (mut i, mut lexer) = (0, Lexer::new(&json));
    while lexer.skip_whitespace().is_some() {
        assert_eq!(lexer.next().unwrap().1, expected[i]);
        i += 1;
    }
    assert_eq!(i, expected.len());
}

/// The rows as the lexer reads them: each with its line feed.
fn lexed_rows(json: &RawJson) -> Vec<Vec<char>> {
    let mut lexer = Lexer::new(json);
    let mut rows: Vec<Vec<char>> = Vec::new();
    while let Some(((row, _), c)) = lexer.next() {
        while rows.len() <= row {
            rows.push(Vec::new());
        }
        rows[row].push(c);
    }
    rows
}

#[test]
fn rawjson_test_json_into_iter() {
    let json = RawJson::from_text("{\n\"a\": 1\n}");
    let mut j_iter = lexed_rows(&json).into_iter();
    let mut line1 = j_iter.next().unwrap().into_iter();
    assert_eq!(line1.next(), Some('{'));
    assert_eq!(line1.next(), Some('\n'));
    assert_eq!(line1.next(), None);
    let mut line2 = j_iter.next().unwrap().into_iter();
    assert_eq!(line2.next(), Some('"'));
    assert_eq!(line2.next(), Some('a'));
    assert_eq!(line2.next(), Some('"'));
    assert_eq!(line2.next(), Some(':'));
    assert_eq!(line2.next(), Some(' '));
    assert_eq!(line2.next(), Some('1'));
    assert_eq!(line2.next(), Some('\n'));
    assert_eq!(line2.next(), None);
    let mut line3 = j_iter.next().unwrap().into_iter();
    assert_eq!(line3.next(), Some('}'));
    assert_eq!(line3.next(), Some('\n'));
    assert_eq!(line3.next(), None);
    assert_eq!(j_iter.next(), None);
}

#[test]
fn rawjson_test_json_iter() {
    let json = RawJson::from_text("{\n\"b\": 2\r\n}");
    let expected = vec![vec!['{', '\n'], vec!['"', 'b', '"', ':', ' ', '2', '\n'], vec!['}', '\n']];
    let rows = lexed_rows(&json);
    assert_eq!(rows.len(), expected.len());
    for (l, el) in rows.iter().zip(expected.iter()) {
        assert_eq!(l.len(), el.len());
        for (c, ec) in l.iter().zip(el.iter()) {
            assert_eq!(c, ec);
        }
    }
    let _json_is_not_moved = json;
}

#[test]
fn rawjson_test_json_flatten() {
    let json = RawJson::from_text("{\n\"a\": 1\n}");
    let mut j_iter = lexed_rows(&json).into_iter().flat_map(|l| l.into_iter());
    assert_eq!(j_iter.next(), Some('{'));
    assert_eq!(j_iter.next(), Some('\n'));
    assert_eq!(j_iter.next(), Some('"'));
    assert_eq!(j_iter.next(), Some('a'));
    assert_eq!(j_iter.next(), Some('"'));
    assert_eq!(j_iter.next(), Some(':'));
    assert_eq!(j_iter.next(), Some(' '));
    assert_eq!(j_iter.next(), Some('1'));
    assert_eq!(j_iter.next(), Some('\n'));
    assert_eq!(j_iter.next(), Some('}'));
    assert_eq!(j_iter.next(), Some('\n'));
    assert_eq!(j_iter.next(), None);
}

#[test]
fn rawjson_test_empty_json() {
    let json = RawJson::from_text("");
    assert_eq!(json.rows(), 0);
    assert!(json.is_empty());
    let mut j_iter = lexed_rows(&json).into_iter();
    assert_eq!(j_iter.next(), None);
}

#[test]
fn lexer_test_lex_1_char() {
    let json = RawJson::from_text(" {\n ]");
    let mut lexer = Lexer::new(&json);
    assert_eq!(
        lexer.lex_1_char(MainToken::LeftBrace, false),
        Err(ParseError::UnexpectedToken { expected: Expected::Token(MainToken::LeftBrace), found: ' ', pos: (0, 0) })
    );
    assert_eq!(lexer.lex_1_char(MainToken::LeftBrace, true), Ok(((0, 1), '{')));
    let error = Err(ParseError::UnexpectedToken {
        expected: Expected::Token(MainToken::RightBrace),
        found: ']',
        pos: (1, 1),
    });
    assert_eq!(lexer.lex_1_char(MainToken::RightBrace, true), error);
    assert!(lexer.is_next(MainToken::RightBracket, true));
    assert!(!lexer.is_next(MainToken::RightBrace, true));
    assert_eq!(lexer.lex_1_char(MainToken::RightBrace, true), error);
    assert!(lexer.is_next(MainToken::RightBracket, true));
    assert_eq!(lexer.lex_1_char(MainToken::RightBracket, true), Ok(((1, 1), ']')));
    assert_eq!(
        lexer.lex_1_char(MainToken::RightBrace, true),
        Err(ParseError::UnexpectedEof { expected: Expected::Token(MainToken::RightBrace), pos: (2, 0) })
    );
    assert!(!lexer.is_next(MainToken::RightBracket, true));
    assert!(!lexer.is_next(MainToken::RightBrace, true));
}

#[test]
fn lexer_test_lex_n_chars() {
    let json = RawJson::from_text("[true,  fal\nse]");
    let mut lexer = Lexer::new(&json);
    assert_eq!(lexer.next(), Some(((0, 0), '[')));
    let (lex_4_chars, nexted) = lexer.lex_n_chars(4).unwrap();
    assert_eq!(lex_4_chars, vec!['t', 'r', 'u', 'e']);
    assert_eq!(nexted, Some(((0, 5), ',')));
    assert_eq!(lexer.next(), Some(((0, 5), ',')));
    assert_eq!(lexer.skip_whitespace(), Some(((0, 8), 'f')));
    assert_eq!(
        lexer.lex_n_chars(5),
        Err(ParseError::UnexpectedWhitespace { found: "fal".to_string(), start: (0, 8), end: (0, 11) })
    );
}

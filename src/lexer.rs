use vstd::prelude::*;
use crate::error::{Expected, ParseError};
use crate::rawjson::{
    char_at, eof_pos, fits, lemma_offset_step, lemma_prefix_monotonic, next_pos, offset, prefix_len, total_len, valid_pos,
    Position, RawJson,
};
use crate::text::string_of;
use crate::token::{is_ws, main_token_of, MainToken};

verus! {

/// The position of a cursor, or the end-of-input position.
pub open spec fn cur_pos(rows: Seq<Seq<char>>, cur: Option<(Position, char)>) -> Position {
    match cur {
        Some((p, _)) => p,
        None => eof_pos(rows),
    }
}

/// The cursor after one step from `cur`.
pub open spec fn step(rows: Seq<Seq<char>>, cur: Option<(Position, char)>) -> Option<(Position, char)> {
    match cur {
        None => None,
        Some((p, _)) => match next_pos(rows, p) {
            Some(q) => Some((q, char_at(rows, q))),
            None => None,
        },
    }
}

/// Characters left to read from a cursor.
pub open spec fn rem(rows: Seq<Seq<char>>, cur: Option<(Position, char)>) -> int {
    match cur {
        None => 0,
        Some((p, _)) => total_len(rows) - offset(rows, p),
    }
}

/// A cursor that stands on the character it names, in a buffer that fits.
pub open spec fn cursor_ok(rows: Seq<Seq<char>>, cur: Option<(Position, char)>) -> bool {
    fits(rows) && match cur {
        None => true,
        Some((p, c)) => valid_pos(rows, p) && c == char_at(rows, p),
    }
}

pub proof fn lemma_step(rows: Seq<Seq<char>>, cur: Option<(Position, char)>)
    requires
        cursor_ok(rows, cur),
    ensures
        cursor_ok(rows, step(rows, cur)),
        0 <= rem(rows, cur),
        0 <= rem(rows, step(rows, cur)),
        cur is Some ==> rem(rows, step(rows, cur)) < rem(rows, cur),
{
    if let Some((p, _)) = cur {
        lemma_offset_step(rows, p);
    }
}

/// The character under a cursor (a space once exhausted).
pub open spec fn cur_char(cur: Option<(Position, char)>) -> char {
    match cur {
        Some((_, c)) => c,
        None => ' ',
    }
}

/// The characters left to read from a cursor, in order.
pub open spec fn text_from(rows: Seq<Seq<char>>, cur: Option<(Position, char)>) -> Seq<char>
    decreases rem(rows, cur),
{
    if cursor_ok(rows, cur) && cur is Some {
        proof {
            lemma_step(rows, cur);
        }
        seq![cur_char(cur)] + text_from(rows, step(rows, cur))
    } else {
        seq![]
    }
}

/// The text left is one character per step, as many as remain.
pub proof fn lemma_text_from(rows: Seq<Seq<char>>, cur: Option<(Position, char)>)
    requires
        cursor_ok(rows, cur),
    ensures
        text_from(rows, cur).len() == rem(rows, cur),
        cur matches Some((_, c)) ==> text_from(rows, cur) == seq![c] + text_from(rows, step(rows, cur)),
        cur is None ==> text_from(rows, cur) == Seq::<char>::empty(),
    decreases rem(rows, cur),
{
    lemma_step(rows, cur);
    if cur is Some {
        lemma_text_from(rows, step(rows, cur));
    }
}

/// All the characters the lexer reads from a buffer: each row, then a line
/// feed.
pub open spec fn flat(rows: Seq<Seq<char>>) -> Seq<char>
    decreases rows.len(),
{
    if rows.len() == 0 {
        seq![]
    } else {
        flat(rows.drop_last()) + rows.last() + seq!['\n']
    }
}

proof fn lemma_prefix_drop_last(rows: Seq<Seq<char>>, r: int)
    requires
        0 <= r < rows.len(),
    ensures
        prefix_len(rows.drop_last(), r) == prefix_len(rows, r),
    decreases r,
{
    if r > 0 {
        lemma_prefix_drop_last(rows, r - 1);
    }
}

pub proof fn lemma_flat(rows: Seq<Seq<char>>)
    ensures
        flat(rows).len() == total_len(rows),
        forall|p: Position| valid_pos(rows, p) ==> flat(rows)[offset(rows, p) as int] == #[trigger] char_at(rows, p),
    decreases rows.len(),
{
    if rows.len() > 0 {
        let d = rows.drop_last();
        lemma_flat(d);
        let n = rows.len() - 1;
        lemma_prefix_drop_last(rows, n);
        assert forall|p: Position| valid_pos(rows, p) implies flat(rows)[offset(rows, p) as int] == #[trigger] char_at(
            rows,
            p,
        ) by {
            let fd = flat(d);
            assert(flat(rows) == fd + rows.last() + seq!['\n']);
            assert(fd.len() == total_len(d));
            assert(total_len(d) == prefix_len(d, n));
            if p.0 < n {
                lemma_prefix_drop_last(rows, p.0 as int);
                lemma_prefix_monotonic(d, p.0 + 1, n);
                assert(d[p.0 as int] == rows[p.0 as int]);
                assert(valid_pos(d, p));
                assert(prefix_len(d, p.0 + 1) == prefix_len(d, p.0 as int) + d[p.0 as int].len() + 1);
                assert(offset(d, p) == offset(rows, p));
                assert(char_at(d, p) == char_at(rows, p));
                assert(offset(rows, p) < fd.len());
                assert(flat(rows)[offset(rows, p) as int] == fd[offset(rows, p) as int]);
            } else {
                assert(p.0 == n);
                assert(offset(rows, p) == fd.len() + p.1);
                assert(rows.last() == rows[p.0 as int]);
                assert(flat(rows)[offset(rows, p) as int] == (rows.last() + seq!['\n'])[p.1 as int]);
            }
        }
    }
}

/// The text left from any cursor is the end of the buffer's text.
pub proof fn lemma_text_suffix(rows: Seq<Seq<char>>, cur: Option<(Position, char)>)
    requires
        cursor_ok(rows, cur),
    ensures
        0 <= rem(rows, cur) <= total_len(rows),
        text_from(rows, cur) == flat(rows).subrange(total_len(rows) - rem(rows, cur), total_len(rows) as int),
    decreases rem(rows, cur),
{
    lemma_flat(rows);
    lemma_text_from(rows, cur);
    lemma_step(rows, cur);
    match cur {
        None => {
            assert(flat(rows).subrange(total_len(rows) as int, total_len(rows) as int) =~= Seq::<char>::empty());
        },
        Some((p, c)) => {
            lemma_offset_step(rows, p);
            lemma_text_suffix(rows, step(rows, cur));
            let k = offset(rows, p) as int;
            assert(flat(rows)[k] == c);
            if step(rows, cur) is None {
                assert(p.0 + 1 == rows.len());
                assert(prefix_len(rows, rows.len() as int) == prefix_len(rows, p.0 as int) + rows[p.0 as int].len() + 1);
                assert(k + 1 == total_len(rows));
            }
            assert(flat(rows).subrange(k, total_len(rows) as int) =~= seq![c] + flat(rows).subrange(
                k + 1,
                total_len(rows) as int,
            ));
        },
    }
}

/// Moving on leaves the end of the text that was left.
pub proof fn lemma_text_advance(rows: Seq<Seq<char>>, a: Option<(Position, char)>, b: Option<(Position, char)>)
    requires
        cursor_ok(rows, a),
        cursor_ok(rows, b),
        rem(rows, b) <= rem(rows, a),
    ensures
        text_from(rows, b) == text_from(rows, a).subrange(rem(rows, a) - rem(rows, b), rem(rows, a)),
        text_from(rows, a).len() == rem(rows, a),
{
    lemma_text_suffix(rows, a);
    lemma_text_suffix(rows, b);
    lemma_text_from(rows, a);
    lemma_flat(rows);
    let f = flat(rows);
    let t = total_len(rows) as int;
    let ra = rem(rows, a);
    let rb = rem(rows, b);
    assert(f.subrange(t - ra, t).subrange(ra - rb, ra) =~= f.subrange(t - rb, t));
}

/// The cursor of a fresh lexer: on the first character, if any.
pub open spec fn start_cursor(rows: Seq<Seq<char>>) -> Option<(Position, char)> {
    if rows.len() == 0 {
        None
    } else {
        Some(((0usize, 0usize), char_at(rows, (0usize, 0usize))))
    }
}

/// Whether the cursor stands on whitespace.
pub open spec fn on_ws(cur: Option<(Position, char)>) -> bool {
    match cur {
        Some((_, c)) => is_ws(c),
        None => false,
    }
}

/// The cursor after skipping whitespace from `cur`.
pub open spec fn skip_ws_from(rows: Seq<Seq<char>>, cur: Option<(Position, char)>) -> Option<(Position, char)>
    decreases rem(rows, cur),
{
    if cursor_ok(rows, cur) && on_ws(cur) {
        proof {
            lemma_step(rows, cur);
        }
        skip_ws_from(rows, step(rows, cur))
    } else {
        cur
    }
}

pub proof fn lemma_skip_ws(rows: Seq<Seq<char>>, cur: Option<(Position, char)>)
    requires
        cursor_ok(rows, cur),
    ensures
        cursor_ok(rows, skip_ws_from(rows, cur)),
        0 <= rem(rows, skip_ws_from(rows, cur)) <= rem(rows, cur),
        skip_ws_from(rows, cur) matches Some((_, c)) ==> !is_ws(c),
    decreases rem(rows, cur),
{
    lemma_step(rows, cur);
    if on_ws(cur) {
        lemma_skip_ws(rows, step(rows, cur));
    }
}

/// The cursor that a lookup reads from: after whitespace when asked to skip it.
pub open spec fn seen(rows: Seq<Seq<char>>, cur: Option<(Position, char)>, skip_ws: bool) -> Option<(Position, char)> {
    if skip_ws {
        skip_ws_from(rows, cur)
    } else {
        cur
    }
}

/// A cursor over a text buffer: the current position and character, or none
/// once the input is exhausted. At the end of each row it reads a line feed.
pub struct Lexer<'a> {
    json: &'a RawJson,
    curr: Option<(Position, char)>,
}

impl<'a> Lexer<'a> {
    /// The rows being read.
    pub closed spec fn rows(&self) -> Seq<Seq<char>> {
        self.json@
    }

    /// The current position and character.
    pub closed spec fn current(&self) -> Option<(Position, char)> {
        self.curr
    }

    pub open spec fn wf(&self) -> bool {
        cursor_ok(self.rows(), self.current())
    }

    /// Characters left to read.
    pub open spec fn remaining(&self) -> int {
        rem(self.rows(), self.current())
    }

    /// A cursor on the first character of `json`.
    pub fn new(json: &'a RawJson) -> (r: Lexer<'a>)
        requires
            fits(json@),
        ensures
            r.rows() == json@,
            r.current() == start_cursor(json@),
            r.wf(),
    {
        Lexer { json, curr: json.first() }
    }

    /// The end-of-input position of the buffer.
    pub fn eof(&self) -> (r: Position)
        ensures
            r == eof_pos(self.rows()),
    {
        self.json.eof()
    }

    /// The current position and character, without moving.
    pub fn peek(&self) -> (r: Option<(Position, char)>)
        ensures
            r == self.current(),
    {
        self.curr
    }

    /// The current position, or the end-of-input position when exhausted.
    pub fn pos(&self) -> (r: Position)
        ensures
            r == cur_pos(self.rows(), self.current()),
    {
        match self.curr {
            Some((p, _)) => p,
            None => self.json.eof(),
        }
    }

    /// Returns the current position and character and moves one step.
    pub fn next(&mut self) -> (r: Option<(Position, char)>)
        requires
            old(self).wf(),
        ensures
            r == old(self).current(),
            final(self).rows() == old(self).rows(),
            final(self).current() == step(old(self).rows(), old(self).current()),
            final(self).wf(),
            0 <= final(self).remaining() <= old(self).remaining(),
            r is Some ==> final(self).remaining() < old(self).remaining(),
    {
        proof {
            lemma_step(self.json@, self.curr);
        }
        let cur = self.curr;
        match cur {
            None => None,
            Some(((row, col), c)) => {
                let len = self.json.row_len(row);
                if col < len {
                    let d = match self.json.at(row, col + 1) {
                        Some(d) => d,
                        None => '\n',
                    };
                    self.curr = Some(((row, col + 1), d));
                } else if row + 1 < self.json.rows() {
                    let d = match self.json.at(row + 1, 0) {
                        Some(d) => d,
                        None => '\n',
                    };
                    self.curr = Some(((row + 1, 0), d));
                } else {
                    self.curr = None;
                }
                cur
            },
        }
    }

    /// Moves past whitespace and returns the first other character, if any.
    pub fn skip_whitespace(&mut self) -> (r: Option<(Position, char)>)
        requires
            old(self).wf(),
        ensures
            r == final(self).current(),
            final(self).rows() == old(self).rows(),
            final(self).current() == skip_ws_from(old(self).rows(), old(self).current()),
            final(self).wf(),
            0 <= final(self).remaining() <= old(self).remaining(),
    {
        proof {
            lemma_skip_ws(self.json@, self.curr);
        }
        loop
            invariant
                self.wf(),
                self.rows() == old(self).rows(),
                skip_ws_from(self.rows(), self.current()) == skip_ws_from(old(self).rows(), old(self).current()),
                0 <= self.remaining() <= old(self).remaining(),
            decreases self.remaining(),
        {
            match self.curr {
                Some((_, c)) => {
                    if c == ' ' || c == '\t' || c == '\r' || c == '\n' {
                        self.next();
                    } else {
                        return self.curr;
                    }
                },
                None => {
                    return None;
                },
            }
        }
    }

    /// Consumes one character of the given structural kind, after whitespace
    /// when `skip_ws`. On a mismatch nothing but that whitespace is consumed.
    pub fn lex_1_char(&mut self, token: MainToken, skip_ws: bool) -> (r: Result<(Position, char), ParseError>)
        requires
            old(self).wf(),
        ensures
            final(self).rows() == old(self).rows(),
            final(self).wf(),
            0 <= final(self).remaining() <= old(self).remaining(),
            ({
                let s = seen(old(self).rows(), old(self).current(), skip_ws);
                match s {
                    None => r == Err::<(Position, char), ParseError>(
                        ParseError::UnexpectedEof { expected: Expected::Token(token), pos: eof_pos(old(self).rows()) },
                    ) && final(self).current() == s,
                    Some((p, c)) => if main_token_of(c) == token {
                        r == Ok::<(Position, char), ParseError>((p, c)) && final(self).current() == step(old(self).rows(), s)
                            && final(self).remaining() < old(self).remaining()
                    } else {
                        r == Err::<(Position, char), ParseError>(
                            ParseError::UnexpectedToken { expected: Expected::Token(token), found: c, pos: p },
                        ) && final(self).current() == s
                    },
                }
            }),
    {
        proof {
            lemma_step(self.json@, self.curr);
        }
        let s = if skip_ws {
            self.skip_whitespace()
        } else {
            self.curr
        };
        match s {
            None => Err(ParseError::UnexpectedEof { expected: Expected::Token(token), pos: self.json.eof() }),
            Some((p, c)) => {
                if MainToken::tokenize(c) == token {
                    self.next();
                    Ok((p, c))
                } else {
                    Err(ParseError::UnexpectedToken { expected: Expected::Token(token), found: c, pos: p })
                }
            },
        }
    }

    /// Whether the next character (after whitespace when `skip_ws`) is of the
    /// given structural kind. Consumes only that whitespace.
    pub fn is_next(&mut self, token: MainToken, skip_ws: bool) -> (r: bool)
        requires
            old(self).wf(),
        ensures
            final(self).rows() == old(self).rows(),
            final(self).wf(),
            0 <= final(self).remaining() <= old(self).remaining(),
            final(self).current() == seen(old(self).rows(), old(self).current(), skip_ws),
            r == (final(self).current() matches Some((_, c)) && main_token_of(c) == token),
    {
        proof {
            lemma_step(self.json@, self.curr);
        }
        let s = if skip_ws {
            self.skip_whitespace()
        } else {
            self.curr
        };
        match s {
            Some((_, c)) => MainToken::tokenize(c) == token,
            None => false,
        }
    }

    /// Consumes `n` characters, none of them whitespace, and returns them with
    /// the cursor that follows. Stops at the first whitespace or at the end
    /// of input with an error that carries what was read.
    pub fn lex_n_chars(&mut self, n: usize) -> (r: Result<(Vec<char>, Option<(Position, char)>), ParseError>)
        requires
            old(self).wf(),
        ensures
            final(self).rows() == old(self).rows(),
            final(self).wf(),
            0 <= final(self).remaining() <= old(self).remaining(),
            r matches Ok((s, next)) ==> {
                &&& s@.len() == n
                &&& forall|i: int| 0 <= i < n ==> !is_ws(#[trigger] s@[i])
                &&& next == final(self).current()
                &&& final(self).remaining() == old(self).remaining() - n
            },
            r matches Ok((s, _)) ==> s@ == text_from(old(self).rows(), old(self).current()).subrange(0, n as int)
                && text_from(final(self).rows(), final(self).current()) == text_from(
                old(self).rows(),
                old(self).current(),
            ).subrange(n as int, old(self).remaining()),
            r matches Err(e) ==> (e is UnexpectedWhitespace || e is TruncatedToken),
            ({
                let t = text_from(old(self).rows(), old(self).current());
                &&& r matches Err(ParseError::UnexpectedWhitespace { found, start, end }) ==> {
                    &&& found@.len() < n && found@.len() < t.len()
                    &&& found@ == t.subrange(0, found@.len() as int)
                    &&& is_ws(t[found@.len() as int])
                    &&& start == cur_pos(old(self).rows(), old(self).current())
                    &&& end == cur_pos(final(self).rows(), final(self).current())
                    &&& text_from(final(self).rows(), final(self).current()) == t.subrange(found@.len() as int, t.len() as int)
                }
                &&& r matches Err(ParseError::TruncatedToken { found, start, end }) ==> {
                    &&& t.len() < n
                    &&& found@ == t
                    &&& final(self).current() is None
                    &&& start == cur_pos(old(self).rows(), old(self).current())
                    &&& end == eof_pos(old(self).rows())
                }
            }),
            r is Err ==> old(self).remaining() < n || exists|i: int|
                0 <= i < n && is_ws(#[trigger] text_from(old(self).rows(), old(self).current())[i]),
    {
        proof {
            lemma_step(self.json@, self.curr);
        }
        let start = self.pos();
        let mut result: Vec<char> = Vec::new();
        let mut i: usize = 0;
        let ghost t0 = text_from(self.json@, self.curr);
        proof {
            lemma_text_from(self.json@, self.curr);
            assert(t0.subrange(0, 0) =~= Seq::<char>::empty());
            assert(t0.subrange(0, t0.len() as int) =~= t0);
        }
        while i < n
            invariant
                t0 == text_from(old(self).rows(), old(self).current()),
                t0.len() == old(self).remaining(),
                start == cur_pos(old(self).rows(), old(self).current()),
                result@ == t0.subrange(0, i as int),
                text_from(self.rows(), self.current()) == t0.subrange(i as int, t0.len() as int),
                self.wf(),
                self.rows() == old(self).rows(),
                i <= n,
                result@.len() == i,
                forall|k: int| 0 <= k < i ==> !is_ws(#[trigger] result@[k]),
                0 <= self.remaining() == old(self).remaining() - i,
            decreases n - i,
        {
            proof {
                lemma_text_from(self.json@, self.curr);
            }
            match self.curr {
                None => {
                    assert(t0.subrange(i as int, t0.len() as int).len() == 0);
                    assert(result@ =~= t0);
                    return Err(ParseError::TruncatedToken { found: string_of(&result), start, end: self.json.eof() });
                },
                Some((p, c)) => {
                    let ghost now = text_from(self.json@, self.curr);
                    assert(now[0] == c);
                    assert(t0[i as int] == c);
                    if c == ' ' || c == '\t' || c == '\r' || c == '\n' {
                        assert(is_ws(t0[i as int]));
                        return Err(ParseError::UnexpectedWhitespace { found: string_of(&result), start, end: p });
                    }
                    proof {
                        lemma_offset_step(self.json@, p);
                    }
                    let ghost cur0 = self.curr;
                    self.next();
                    assert(self.curr == step(self.json@, cur0));
                    assert(now == seq![c] + text_from(self.json@, self.curr));
                    assert(text_from(self.json@, self.curr) =~= now.drop_first());
                    result.push(c);
                    i = i + 1;
                    assert(result@ =~= t0.subrange(0, i as int));
                    assert(text_from(self.rows(), self.current()) =~= t0.subrange(i as int, t0.len() as int));
                },
            }
        }
        Ok((result, self.curr))
    }
}

} // verus!

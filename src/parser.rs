use vstd::prelude::*;
use crate::error::{Expected, ParseError};
use crate::grammar::{
    add_prefix, all_digits, breaks_line, char_of_code, decode_body, digit_run, digits_value, escape_step, exp_len, float_mark,
    frac_len, hex4_value, hex_digit_value, int_end, int_len, is_scalar, lemma_run_digits, numeral_len, numeral_value,
    sign_len, then_add, unicode_step,
};
use crate::lexer::{
    cur_char, cur_pos, cursor_ok, lemma_skip_ws, lemma_step, start_cursor, lemma_text_advance, lemma_text_from, rem, seen, skip_ws_from, step,
    text_from, Lexer,
};
use crate::print::{arity, compact, escaped, pretty, quoted};
use crate::rawjson::{eof_pos, split_rows, Position, RawJson};
use crate::readback::{
    arr_done, arr_head, lemma_after_child, lemma_after_key, lemma_at_close, lemma_at_head, lemma_child_value,
    lemma_elements_push, lemma_value_start, obj_done, obj_head,
    lemma_after_trail, lemma_container_start, lemma_trail_shift, entries_like, loose, merge_entries,
    lemma_members_insert, lemma_merge_unique, cut_stop, lemma_cut_stop,
};
use crate::roundtrip::{
    gap, head_at, lemma_compact_one_line, lemma_decode_quoted, lemma_first_char, lemma_float_numeral,
    lemma_int_numeral, lemma_numeral_prefix, lemma_one_line_text, lemma_pretty_no_cr, lemma_render_first,
    lemma_same_compact, lemma_skip_none_all_ws, lemma_skip_to_end, lemma_text_read, lemma_valid_wf, piece, printed_in, render, same_value,
    valid, valid_float, end_gap, lemma_layout_in, shaped, trail_in, with_trailing_comma, one_line, comma_tail, tail_at,
    ws_len,
};
use crate::text::{chars_eq, chars_of, string_of};
use crate::token::{
    escape_of, immediate_prefix, is_digit, is_ws, literal_of, unescaped_of, value_start_of, ArrayToken,
    EscapedStringToken, ImmediateToken, JsonToken, MainToken, ObjectToken,
};
use crate::value::{keys_unique, Value};

verus! {

/// The text read so far is `number`, a prefix of `t`, and the rest of `t`
/// is what the lexer has left; `r0` is the length of `t`.
pub open spec fn tracks(lexer: Lexer, number: Seq<char>, t: Seq<char>, r0: int) -> bool {
    &&& t.len() == r0
    &&& 0 <= lexer.remaining() <= r0
    &&& number.len() == r0 - lexer.remaining()
    &&& number == t.subrange(0, number.len() as int)
    &&& text_from(lexer.rows(), lexer.current()) == t.subrange(number.len() as int, r0)
}

/// An object read back with repeated keys merged: a later value replaces an
/// earlier one in its place; `extra` is the difference between the
/// characters read and the text's length.
#[verifier::opaque]
pub open spec fn reads_merged(r: Result<Value, ParseError>, v: Value, extra: int) -> bool {
    r matches Ok(w) && w matches Value::Object(ws) && entries_like(ws@, merge_entries(v->Object_0@, arity(v) as int))
        && extra == 0
}

/// The cursor stands on a character that starts a number.
pub open spec fn number_start(cur: Option<(Position, char)>) -> bool {
    cur matches Some((_, c)) && value_start_of(c) matches Some(JsonToken::Number(_))
}

/// The value a literal stands for.
pub open spec fn immediate_value(t: ImmediateToken) -> Value {
    match t {
        ImmediateToken::True => Value::Bool(true),
        ImmediateToken::False => Value::Bool(false),
        ImmediateToken::Null => Value::Null,
    }
}

/// Relies on `char::from_u32`: a `char` exactly for the Unicode scalar values,
/// namely the code itself.
#[verifier::external_body]
fn char_from_code(v: u32) -> (r: Option<char>)
    ensures
        r is Some <==> is_scalar(v as nat),
        r matches Some(c) ==> c as nat == v as nat && c == char_of_code(v as nat),
{
    char::from_u32(v)
}

/// Value of a hexadecimal digit.
fn hex_digit(c: char) -> (r: Option<u32>)
    ensures
        r matches Some(v) ==> hex_digit_value(c) == Some(v as nat),
        r is None ==> hex_digit_value(c) is None,
{
    if '0' <= c && c <= '9' {
        Some((c as u32) - ('0' as u32))
    } else if 'a' <= c && c <= 'f' {
        Some((c as u32) - ('a' as u32) + 10)
    } else if 'A' <= c && c <= 'F' {
        Some((c as u32) - ('A' as u32) + 10)
    } else {
        None
    }
}

/// Value of four hexadecimal digits.
pub fn hex4(s: &Vec<char>) -> (r: Option<u32>)
    ensures
        r matches Some(v) ==> hex4_value(s@) == Some(v as nat),
        r is None ==> hex4_value(s@) is None,
{
    if s.len() != 4 {
        return None;
    }
    let a = match hex_digit(s[0]) { Some(v) => v, None => return None };
    let b = match hex_digit(s[1]) { Some(v) => v, None => return None };
    let c = match hex_digit(s[2]) { Some(v) => v, None => return None };
    let d = match hex_digit(s[3]) { Some(v) => v, None => return None };
    Some(a * 4096 + b * 256 + c * 16 + d)
}

/// Value of an integer numeral (optional minus sign, then digits) if it fits
/// in `i64`.
pub fn numeral_to_i64(s: &Vec<char>) -> (r: Option<i64>)
    requires
        s@.len() > 0,
        s@[0] == '-' ==> s@.len() > 1 && all_digits(s@.drop_first()),
        s@[0] != '-' ==> all_digits(s@),
    ensures
        r matches Some(v) ==> v as int == numeral_value(s@),
        r is None ==> !(i64::MIN <= numeral_value(s@) <= i64::MAX),
{
    let negative = s[0] == '-';
    let first: usize = if negative { 1 } else { 0 };
    let cap: u128 = 9223372036854775809;
    let mut acc: u128 = 0;
    let mut i: usize = first;
    let ghost digits = s@.subrange(first as int, s@.len() as int);
    assert(digits.subrange(0, 0) =~= Seq::<char>::empty());
    while i < s.len()
        invariant
            first <= i <= s@.len(),
            digits == s@.subrange(first as int, s@.len() as int),
            all_digits(digits),
            acc == (if digits_value(digits.subrange(0, i - first)) < cap { digits_value(digits.subrange(0, i - first)) } else { cap as nat }),
            cap == 9223372036854775809,
        decreases s@.len() - i,
    {
        let ghost pre = digits.subrange(0, i - first);
        let ghost next = digits.subrange(0, i - first + 1);
        assert(next.drop_last() =~= pre);
        assert(next.last() == s@[i as int]);
        assert(is_digit(digits[i - first]));
        let d = (s[i] as u32 - '0' as u32) as u128;
        let grown = acc * 10 + d;
        acc = if grown < cap { grown } else { cap };
        i = i + 1;
    }
    assert(digits.subrange(0, s@.len() - first) =~= digits);
    if negative {
        assert(s@.drop_first() =~= digits);
        if acc <= 9223372036854775808 {
            Some((0 - (acc as i128)) as i64)
        } else {
            None
        }
    } else {
        assert(s@ =~= digits);
        if acc <= 9223372036854775807 {
            Some(acc as i64)
        } else {
            None
        }
    }
}

/// A recursive-descent parser, one method per production of the grammar.
pub struct Parser {}

impl Parser {
    pub fn new() -> (r: Parser) {
        Parser {}
    }

    /// `value := object | array | immediate | string | number`, after whitespace.
    #[verifier::spinoff_prover]
    #[verifier::rlimit(100)]
    pub fn parse_value(&self, lexer: &mut Lexer) -> (r: Result<Value, ParseError>)
        requires
            old(lexer).wf(),
        ensures
            final(lexer).wf(),
            final(lexer).rows() == old(lexer).rows(),
            0 <= final(lexer).remaining() <= old(lexer).remaining(),
            r matches Ok(v) ==> valid(v) && final(lexer).remaining() < old(lexer).remaining(),
            ({
                let s = seen(old(lexer).rows(), old(lexer).current(), true);
                match s {
                    None => r == Err::<Value, ParseError>(
                        ParseError::UnexpectedEof { expected: Expected::Value, pos: eof_pos(old(lexer).rows()) },
                    ),
                    Some((p, c)) => {
                        &&& value_start_of(c) is None ==> r == Err::<Value, ParseError>(
                            ParseError::Tokenize { found: c, pos: p },
                        )
                        &&& r matches Ok(v) ==> match value_start_of(c) {
                            Some(JsonToken::LeftBrace) => v is Object,
                            Some(JsonToken::LeftBracket) => v is Array,
                            Some(JsonToken::Quotation) => v is String,
                            Some(JsonToken::Immediate(t)) => v == immediate_value(t),
                            Some(JsonToken::Number(_)) => v is Integer || v is Float,
                            None => false,
                        }
                    },
                }
            }),
            forall|v: Value, ind: Seq<char>, p: bool, lead: int|
                valid(v) && #[trigger] printed_in(text_from(old(lexer).rows(), old(lexer).current()), v, ind, p, lead)
                    ==> (r matches Ok(w) && same_value(w, v) && old(lexer).remaining() - final(lexer).remaining() == lead
                    + render(v, ind, p).len()),
            forall|v: Value, ind: Seq<char>, p: bool, lead: int|
                (v is Object || v is Array) && #[trigger] trail_in(
                    text_from(old(lexer).rows(), old(lexer).current()),
                    v,
                    ind,
                    p,
                    lead,
                ) && comma_tail(text_from(old(lexer).rows(), old(lexer).current()), v, ind, p, lead) ==> (r matches Err(e) && e matches ParseError::TrailingComma { pos } && exists|c: Option<(Position, char)>|
                    cursor_ok(old(lexer).rows(), c) && rem(old(lexer).rows(), c) == old(lexer).remaining() - (lead
                    + render(v, ind, p).len() - end_gap(ind, p).len() - 1) && pos == cur_pos(old(lexer).rows(), c)),
            ({
                let s = seen(old(lexer).rows(), old(lexer).current(), true);
                let t1 = text_from(old(lexer).rows(), s);
                number_start(s) ==> match numeral_len(t1) {
                    Some(n) => (float_mark(t1, int_end(t1)) || i64::MIN <= numeral_value(t1.subrange(0, n as int))
                        <= i64::MAX) ==> (r is Ok && final(lexer).remaining() == rem(old(lexer).rows(), s) - n),
                    None => r is Err,
                }
            }),
        decreases old(lexer).remaining(), 2int,
    {
        let ghost rows = lexer.rows();
        let ghost cur0 = lexer.current();
        let ghost t = text_from(rows, cur0);
        let ghost r0 = lexer.remaining();
        proof {
            lemma_text_from(rows, cur0);
        }
        match lexer.skip_whitespace() {
            None => {
                proof {
                    assert forall|v: Value, ind: Seq<char>, p: bool, lead: int|
                        (v is Object || v is Array) && #[trigger] trail_in(t, v, ind, p, lead) implies false by {
                        lemma_container_start(t, v, ind, p, lead, true, rows, cur0);
                    }
                    assert forall|v: Value, ind: Seq<char>, p: bool, lead: int|
                        valid(v) && #[trigger] printed_in(t, v, ind, p, lead) implies false by {
                        lemma_value_start(t, v, ind, p, lead, rows, cur0);
                    }
                }
                Err(ParseError::UnexpectedEof { expected: Expected::Value, pos: lexer.eof() })
            },
            Some((pp, c)) => {
                let ghost cur1 = lexer.current();
                let ghost t1 = text_from(rows, cur1);
                match JsonToken::lookahead(c) {
                    Ok(JsonToken::LeftBrace) => {
                        let r = self.parse_object(lexer);
                        proof {
                            assert forall|v: Value, ind: Seq<char>, p: bool, lead: int|
                                (v is Object || v is Array) && #[trigger] trail_in(t, v, ind, p, lead) && comma_tail(t, v, ind, p, lead) implies (r matches Err(e)
                                && e matches ParseError::TrailingComma { pos } && exists|cc: Option<(Position, char)>|
                                cursor_ok(rows, cc) && rem(rows, cc) == r0 - (lead + render(v, ind, p).len() - end_gap(ind, p).len()
                                - 1) && pos == cur_pos(rows, cc)) by {
                                lemma_container_start(t, v, ind, p, lead, true, rows, cur0);
                                lemma_trail_shift(t, v, ind, p, lead);
                            }
                            assert forall|v: Value, ind: Seq<char>, p: bool, lead: int|
                                valid(v) && #[trigger] printed_in(t, v, ind, p, lead) implies (r matches Ok(w)
                                && same_value(w, v) && r0 - lexer.remaining() == lead + render(v, ind, p).len()) by {
                                lemma_value_start(t, v, ind, p, lead, rows, cur0);
                                lemma_first_char(v);
                                assert(shaped(t1, v, ind, p, 0, false));
                            }
                        }
                        r
                    },
                    Ok(JsonToken::LeftBracket) => {
                        let r = self.parse_array(lexer);
                        proof {
                            assert forall|v: Value, ind: Seq<char>, p: bool, lead: int|
                                (v is Object || v is Array) && #[trigger] trail_in(t, v, ind, p, lead) && comma_tail(t, v, ind, p, lead) implies (r matches Err(e)
                                && e matches ParseError::TrailingComma { pos } && exists|cc: Option<(Position, char)>|
                                cursor_ok(rows, cc) && rem(rows, cc) == r0 - (lead + render(v, ind, p).len() - end_gap(ind, p).len()
                                - 1) && pos == cur_pos(rows, cc)) by {
                                lemma_container_start(t, v, ind, p, lead, true, rows, cur0);
                                lemma_trail_shift(t, v, ind, p, lead);
                            }
                            assert forall|v: Value, ind: Seq<char>, p: bool, lead: int|
                                valid(v) && #[trigger] printed_in(t, v, ind, p, lead) implies (r matches Ok(w)
                                && same_value(w, v) && r0 - lexer.remaining() == lead + render(v, ind, p).len()) by {
                                lemma_value_start(t, v, ind, p, lead, rows, cur0);
                                lemma_first_char(v);
                                assert(shaped(t1, v, ind, p, 0, false));
                            }
                        }
                        r
                    },
                    Ok(JsonToken::Immediate(_)) => {
                        let r = self.parse_immediate(lexer);
                        proof {
                            assert forall|v: Value, ind: Seq<char>, p: bool, lead: int|
                                (v is Object || v is Array) && #[trigger] trail_in(t, v, ind, p, lead) implies false by {
                                lemma_container_start(t, v, ind, p, lead, true, rows, cur0);
                            }
                            assert forall|v: Value, ind: Seq<char>, p: bool, lead: int|
                                valid(v) && #[trigger] printed_in(t, v, ind, p, lead) implies (r matches Ok(w)
                                && same_value(w, v) && r0 - lexer.remaining() == lead + render(v, ind, p).len()) by {
                                lemma_value_start(t, v, ind, p, lead, rows, cur0);
                                lemma_first_char(v);
                                let n = compact(v).len();
                                assert(t1.subrange(0, n as int) == compact(v));
                            }
                        }
                        r
                    },
                    Ok(JsonToken::Quotation) => {
                        let r = self.parse_string(lexer);
                        proof {
                            assert forall|v: Value, ind: Seq<char>, p: bool, lead: int|
                                (v is Object || v is Array) && #[trigger] trail_in(t, v, ind, p, lead) implies false by {
                                lemma_container_start(t, v, ind, p, lead, true, rows, cur0);
                            }
                            assert forall|v: Value, ind: Seq<char>, p: bool, lead: int|
                                valid(v) && #[trigger] printed_in(t, v, ind, p, lead) implies (r matches Ok(w)
                                && same_value(w, v) && r0 - lexer.remaining() == lead + render(v, ind, p).len()) by {
                                lemma_value_start(t, v, ind, p, lead, rows, cur0);
                                lemma_first_char(v);
                                if let Value::String(sv) = v {
                                    let q = compact(v);
                                    let rest = t1.subrange(q.len() as int, t1.len() as int);
                                    assert(t1 =~= q + rest);
                                    assert(t1.drop_first() =~= escaped(sv@) + seq!['"'] + rest);
                                    lemma_decode_quoted(sv@, rest);
                                }
                            }
                        }
                        r
                    },
                    Ok(JsonToken::Number(_)) => {
                        let r = self.parse_number(lexer);
                        proof {
                            assert(cur1 == seen(rows, cur0, true));
                            assert(number_start(cur1));
                            assert forall|v: Value, ind: Seq<char>, p: bool, lead: int|
                                (v is Object || v is Array) && #[trigger] trail_in(t, v, ind, p, lead) implies false by {
                                lemma_container_start(t, v, ind, p, lead, true, rows, cur0);
                            }
                            assert forall|v: Value, ind: Seq<char>, p: bool, lead: int|
                                valid(v) && #[trigger] printed_in(t, v, ind, p, lead) implies (r matches Ok(w)
                                && same_value(w, v) && r0 - lexer.remaining() == lead + render(v, ind, p).len()) by {
                                lemma_value_start(t, v, ind, p, lead, rows, cur0);
                                lemma_first_char(v);
                                let x = compact(v);
                                let rest = t1.subrange(x.len() as int, t1.len() as int);
                                assert(t1 =~= x + rest);
                                match v {
                                    Value::Integer(i) => {
                                        lemma_int_numeral(i as int, rest);
                                        assert(t1.subrange(0, x.len() as int) == x);
                                    },
                                    Value::Float(f) => {
                                        lemma_float_numeral(f@, rest);
                                        assert(t1.subrange(0, x.len() as int) == x);
                                    },
                                    _ => {},
                                }
                            }
                        }
                        r
                    },
                    Err(_) => {
                        proof {
                            assert forall|v: Value, ind: Seq<char>, p: bool, lead: int|
                                (v is Object || v is Array) && #[trigger] trail_in(t, v, ind, p, lead) implies false by {
                                lemma_container_start(t, v, ind, p, lead, true, rows, cur0);
                            }
                            assert forall|v: Value, ind: Seq<char>, p: bool, lead: int|
                                valid(v) && #[trigger] printed_in(t, v, ind, p, lead) implies false by {
                                lemma_value_start(t, v, ind, p, lead, rows, cur0);
                                lemma_first_char(v);
                            }
                        }
                        Err(ParseError::Tokenize { found: c, pos: pp })
                    },
                }
            },
        }
    }

    /// `object := "{" [ member { "," member } ] "}"`, `member := string ":" value`.
    /// A later member with the key of an earlier one replaces its value in place.
    /// After a member only `,` or `}` may follow: a comma right before `}` is a
    /// trailing-comma error at the comma, and anything else ends the members and
    /// then fails for want of `}`.
    #[verifier::spinoff_prover]
    #[verifier::rlimit(100)]
    pub fn parse_object(&self, lexer: &mut Lexer) -> (r: Result<Value, ParseError>)
        requires
            old(lexer).wf(),
        ensures
            final(lexer).wf(),
            final(lexer).rows() == old(lexer).rows(),
            0 <= final(lexer).remaining() <= old(lexer).remaining(),
            r matches Ok(v) ==> valid(v) && v is Object && final(lexer).remaining() < old(lexer).remaining(),
            forall|v: Value, ind: Seq<char>, p: bool, lead: int|
                v is Object && valid(v) && #[trigger] shaped(
                    text_from(old(lexer).rows(), old(lexer).current()),
                    v,
                    ind,
                    p,
                    lead,
                    false,
                ) ==> (r matches Ok(w) && same_value(w, v) && old(lexer).remaining() - final(lexer).remaining() == lead
                    + render(v, ind, p).len()),
            forall|v: Value, ind: Seq<char>, p: bool, lead: int|
                v is Object && valid(v) && #[trigger] shaped(
                    text_from(old(lexer).rows(), old(lexer).current()),
                    v,
                    ind,
                    p,
                    lead,
                    true,
                ) && comma_tail(text_from(old(lexer).rows(), old(lexer).current()), v, ind, p, lead) ==> (r matches Err(e) && e matches ParseError::TrailingComma { pos } && exists|c: Option<(Position, char)>|
                    cursor_ok(old(lexer).rows(), c) && rem(old(lexer).rows(), c) == old(lexer).remaining() - (lead
                    + render(v, ind, p).len() - end_gap(ind, p).len() - 1) && pos == cur_pos(old(lexer).rows(), c)),
            forall|v: Value, ind: Seq<char>, p: bool, lead: int|
                #![trigger loose(v), shaped(text_from(old(lexer).rows(), old(lexer).current()), v, ind, p, lead, false)]
                v is Object && loose(v) && shaped(text_from(old(lexer).rows(), old(lexer).current()), v, ind, p, lead, false)
                    ==> reads_merged(r, v, old(lexer).remaining() - final(lexer).remaining() - lead - render(
                    v,
                    ind,
                    p,
                ).len()),
            forall|v: Value, ind: Seq<char>, p: bool, lead: int|
                v is Object && valid(v) && #[trigger] shaped(text_from(old(lexer).rows(), old(lexer).current()), v, ind, p, lead, true) && !comma_tail(
                    text_from(old(lexer).rows(), old(lexer).current()),
                    v,
                    ind,
                    p,
                    lead,
                ) ==> (r matches Err(e) && e matches ParseError::UnexpectedToken { expected, found, pos } && expected
                    == Expected::Token(MainToken::RightBrace) && found == text_from(old(lexer).rows(), old(lexer).current())[tail_at(v, ind, p, lead) + ws_len(
                    text_from(old(lexer).rows(), old(lexer).current()).subrange(tail_at(v, ind, p, lead), old(lexer).remaining()),
                )] && exists|c: Option<(Position, char)>|
                    cursor_ok(old(lexer).rows(), c) && rem(old(lexer).rows(), c) == old(lexer).remaining() - (tail_at(
                        v,
                        ind,
                        p,
                        lead,
                    ) + ws_len(text_from(old(lexer).rows(), old(lexer).current()).subrange(tail_at(v, ind, p, lead), old(lexer).remaining()))) && pos == cur_pos(
                        old(lexer).rows(),
                        c,
                    )),
        decreases old(lexer).remaining(), 1int,
    {
        let ghost rows = lexer.rows();
        let ghost cur0 = lexer.current();
        let ghost t = text_from(rows, cur0);
        let ghost r0 = lexer.remaining();
        proof {
            lemma_text_from(rows, cur0);
        }
        let mut object: Vec<(String, Value)> = Vec::new();
        let ghost mut kk: int = 0;
        match lexer.lex_1_char(ObjectToken::LeftBrace.main(), true) {
            Ok(_) => {},
            Err(e) => {
                proof {
                    assert forall|v: Value, ind: Seq<char>, p: bool, lead: int, trail: bool|
                        v is Object && loose(v) && #[trigger] shaped(t, v, ind, p, lead, trail) implies false by {
                        lemma_container_start(t, v, ind, p, lead, trail, rows, cur0);
                    }
                }
                return Err(e);
            },
        }
        proof {
            assert forall|v: Value, ind: Seq<char>, p: bool, lead: int, trail: bool|
                v is Object && loose(v) && #[trigger] shaped(t, v, ind, p, lead, trail) implies obj_head(
                v,
                ind,
                p,
                lead,
                object@,
                r0 - lexer.remaining(),
                0,
            ) by {
                lemma_container_start(t, v, ind, p, lead, trail, rows, cur0);
                lemma_step(rows, skip_ws_from(rows, cur0));
            }
        }
        loop
            invariant_except_break
                forall|v: Value, ind: Seq<char>, p: bool, lead: int, trail: bool|
                    v is Object && loose(v) && #[trigger] shaped(t, v, ind, p, lead, trail) ==> obj_head(
                        v,
                        ind,
                        p,
                        lead,
                        object@,
                        r0 - lexer.remaining(),
                        kk,
                    ),
            invariant
                lexer.wf(),
                lexer.rows() == rows,
                rows == old(lexer).rows(),
                cur0 == old(lexer).current(),
                t == text_from(rows, cur0),
                r0 == old(lexer).remaining(),
                cursor_ok(rows, cur0),
                0 <= lexer.remaining() < r0,
                keys_unique(object@),
                forall|i: int| 0 <= i < object@.len() ==> valid((#[trigger] object@[i]).1),
                0 <= kk,
            ensures
                lexer.wf(),
                lexer.rows() == rows,
                0 <= lexer.remaining() < r0,
                keys_unique(object@),
                forall|i: int| 0 <= i < object@.len() ==> valid((#[trigger] object@[i]).1),
                forall|v: Value, ind: Seq<char>, p: bool, lead: int, trail: bool|
                    v is Object && loose(v) && #[trigger] shaped(t, v, ind, p, lead, trail) ==> (if trail { cut_stop(t, v, ind, p, lead, r0 - lexer.remaining()) } else { obj_done(v, ind, p, lead, object@, r0 - lexer.remaining()) }),
            decreases lexer.remaining(),
        {
            let ghost c1 = lexer.current();
            let ghost k = kk;
            proof {
                lemma_text_advance(rows, cur0, c1);
                lemma_text_from(rows, c1);
            }
            if lexer.is_next(ObjectToken::RightBrace.main(), true) {
                proof {
                    assert forall|v: Value, ind: Seq<char>, p: bool, lead: int, trail: bool|
                        v is Object && loose(v) && #[trigger] shaped(t, v, ind, p, lead, trail) implies (if trail { cut_stop(t, v, ind, p, lead, r0 - lexer.remaining()) } else { obj_done(v, ind, p, lead, object@, r0 - lexer.remaining()) }) by {
                        lemma_at_head(t, v, ind, p, lead, trail, k, r0 - rem(rows, c1), rows, c1);
                    }
                }
                break;
            }
            let ghost c2 = lexer.current();
            if !lexer.is_next(MainToken::Quotation, true) {
                proof {
                    assert forall|v: Value, ind: Seq<char>, p: bool, lead: int, trail: bool|
                        v is Object && loose(v) && #[trigger] shaped(t, v, ind, p, lead, trail) implies (if trail { cut_stop(t, v, ind, p, lead, r0 - lexer.remaining()) } else { obj_done(v, ind, p, lead, object@, r0 - lexer.remaining()) }) by {
                        lemma_at_head(t, v, ind, p, lead, trail, k, r0 - rem(rows, c1), rows, c1);
                    }
                }
                break;
            }
            proof {
                lemma_text_advance(rows, cur0, c2);
                lemma_text_from(rows, c2);
                assert forall|v: Value, ind: Seq<char>, p: bool, lead: int, trail: bool|
                    v is Object && loose(v) && #[trigger] shaped(t, v, ind, p, lead, trail) implies ({
                        let es = v->Object_0@;
                        let tc = text_from(rows, c2);
                        &&& k < es.len()
                        &&& rem(rows, c2) == t.len() - (head_at(v, ind, p, lead, k) + gap(ind, p).len())
                        &&& tc.len() > 0 && tc[0] == '"'
                        &&& decode_body(tc.drop_first()) == Some((es[k].0@, escaped(es[k].0@).len() + 1))
                    }) by {
                    lemma_at_head(t, v, ind, p, lead, trail, k, r0 - rem(rows, c1), rows, c1);
                    let es = v->Object_0@;
                    let tc = text_from(rows, c2);
                    let q = quoted(es[k].0@);
                    let pc = piece(v, ind, p, k);
                    let h = head_at(v, ind, p, lead, k) + gap(ind, p).len();
                    let rest = pc.subrange(q.len() as int, pc.len() as int) + t.subrange(h + pc.len(), t.len() as int);
                    assert(pc =~= q + pc.subrange(q.len() as int, pc.len() as int));
                    assert(tc =~= q + rest);
                    assert(tc.drop_first() =~= escaped(es[k].0@) + seq!['"'] + rest);
                    lemma_decode_quoted(es[k].0@, rest);
                }
            }
            let key = match self.parse_string_content(lexer) {
                Ok(key) => key,
                Err(e) => {
                    return Err(e);
                },
            };
            let ghost c3 = lexer.current();
            proof {
                lemma_text_advance(rows, cur0, c3);
            }
            match lexer.lex_1_char(ObjectToken::Colon.main(), true) {
                Ok(_) => {},
                Err(e) => {
                    proof {
                        assert forall|v: Value, ind: Seq<char>, p: bool, lead: int, trail: bool|
                            v is Object && loose(v) && #[trigger] shaped(t, v, ind, p, lead, trail) implies false by {
                            lemma_after_key(t, v, ind, p, lead, trail, k, rows, c3);
                        }
                    }
                    return Err(e);
                },
            }
            let ghost c4 = lexer.current();
            proof {
                lemma_text_advance(rows, cur0, c4);
                assert forall|v: Value, ind: Seq<char>, p: bool, lead: int, trail: bool|
                    v is Object && loose(v) && #[trigger] shaped(t, v, ind, p, lead, trail) implies rem(rows, c4) == t.len()
                    - (head_at(v, ind, p, lead, k) + gap(ind, p).len() + quoted(v->Object_0@[k].0@).len() + 1) by {
                    lemma_after_key(t, v, ind, p, lead, trail, k, rows, c3);
                }
            }
            let value = match self.parse_value(lexer) {
                Ok(value) => value,
                Err(e) => {
                    proof {
                        assert forall|v: Value, ind: Seq<char>, p: bool, lead: int, trail: bool|
                            v is Object && loose(v) && #[trigger] shaped(t, v, ind, p, lead, trail) implies false by {
                            lemma_child_value(t, v, ind, p, lead, trail, k, rows, c4);
                        }
                    }
                    return Err(e);
                },
            };
            let ghost c5 = lexer.current();
            let ghost before = object@;
            proof {
                lemma_text_advance(rows, cur0, c5);
                assert forall|v: Value, ind: Seq<char>, p: bool, lead: int, trail: bool|
                    v is Object && loose(v) && #[trigger] shaped(t, v, ind, p, lead, trail) implies (rem(rows, c5) == t.len()
                    - (head_at(v, ind, p, lead, k) + gap(ind, p).len() + piece(v, ind, p, k).len()) && same_value(
                    value,
                    v->Object_0@[k].1,
                ) && key@ == v->Object_0@[k].0@) by {
                    lemma_child_value(t, v, ind, p, lead, trail, k, rows, c4);
                }
            }
            let ghost key_g = key;
            let ghost value_g = value;
            insert_member(&mut object, key, value);
            proof {
                assert forall|v: Value, ind: Seq<char>, p: bool, lead: int, trail: bool|
                    v is Object && loose(v) && #[trigger] shaped(t, v, ind, p, lead, trail) implies entries_like(
                    object@,
                    merge_entries(v->Object_0@, k + 1),
                ) by {
                    lemma_members_insert(v->Object_0@, k, before, object@, key_g, value_g);
                }
            }
            match lexer.lex_1_char(ObjectToken::Comma.main(), true) {
                Ok((pp, _)) => {
                    let ghost c6 = lexer.current();
                    proof {
                        lemma_text_advance(rows, cur0, c6);
                        lemma_text_from(rows, c6);
                    }
                    if lexer.is_next(ObjectToken::RightBrace.main(), true) {
                        proof {
                            assert forall|v: Value, ind: Seq<char>, p: bool, lead: int, trail: bool|
                                v is Object && loose(v) && #[trigger] shaped(t, v, ind, p, lead, trail) implies (trail && comma_tail(t, v, ind, p, lead) && k + 1
                                == arity(v) && rem(rows, c5) == r0 - (lead + render(v, ind, p).len() - end_gap(ind, p).len()
                                - 1) && seen(rows, c5, true) == c5) by {
                                lemma_after_child(t, v, ind, p, lead, trail, k, rows, c5);
                                if k + 1 < arity(v) {
                                    lemma_at_head(t, v, ind, p, lead, trail, k + 1, r0 - rem(rows, c6), rows, c6);
                                } else if !trail {
                                } else {
                                    lemma_layout_in(t, v, ind, p, lead, trail, k);
                                }
                            }
                            assert forall|v: Value, ind: Seq<char>, p: bool, lead: int|
                                v is Object && loose(v) && #[trigger] shaped(t, v, ind, p, lead, true) && comma_tail(t, v, ind, p, lead) implies exists|
                                c: Option<(Position, char)>,
                            |
                                cursor_ok(rows, c) && rem(rows, c) == r0 - (lead + render(v, ind, p).len() - end_gap(
                                    ind,
                                    p,
                                ).len() - 1) && pp == cur_pos(rows, c) by {
                                assert(cursor_ok(rows, c5) && pp == cur_pos(rows, c5));
                            }
                        }
                        return Err(ParseError::TrailingComma { pos: pp });
                    }
                    proof {
                        assert forall|v: Value, ind: Seq<char>, p: bool, lead: int, trail: bool|
                            v is Object && loose(v) && #[trigger] shaped(t, v, ind, p, lead, trail) implies obj_head(
                            v,
                            ind,
                            p,
                            lead,
                            object@,
                            r0 - lexer.remaining(),
                            kk + 1,
                        ) by {
                            lemma_after_child(t, v, ind, p, lead, trail, k, rows, c5);
                            if trail && k + 1 == arity(v) {
                                if comma_tail(t, v, ind, p, lead) {
                                    lemma_after_trail(t, v, ind, p, lead, rows, c6);
                                }
                            } else {
                                lemma_at_head(t, v, ind, p, lead, trail, k + 1, r0 - rem(rows, c6), rows, c6);
                            }
                        }
                        kk = kk + 1;
                    }
                },
                Err(_) => {
                    proof {
                        assert forall|v: Value, ind: Seq<char>, p: bool, lead: int, trail: bool|
                            v is Object && loose(v) && #[trigger] shaped(t, v, ind, p, lead, trail) implies (if trail { cut_stop(t, v, ind, p, lead, r0 - lexer.remaining()) } else { obj_done(v, ind, p, lead, object@, r0 - lexer.remaining()) }) by {
                            lemma_after_child(t, v, ind, p, lead, trail, k, rows, c5);
                        }
                    }
                    break;
                },
            }
        }
        let ghost c7 = lexer.current();
        proof {
            lemma_text_advance(rows, cur0, c7);
        }
        match lexer.lex_1_char(ObjectToken::RightBrace.main(), true) {
            Ok(_) => {},
            Err(e) => {
                proof {
                    assert forall|v: Value, ind: Seq<char>, p: bool, lead: int, trail: bool|
                        v is Object && loose(v) && #[trigger] shaped(t, v, ind, p, lead, trail) implies (trail && cursor_ok(rows, c7)
                        && seen(rows, c7, true) == c7 && cur_char(c7) == t[r0 - rem(rows, c7)]) by {
                        if !trail {
                            lemma_at_close(t, v, ind, p, lead, r0 - rem(rows, c7), rows, c7);
                        } else {
                            lemma_cut_stop(t, v, ind, p, lead, r0 - rem(rows, c7), rows, c7);
                        }
                    }
                    assert forall|v: Value, ind: Seq<char>, p: bool, lead: int|
                        v is Object && valid(v) && #[trigger] shaped(t, v, ind, p, lead, true) && !comma_tail(t, v, ind, p, lead)
                            implies exists|c: Option<(Position, char)>|
                        cursor_ok(rows, c) && rem(rows, c) == r0 - (tail_at(v, ind, p, lead) + ws_len(
                            t.subrange(tail_at(v, ind, p, lead), r0),
                        )) && cur_pos(rows, c7) == cur_pos(rows, c) by {
                        assert(shaped(t, v, ind, p, lead, true));
                    }
                }
                return Err(e);
            },
        }
        let r = Value::Object(object);
        proof {
            assert forall|v: Value, ind: Seq<char>, p: bool, lead: int|
                v is Object && valid(v) && #[trigger] shaped(t, v, ind, p, lead, true) implies false by {
                lemma_cut_stop(t, v, ind, p, lead, r0 - rem(rows, c7), rows, c7);
            }
            reveal(reads_merged);
            assert forall|v: Value, ind: Seq<char>, p: bool, lead: int, trail: bool|
                v is Object && loose(v) && #[trigger] shaped(t, v, ind, p, lead, trail) implies (entries_like(
                object@,
                merge_entries(v->Object_0@, arity(v) as int),
            ) && r0 - lexer.remaining() == lead + render(v, ind, p).len() && (valid(v) ==> same_value(r, v))) by {
                if trail {
                    lemma_cut_stop(t, v, ind, p, lead, r0 - rem(rows, c7), rows, c7);
                }
                if !trail {
                    lemma_at_close(t, v, ind, p, lead, r0 - rem(rows, c7), rows, c7);
                    if valid(v) {
                        lemma_merge_unique(v->Object_0@, arity(v) as int);
                    }
                }
            }
        }
        Ok(r)
    }

    /// `array := "[" [ value { "," value } ] "]"`. After an element only `,` or
    /// `]` may follow: a comma right before `]` is a trailing-comma error at the
    /// comma, and anything else ends the elements and then fails for want of `]`.
    #[verifier::spinoff_prover]
    #[verifier::rlimit(100)]
    pub fn parse_array(&self, lexer: &mut Lexer) -> (r: Result<Value, ParseError>)
        requires
            old(lexer).wf(),
        ensures
            final(lexer).wf(),
            final(lexer).rows() == old(lexer).rows(),
            0 <= final(lexer).remaining() <= old(lexer).remaining(),
            r matches Ok(v) ==> valid(v) && v is Array && final(lexer).remaining() < old(lexer).remaining(),
            forall|v: Value, ind: Seq<char>, p: bool, lead: int|
                v is Array && valid(v) && #[trigger] shaped(
                    text_from(old(lexer).rows(), old(lexer).current()),
                    v,
                    ind,
                    p,
                    lead,
                    false,
                ) ==> (r matches Ok(w) && same_value(w, v) && old(lexer).remaining() - final(lexer).remaining() == lead
                    + render(v, ind, p).len()),
            forall|v: Value, ind: Seq<char>, p: bool, lead: int|
                v is Array && valid(v) && #[trigger] shaped(
                    text_from(old(lexer).rows(), old(lexer).current()),
                    v,
                    ind,
                    p,
                    lead,
                    true,
                ) && comma_tail(text_from(old(lexer).rows(), old(lexer).current()), v, ind, p, lead) ==> (r matches Err(e) && e matches ParseError::TrailingComma { pos } && exists|c: Option<(Position, char)>|
                    cursor_ok(old(lexer).rows(), c) && rem(old(lexer).rows(), c) == old(lexer).remaining() - (lead
                    + render(v, ind, p).len() - end_gap(ind, p).len() - 1) && pos == cur_pos(old(lexer).rows(), c)),
            forall|v: Value, ind: Seq<char>, p: bool, lead: int|
                v is Array && valid(v) && #[trigger] shaped(text_from(old(lexer).rows(), old(lexer).current()), v, ind, p, lead, true) && !comma_tail(
                    text_from(old(lexer).rows(), old(lexer).current()),
                    v,
                    ind,
                    p,
                    lead,
                ) ==> (r matches Err(e) && e matches ParseError::UnexpectedToken { expected, found, pos } && expected
                    == Expected::Token(MainToken::RightBracket) && found == text_from(old(lexer).rows(), old(lexer).current())[tail_at(v, ind, p, lead) + ws_len(
                    text_from(old(lexer).rows(), old(lexer).current()).subrange(tail_at(v, ind, p, lead), old(lexer).remaining()),
                )] && exists|c: Option<(Position, char)>|
                    cursor_ok(old(lexer).rows(), c) && rem(old(lexer).rows(), c) == old(lexer).remaining() - (tail_at(
                        v,
                        ind,
                        p,
                        lead,
                    ) + ws_len(text_from(old(lexer).rows(), old(lexer).current()).subrange(tail_at(v, ind, p, lead), old(lexer).remaining()))) && pos == cur_pos(
                        old(lexer).rows(),
                        c,
                    )),
        decreases old(lexer).remaining(), 1int,
    {
        let ghost rows = lexer.rows();
        let ghost cur0 = lexer.current();
        let ghost t = text_from(rows, cur0);
        let ghost r0 = lexer.remaining();
        proof {
            lemma_text_from(rows, cur0);
        }
        let mut array: Vec<Value> = Vec::new();
        match lexer.lex_1_char(ArrayToken::LeftBracket.main(), true) {
            Ok(_) => {},
            Err(e) => {
                proof {
                    assert forall|v: Value, ind: Seq<char>, p: bool, lead: int, trail: bool|
                        v is Array && valid(v) && #[trigger] shaped(t, v, ind, p, lead, trail) implies false by {
                        lemma_container_start(t, v, ind, p, lead, trail, rows, cur0);
                    }
                }
                return Err(e);
            },
        }
        proof {
            assert forall|v: Value, ind: Seq<char>, p: bool, lead: int, trail: bool|
                v is Array && valid(v) && #[trigger] shaped(t, v, ind, p, lead, trail) implies arr_head(
                v,
                ind,
                p,
                lead,
                array@,
                r0 - lexer.remaining(),
            ) by {
                lemma_container_start(t, v, ind, p, lead, trail, rows, cur0);
                lemma_step(rows, skip_ws_from(rows, cur0));
            }
        }
        loop
            invariant_except_break
                forall|v: Value, ind: Seq<char>, p: bool, lead: int, trail: bool|
                    v is Array && valid(v) && #[trigger] shaped(t, v, ind, p, lead, trail) ==> arr_head(
                        v,
                        ind,
                        p,
                        lead,
                        array@,
                        r0 - lexer.remaining(),
                    ),
            invariant
                lexer.wf(),
                lexer.rows() == rows,
                rows == old(lexer).rows(),
                cur0 == old(lexer).current(),
                t == text_from(rows, cur0),
                r0 == old(lexer).remaining(),
                cursor_ok(rows, cur0),
                0 <= lexer.remaining() < r0,
                forall|i: int| 0 <= i < array@.len() ==> valid(#[trigger] array@[i]),
            ensures
                lexer.wf(),
                lexer.rows() == rows,
                0 <= lexer.remaining() < r0,
                forall|i: int| 0 <= i < array@.len() ==> valid(#[trigger] array@[i]),
                forall|v: Value, ind: Seq<char>, p: bool, lead: int, trail: bool|
                    v is Array && valid(v) && #[trigger] shaped(t, v, ind, p, lead, trail) ==> (if trail { cut_stop(t, v, ind, p, lead, r0 - lexer.remaining()) } else { arr_done(v, ind, p, lead, array@, r0 - lexer.remaining()) }),
            decreases lexer.remaining(),
        {
            let ghost c1 = lexer.current();
            let ghost k = array@.len() as int;
            proof {
                lemma_text_advance(rows, cur0, c1);
                lemma_text_from(rows, c1);
            }
            if lexer.is_next(ArrayToken::RightBracket.main(), true) {
                proof {
                    assert forall|v: Value, ind: Seq<char>, p: bool, lead: int, trail: bool|
                        v is Array && valid(v) && #[trigger] shaped(t, v, ind, p, lead, trail) implies (if trail { cut_stop(t, v, ind, p, lead, r0 - lexer.remaining()) } else { arr_done(v, ind, p, lead, array@, r0 - lexer.remaining()) }) by {
                        lemma_at_head(t, v, ind, p, lead, trail, k, r0 - rem(rows, c1), rows, c1);
                    }
                }
                break;
            }
            let ghost c2 = lexer.current();
            proof {
                lemma_text_advance(rows, cur0, c2);
                assert forall|v: Value, ind: Seq<char>, p: bool, lead: int, trail: bool|
                    v is Array && valid(v) && #[trigger] shaped(t, v, ind, p, lead, trail) implies (k < v->Array_0@.len()
                    && rem(rows, c2) == t.len() - (head_at(v, ind, p, lead, k) + gap(ind, p).len())) by {
                    lemma_at_head(t, v, ind, p, lead, trail, k, r0 - rem(rows, c1), rows, c1);
                }
            }
            let value = match self.parse_value(lexer) {
                Ok(value) => value,
                Err(e) => {
                    proof {
                        assert forall|v: Value, ind: Seq<char>, p: bool, lead: int, trail: bool|
                            v is Array && valid(v) && #[trigger] shaped(t, v, ind, p, lead, trail) implies false by {
                            lemma_child_value(t, v, ind, p, lead, trail, k, rows, c2);
                        }
                    }
                    return Err(e);
                },
            };
            let ghost c5 = lexer.current();
            let ghost before = array@;
            proof {
                lemma_text_advance(rows, cur0, c5);
                assert forall|v: Value, ind: Seq<char>, p: bool, lead: int, trail: bool|
                    v is Array && valid(v) && #[trigger] shaped(t, v, ind, p, lead, trail) implies (rem(rows, c5) == t.len()
                    - (head_at(v, ind, p, lead, k) + gap(ind, p).len() + piece(v, ind, p, k).len()) && same_value(
                    value,
                    v->Array_0@[k],
                )) by {
                    lemma_child_value(t, v, ind, p, lead, trail, k, rows, c2);
                }
            }
            array.push(value);
            match lexer.lex_1_char(ArrayToken::Comma.main(), true) {
                Ok((pp, _)) => {
                    let ghost c6 = lexer.current();
                    proof {
                        lemma_text_advance(rows, cur0, c6);
                        lemma_text_from(rows, c6);
                    }
                    if lexer.is_next(ArrayToken::RightBracket.main(), true) {
                        proof {
                            assert forall|v: Value, ind: Seq<char>, p: bool, lead: int, trail: bool|
                                v is Array && valid(v) && #[trigger] shaped(t, v, ind, p, lead, trail) implies (trail && comma_tail(t, v, ind, p, lead) && k + 1
                                == arity(v) && rem(rows, c5) == r0 - (lead + render(v, ind, p).len() - end_gap(ind, p).len()
                                - 1) && seen(rows, c5, true) == c5) by {
                                lemma_after_child(t, v, ind, p, lead, trail, k, rows, c5);
                                if k + 1 < arity(v) {
                                    lemma_at_head(t, v, ind, p, lead, trail, k + 1, r0 - rem(rows, c6), rows, c6);
                                } else if !trail {
                                } else {
                                    lemma_layout_in(t, v, ind, p, lead, trail, k);
                                }
                            }
                            assert forall|v: Value, ind: Seq<char>, p: bool, lead: int|
                                v is Array && valid(v) && #[trigger] shaped(t, v, ind, p, lead, true) && comma_tail(t, v, ind, p, lead) implies exists|
                                c: Option<(Position, char)>,
                            |
                                cursor_ok(rows, c) && rem(rows, c) == r0 - (lead + render(v, ind, p).len() - end_gap(
                                    ind,
                                    p,
                                ).len() - 1) && pp == cur_pos(rows, c) by {
                                assert(cursor_ok(rows, c5) && pp == cur_pos(rows, c5));
                            }
                        }
                        return Err(ParseError::TrailingComma { pos: pp });
                    }
                    proof {
                        assert forall|v: Value, ind: Seq<char>, p: bool, lead: int, trail: bool|
                            v is Array && valid(v) && #[trigger] shaped(t, v, ind, p, lead, trail) implies arr_head(
                            v,
                            ind,
                            p,
                            lead,
                            array@,
                            r0 - lexer.remaining(),
                        ) by {
                            lemma_after_child(t, v, ind, p, lead, trail, k, rows, c5);
                            if trail && k + 1 == arity(v) {
                                if comma_tail(t, v, ind, p, lead) {
                                    lemma_after_trail(t, v, ind, p, lead, rows, c6);
                                }
                            } else {
                                lemma_at_head(t, v, ind, p, lead, trail, k + 1, r0 - rem(rows, c6), rows, c6);
                            }
                            lemma_elements_push(v, before, array@);
                        }
                    }
                },
                Err(_) => {
                    proof {
                        assert forall|v: Value, ind: Seq<char>, p: bool, lead: int, trail: bool|
                            v is Array && valid(v) && #[trigger] shaped(t, v, ind, p, lead, trail) implies (if trail { cut_stop(t, v, ind, p, lead, r0 - lexer.remaining()) } else { arr_done(v, ind, p, lead, array@, r0 - lexer.remaining()) }) by {
                            lemma_after_child(t, v, ind, p, lead, trail, k, rows, c5);
                            lemma_elements_push(v, before, array@);
                        }
                    }
                    break;
                },
            }
        }
        let ghost c7 = lexer.current();
        proof {
            lemma_text_advance(rows, cur0, c7);
        }
        match lexer.lex_1_char(ArrayToken::RightBracket.main(), true) {
            Ok(_) => {},
            Err(e) => {
                proof {
                    assert forall|v: Value, ind: Seq<char>, p: bool, lead: int, trail: bool|
                        v is Array && valid(v) && #[trigger] shaped(t, v, ind, p, lead, trail) implies (trail && cursor_ok(rows, c7)
                        && seen(rows, c7, true) == c7 && cur_char(c7) == t[r0 - rem(rows, c7)]) by {
                        if !trail {
                            lemma_at_close(t, v, ind, p, lead, r0 - rem(rows, c7), rows, c7);
                        } else {
                            lemma_cut_stop(t, v, ind, p, lead, r0 - rem(rows, c7), rows, c7);
                        }
                    }
                    assert forall|v: Value, ind: Seq<char>, p: bool, lead: int|
                        v is Array && valid(v) && #[trigger] shaped(t, v, ind, p, lead, true) && !comma_tail(t, v, ind, p, lead)
                            implies exists|c: Option<(Position, char)>|
                        cursor_ok(rows, c) && rem(rows, c) == r0 - (tail_at(v, ind, p, lead) + ws_len(
                            t.subrange(tail_at(v, ind, p, lead), r0),
                        )) && cur_pos(rows, c7) == cur_pos(rows, c) by {
                        assert(shaped(t, v, ind, p, lead, true));
                    }
                }
                return Err(e);
            },
        }
        let r = Value::Array(array);
        proof {
            assert forall|v: Value, ind: Seq<char>, p: bool, lead: int|
                v is Array && valid(v) && #[trigger] shaped(t, v, ind, p, lead, true) implies false by {
                lemma_cut_stop(t, v, ind, p, lead, r0 - rem(rows, c7), rows, c7);
            }
            assert forall|v: Value, ind: Seq<char>, p: bool, lead: int, trail: bool|
                v is Array && valid(v) && #[trigger] shaped(t, v, ind, p, lead, trail) implies (same_value(r, v) && r0
                - lexer.remaining() == lead + render(v, ind, p).len()) by {
                if trail {
                    lemma_cut_stop(t, v, ind, p, lead, r0 - rem(rows, c7), rows, c7);
                }
                if !trail {
                    lemma_at_close(t, v, ind, p, lead, r0 - rem(rows, c7), rows, c7);
                }
            }
        }
        Ok(r)
    }

    /// `immediate := "true" | "false" | "null"`: the first character picks the
    /// literal, which must then follow in full.
    pub fn parse_immediate(&self, lexer: &mut Lexer) -> (r: Result<Value, ParseError>)
        requires
            old(lexer).wf(),
        ensures
            final(lexer).wf(),
            final(lexer).rows() == old(lexer).rows(),
            0 <= final(lexer).remaining() <= old(lexer).remaining(),
            match old(lexer).current() {
                None => r == Err::<Value, ParseError>(
                    ParseError::UnexpectedEof { expected: Expected::Value, pos: eof_pos(old(lexer).rows()) },
                ),
                Some((p, c)) => match immediate_prefix(c) {
                    None => r == Err::<Value, ParseError>(ParseError::Tokenize { found: c, pos: p }),
                    Some(t) => {
                        let text = text_from(old(lexer).rows(), old(lexer).current());
                        let n = literal_of(t).len();
                        &&& r matches Ok(v) ==> v == immediate_value(t) && final(lexer).remaining() == old(
                            lexer,
                        ).remaining() - n
                        &&& r is Ok <==> (n <= text.len() && text.subrange(0, n as int) == literal_of(t))
                        &&& r matches Err(e) ==> e is UnexpectedLiteral
                        &&& r matches Err(ParseError::UnexpectedLiteral { expected, found, start, end }) ==> {
                            &&& expected == t
                            &&& found@.len() <= n
                            &&& found@.len() <= text.len()
                            &&& found@ == text.subrange(0, found@.len() as int)
                            &&& (n <= text.len() && (forall|i: int| 0 <= i < n ==> !is_ws(#[trigger] text[i])))
                                ==> found@.len() == n
                            &&& start == p
                            &&& end == cur_pos(final(lexer).rows(), final(lexer).current())
                        }
                    },
                },
            },
    {
        proof {
            lemma_step(lexer.rows(), lexer.current());
        }
        let (p, c) = match lexer.peek() {
            Some(pc) => pc,
            None => {
                return Err(ParseError::UnexpectedEof { expected: Expected::Value, pos: lexer.eof() });
            },
        };
        let t = match ImmediateToken::lookahead(c) {
            Ok(t) => t,
            Err(_) => {
                return Err(ParseError::Tokenize { found: c, pos: p });
            },
        };
        let lit = t.literal();
        let ghost text = text_from(lexer.rows(), lexer.current());
        proof {
            lemma_text_from(lexer.rows(), lexer.current());
            if lit@.len() <= text.len() && text.subrange(0, lit@.len() as int) == lit@ {
                assert forall|i: int| 0 <= i < lit@.len() implies !is_ws(#[trigger] text[i]) by {
                    assert(text.subrange(0, lit@.len() as int)[i] == text[i]);
                }
            }
        }
        match lexer.lex_n_chars(lit.len()) {
            Ok((s, _)) => {
                if chars_eq(&s, &lit) {
                    match t {
                        ImmediateToken::True => Ok(Value::Bool(true)),
                        ImmediateToken::False => Ok(Value::Bool(false)),
                        ImmediateToken::Null => Ok(Value::Null),
                    }
                } else {
                    Err(ParseError::UnexpectedLiteral { expected: t, found: string_of(&s), start: p, end: lexer.pos() })
                }
            },
            Err(ParseError::UnexpectedWhitespace { found, start, end }) => Err(
                ParseError::UnexpectedLiteral { expected: t, found, start, end },
            ),
            Err(ParseError::TruncatedToken { found, start, end }) => Err(
                ParseError::UnexpectedLiteral { expected: t, found, start, end },
            ),
            Err(_) => Err(ParseError::UnexpectedLiteral { expected: t, found: string_of(&Vec::new()), start: p, end: lexer.pos() }),
        }
    }

    /// `string := '"' { unescaped-char | escape-sequence } '"'`, as a value.
    pub fn parse_string(&self, lexer: &mut Lexer) -> (r: Result<Value, ParseError>)
        requires
            old(lexer).wf(),
        ensures
            final(lexer).wf(),
            final(lexer).rows() == old(lexer).rows(),
            0 <= final(lexer).remaining() <= old(lexer).remaining(),
            r matches Ok(v) ==> v is String && final(lexer).remaining() < old(lexer).remaining(),
            ({
                let t = text_from(old(lexer).rows(), old(lexer).current());
                t.len() > 0 && t[0] == '"' ==> match decode_body(t.drop_first()) {
                    Some((s, k)) => r matches Ok(v) && v matches Value::String(x) && x@ == s
                        && final(lexer).remaining() == old(lexer).remaining() - 1 - k,
                    None => r is Err,
                }
            }),
            ({
                let t = text_from(old(lexer).rows(), old(lexer).current());
                t.len() > 0 && t[0] == '"' && breaks_line(t.drop_first()) ==> (r matches Err(e)
                    && e matches ParseError::CannotCloseString { building, start, end } && start == cur_pos(
                    old(lexer).rows(),
                    old(lexer).current(),
                ))
            }),
    {
        let s = self.parse_string_content(lexer)?;
        Ok(Value::String(s))
    }

    /// The characters of a string literal, with escapes resolved. A line break
    /// before the closing quotation mark is an error.
    pub fn parse_string_content(&self, lexer: &mut Lexer) -> (r: Result<String, ParseError>)
        requires
            old(lexer).wf(),
        ensures
            final(lexer).wf(),
            final(lexer).rows() == old(lexer).rows(),
            0 <= final(lexer).remaining() <= old(lexer).remaining(),
            r is Ok ==> final(lexer).remaining() < old(lexer).remaining(),
            match old(lexer).current() {
                None => r == Err::<String, ParseError>(
                    ParseError::UnexpectedEof {
                        expected: Expected::Token(MainToken::Quotation),
                        pos: eof_pos(old(lexer).rows()),
                    },
                ),
                Some((p, c)) => c != '"' ==> r == Err::<String, ParseError>(
                    ParseError::UnexpectedToken { expected: Expected::Token(MainToken::Quotation), found: c, pos: p },
                ),
            },
            ({
                let t = text_from(old(lexer).rows(), old(lexer).current());
                t.len() > 0 && t[0] == '"' ==> match decode_body(t.drop_first()) {
                    Some((s, k)) => r matches Ok(x) && x@ == s && final(lexer).remaining() == old(lexer).remaining() - 1 - k,
                    None => r is Err,
                }
            }),
            ({
                let t = text_from(old(lexer).rows(), old(lexer).current());
                t.len() > 0 && t[0] == '"' && breaks_line(t.drop_first()) ==> (r matches Err(e)
                    && e matches ParseError::CannotCloseString { building, start, end } && start == cur_pos(
                    old(lexer).rows(),
                    old(lexer).current(),
                ))
            }),
    {
        let ghost t = text_from(lexer.rows(), lexer.current());
        let ghost r0 = lexer.remaining();
        proof {
            lemma_text_from(lexer.rows(), lexer.current());
        }
        let (start, _) = lexer.lex_1_char(MainToken::Quotation, false)?;
        let ghost t1 = t.drop_first();
        proof {
            lemma_text_from(lexer.rows(), lexer.current());
            assert(text_from(lexer.rows(), lexer.current()) == t1);
            assert(add_prefix(seq![], 0, decode_body(t1)) == decode_body(t1));
        }
        let mut building: Vec<char> = Vec::new();
        let ghost mut m: nat = 0;
        loop
            invariant
                old(lexer).current() matches Some((_, q)) && q == '"',
                t == text_from(old(lexer).rows(), old(lexer).current()),
                t1 == t.drop_first(),
                r0 == old(lexer).remaining(),
                lexer.wf(),
                lexer.rows() == old(lexer).rows(),
                0 <= lexer.remaining() < old(lexer).remaining(),
                lexer.remaining() == r0 - 1 - m,
                decode_body(t1) == add_prefix(building@, m, decode_body(text_from(lexer.rows(), lexer.current()))),
                breaks_line(t1) == breaks_line(text_from(lexer.rows(), lexer.current())),
                start == cur_pos(old(lexer).rows(), old(lexer).current()),
            decreases lexer.remaining(),
        {
            proof {
                lemma_text_from(lexer.rows(), lexer.current());
            }
            let ghost now = text_from(lexer.rows(), lexer.current());
            match lexer.peek() {
                None => {
                    return Err(ParseError::UnexpectedEof { expected: Expected::StringEnd, pos: lexer.eof() });
                },
                Some((p, c)) => {
                    assert(now[0] == c);
                    if c == '"' {
                        lexer.next();
                        proof {
                            assert(building@ + Seq::<char>::empty() =~= building@);
                        }
                        return Ok(string_of(&building));
                    } else if c == '\n' {
                        return Err(ParseError::CannotCloseString { building: string_of(&building), start, end: p });
                    } else if c == '\\' {
                        let e = self.parse_escape_sequence(lexer)?;
                        proof {
                            let k: nat = match escape_step(now) {
                                Some((_, k)) => k,
                                None => 0,
                            };
                            assert(escape_step(now) == Some((e, k)));
                            assert(add_prefix(building@, m, then_add(e, k, decode_body(now.subrange(k as int, now.len() as int))))
                                == add_prefix(building@.push(e), m + k, decode_body(now.subrange(k as int, now.len() as int)))) by {
                                assert(building@ + (seq![e] + Seq::<char>::empty()) =~= building@.push(e));
                                match decode_body(now.subrange(k as int, now.len() as int)) {
                                    Some((s2, _)) => {
                                        assert(building@ + (seq![e] + s2) =~= building@.push(e) + s2);
                                    },
                                    None => {},
                                }
                            }
                            m = m + k;
                        }
                        building.push(e);
                    } else {
                        let ghost cur0 = lexer.current();
                        lexer.next();
                        proof {
                            assert(text_from(lexer.rows(), lexer.current()) =~= now.drop_first());
                            let rest = decode_body(now.drop_first());
                            match rest {
                                Some((s2, _)) => {
                                    assert(building@ + (seq![c] + s2) =~= building@.push(c) + s2);
                                },
                                None => {},
                            }
                            m = m + 1;
                        }
                        building.push(c);
                    }
                },
            }
        }
    }

    /// `escape-seq := "\" ( '"' | "\" | "/" | "b" | "f" | "n" | "r" | "t" | "u" hex4 )`.
    /// `\b` and `\f` are not supported.
    pub fn parse_escape_sequence(&self, lexer: &mut Lexer) -> (r: Result<char, ParseError>)
        requires
            old(lexer).wf(),
            old(lexer).current() matches Some((_, c)) && c == '\\',
        ensures
            final(lexer).wf(),
            final(lexer).rows() == old(lexer).rows(),
            0 <= final(lexer).remaining() < old(lexer).remaining(),
            ({
                let t = text_from(old(lexer).rows(), old(lexer).current());
                match escape_step(t) {
                    Some((c, k)) => r == Ok::<char, ParseError>(c) && text_from(final(lexer).rows(), final(lexer).current())
                        == t.subrange(k as int, t.len() as int) && final(lexer).remaining() == old(lexer).remaining() - k,
                    None => r is Err,
                }
            }),
            ({
                let start = cur_pos(old(lexer).rows(), old(lexer).current());
                let s = step(old(lexer).rows(), old(lexer).current());
                match s {
                    None => r == Err::<char, ParseError>(
                        ParseError::UnexpectedEof { expected: Expected::StringEnd, pos: eof_pos(old(lexer).rows()) },
                    ),
                    Some((p, c)) => match escape_of(c) {
                        None => r == Err::<char, ParseError>(ParseError::UnexpectedEscape { escape: c, start, end: p }),
                        Some(t) => if unescaped_of(t) is None && t != EscapedStringToken::Unicode {
                            r == Err::<char, ParseError>(ParseError::UnsupportedEscape { escape: t, start, end: p })
                        } else {
                            true
                        },
                    },
                }
            }),
    {
        let ghost t = text_from(lexer.rows(), lexer.current());
        proof {
            lemma_text_from(lexer.rows(), lexer.current());
        }
        let start = lexer.pos();
        lexer.next();
        proof {
            lemma_text_from(lexer.rows(), lexer.current());
        }
        let ghost t1 = text_from(lexer.rows(), lexer.current());
        assert(t1 == t.drop_first());
        match lexer.next() {
            None => Err(ParseError::UnexpectedEof { expected: Expected::StringEnd, pos: lexer.eof() }),
            Some((p, c)) => {
                assert(t1[0] == c);
                assert(text_from(lexer.rows(), lexer.current()) =~= t.subrange(2, t.len() as int));
                match EscapedStringToken::lookahead(c) {
                    Ok(e) => match e.unescaped() {
                        Some(u) => Ok(u),
                        None => {
                            if e == EscapedStringToken::Unicode {
                                let r = self.parse_unicode(lexer, start);
                                proof {
                                    let t2 = t.subrange(2, t.len() as int);
                                    if t2.len() >= 4 {
                                        assert(t2.subrange(4, t2.len() as int) =~= t.subrange(6, t.len() as int));
                                    }
                                }
                                r
                            } else {
                                Err(ParseError::UnsupportedEscape { escape: e, start, end: p })
                            }
                        },
                    },
                    Err(_) => Err(ParseError::UnexpectedEscape { escape: c, start, end: p }),
                }
            },
        }
    }

    /// `hex4`: four hexadecimal digits after `\u`, naming a Unicode scalar value.
    pub fn parse_unicode(&self, lexer: &mut Lexer, start: Position) -> (r: Result<char, ParseError>)
        requires
            old(lexer).wf(),
        ensures
            final(lexer).wf(),
            final(lexer).rows() == old(lexer).rows(),
            0 <= final(lexer).remaining() <= old(lexer).remaining(),
            ({
                let t = text_from(old(lexer).rows(), old(lexer).current());
                match unicode_step(t) {
                    Some((c, k)) => r == Ok::<char, ParseError>(c) && text_from(final(lexer).rows(), final(lexer).current())
                        == t.subrange(4, t.len() as int) && final(lexer).remaining() == old(lexer).remaining() - 4,
                    None => r matches Err(e) && e is CannotConvertUnicode,
                }
            }),
            ({
                let t = text_from(old(lexer).rows(), old(lexer).current());
                r matches Err(ParseError::CannotConvertUnicode { hex, start: st, end }) ==> {
                    &&& st == start
                    &&& hex@.len() <= 4
                    &&& hex@.len() <= t.len()
                    &&& hex@ == t.subrange(0, hex@.len() as int)
                    &&& (t.len() >= 4 && (forall|i: int| 0 <= i < 4 ==> !is_ws(#[trigger] t[i]))) ==> hex@.len() == 4
                    &&& end == cur_pos(final(lexer).rows(), final(lexer).current())
                }
            }),
    {
        let ghost t = text_from(lexer.rows(), lexer.current());
        proof {
            lemma_text_from(lexer.rows(), lexer.current());
        }
        match lexer.lex_n_chars(4) {
            Ok((hex, _)) => {
                let end = lexer.pos();
                proof {
                    lemma_text_from(lexer.rows(), lexer.current());
                }
                match hex4(&hex) {
                    Some(v) => match char_from_code(v) {
                        Some(u) => {
                            assert(u == char_of_code(v as nat));
                            Ok(u)
                        },
                        None => Err(ParseError::CannotConvertUnicode { hex: string_of(&hex), start, end }),
                    },
                    None => Err(ParseError::CannotConvertUnicode { hex: string_of(&hex), start, end }),
                }
            },
            Err(ParseError::UnexpectedWhitespace { found, start: _, end }) => {
                proof {
                    if t.len() >= 4 {
                        let i = choose|i: int| 0 <= i < 4 && is_ws(#[trigger] t[i]);
                        assert(t.subrange(0, 4)[i] == t[i]);
                    }
                }
                Err(ParseError::CannotConvertUnicode { hex: found, start, end })
            },
            Err(ParseError::TruncatedToken { found, start: _, end }) => {
                proof {
                    if t.len() >= 4 {
                        let i = choose|i: int| 0 <= i < 4 && is_ws(#[trigger] t[i]);
                        assert(t.subrange(0, 4)[i] == t[i]);
                    }
                }
                Err(ParseError::CannotConvertUnicode { hex: found, start, end })
            },
            Err(_) => Err(ParseError::CannotConvertUnicode { hex: string_of(&Vec::new()), start, end: lexer.pos() }),
        }
    }

    /// `number := ["-"] ("0" | digits) [ "." digits ] [ ("e"|"E") ["+"|"-"] digits ]`.
    /// With a fraction or an exponent it is a float, kept as its numeral;
    /// otherwise an integer, which must fit in `i64`.
    #[verifier::spinoff_prover]
    #[verifier::rlimit(100)]
    pub fn parse_number(&self, lexer: &mut Lexer) -> (r: Result<Value, ParseError>)
        requires
            old(lexer).wf(),
        ensures
            final(lexer).wf(),
            final(lexer).rows() == old(lexer).rows(),
            0 <= final(lexer).remaining() <= old(lexer).remaining(),
            ({
                let t = text_from(old(lexer).rows(), old(lexer).current());
                let start = cur_pos(old(lexer).rows(), old(lexer).current());
                let a = sign_len(t) as int;
                let c = int_end(t) as int;
                let tc = t.subrange(c, t.len() as int);
                match numeral_len(t) {
                    None => {
                        &&& r is Err
                        &&& int_len(t.subrange(a, t.len() as int)) == 0 ==> r == Err::<Value, ParseError>(
                            ParseError::EmptyDigits { pos: start },
                        )
                        &&& int_len(t.subrange(a, t.len() as int)) > 0 && frac_len(tc) is None ==> r == Err::<
                            Value,
                            ParseError,
                        >(ParseError::EmptyDigits { pos: start })
                        &&& int_len(t.subrange(a, t.len() as int)) > 0 && frac_len(tc) is Some ==> {
                            let te = t.subrange(c + frac_len(tc)->0, t.len() as int);
                            &&& te.len() >= 2 && (te[1] == '+' || te[1] == '-') ==> r == Err::<Value, ParseError>(
                                ParseError::EmptyDigits { pos: start },
                            )
                            &&& te.len() >= 2 && !(te[1] == '+' || te[1] == '-' || is_digit(te[1])) ==> (r matches Err(
                                e,
                            ) && e matches ParseError::UnexpectedToken { expected, found, pos } && expected
                                == Expected::ExponentSignOrDigit && found == te[1])
                        }
                    },
                    Some(n) => {
                        let s = t.subrange(0, n as int);
                        if float_mark(t, int_end(t)) {
                            r matches Ok(v) && v matches Value::Float(f) && f@ == s && valid_float(s)
                                && final(lexer).remaining() == old(lexer).remaining() - n
                        } else if i64::MIN <= numeral_value(s) <= i64::MAX {
                            r matches Ok(v) && v matches Value::Integer(i) && i == numeral_value(s)
                                && final(lexer).remaining() == old(lexer).remaining() - n
                        } else {
                            r matches Err(e) && e matches ParseError::CannotConvertInteger { num, start: st, end }
                                && num@ == s && st == start && end == cur_pos(final(lexer).rows(), final(lexer).current())
                        }
                    },
                }
            }),
    {
        let start = lexer.pos();
        let ghost t = text_from(lexer.rows(), lexer.current());
        let ghost r0 = lexer.remaining();
        proof {
            lemma_text_from(lexer.rows(), lexer.current());
            assert(t.subrange(0, 0) =~= Seq::<char>::empty());
            assert(t.subrange(0, t.len() as int) =~= t);
        }
        let mut number: Vec<char> = Vec::new();
        if let Some((_, '-')) = lexer.peek() {
            take_char(lexer, &mut number, Ghost(t), Ghost(r0));
        }
        let ghost a = sign_len(t);
        assert(number@.len() == a);
        if let Some((_, '0')) = lexer.peek() {
            take_char(lexer, &mut number, Ghost(t), Ghost(r0));
            assert(int_len(t.subrange(a as int, t.len() as int)) == 1);
        } else {
            proof {
                if a < t.len() {
                    assert(t.subrange(a as int, t.len() as int)[0] == t[a as int]);
                }
            }
            self.parse_digits(lexer, start, &mut number, Ghost(t), Ghost(r0))?;
        }
        let ghost c = number@.len();
        assert(c == int_end(t));
        proof {
            assert(number@ == t.subrange(0, c as int));
            if a == 1 {
                assert(number@[0] == '-');
                assert(number@.drop_first() =~= t.subrange(1, c as int));
                assert(all_digits(t.subrange(1, c as int))) by {
                    lemma_run_digits(t.subrange(1, t.len() as int), (c - 1) as nat);
                    assert(t.subrange(1, t.len() as int).subrange(0, c - 1) =~= t.subrange(1, c as int));
                }
            } else {
                assert(all_digits(t.subrange(0, c as int))) by {
                    lemma_run_digits(t, c as nat);
                    assert(t.subrange(0, t.len() as int).subrange(0, c as int) =~= t.subrange(0, c as int));
                    assert(t.subrange(0, t.len() as int) =~= t);
                }
                assert(number@ =~= t.subrange(0, c as int));
            }
        }
        let is_float = match lexer.peek() {
            Some((_, ch)) => ch == '.' || ch == 'e' || ch == 'E',
            None => false,
        };
        if is_float {
            if let Some((_, '.')) = lexer.peek() {
                self.parse_fraction(lexer, start, &mut number, Ghost(t), Ghost(r0))?;
            }
            let ghost f = number@.len();
            if let Some((_, ch)) = lexer.peek() {
                if ch == 'e' || ch == 'E' {
                    self.parse_exponent(lexer, start, &mut number, Ghost(t), Ghost(r0))?;
                }
            }
            assert(numeral_len(t) == Some(number@.len()));
            proof {
                lemma_numeral_prefix(t, number@.len());
            }
            Ok(Value::Float(string_of(&number)))
        } else {
            assert(numeral_len(t) == Some(number@.len()));
            match numeral_to_i64(&number) {
                Some(i) => Ok(Value::Integer(i)),
                None => Err(ParseError::CannotConvertInteger { num: string_of(&number), start, end: lexer.pos() }),
            }
        }
    }

    /// `digits := digit { digit }`, appended to `number`.
    fn parse_digits(
        &self,
        lexer: &mut Lexer,
        start: Position,
        number: &mut Vec<char>,
        Ghost(t): Ghost<Seq<char>>,
        Ghost(r0): Ghost<int>,
    ) -> (r: Result<(), ParseError>)
        requires
            old(lexer).wf(),
            tracks(*old(lexer), old(number)@, t, r0),
        ensures
            final(lexer).wf(),
            final(lexer).rows() == old(lexer).rows(),
            tracks(*final(lexer), final(number)@, t, r0),
            final(number)@.len() == old(number)@.len() + digit_run(text_from(old(lexer).rows(), old(lexer).current())),
            r is Err <==> digit_run(text_from(old(lexer).rows(), old(lexer).current())) == 0,
            r matches Err(e) ==> e == (ParseError::EmptyDigits { pos: start }),
    {
        let ghost t0 = text_from(lexer.rows(), lexer.current());
        let n0 = number.len();
        assert(t0.subrange(0, 0) =~= Seq::<char>::empty());
        loop
            invariant
                lexer.wf(),
                lexer.rows() == old(lexer).rows(),
                tracks(*lexer, number@, t, r0),
                n0 == old(number)@.len(),
                t0 == text_from(old(lexer).rows(), old(lexer).current()),
                number@.len() >= n0,
                t0 == t.subrange(n0 as int, t.len() as int),
                digit_run(t0) == (number@.len() - n0) + digit_run(text_from(lexer.rows(), lexer.current())),
            ensures
                lexer.wf(),
                lexer.rows() == old(lexer).rows(),
                tracks(*lexer, number@, t, r0),
                digit_run(t0) == (number@.len() - n0) + digit_run(text_from(lexer.rows(), lexer.current())),
                digit_run(text_from(lexer.rows(), lexer.current())) == 0,
            decreases lexer.remaining(),
        {
            proof {
                lemma_text_from(lexer.rows(), lexer.current());
            }
            let c = match lexer.peek() {
                Some((_, c)) => c,
                None => {
                    break;
                },
            };
            if '0' <= c && c <= '9' {
                proof {
                    let tn = text_from(lexer.rows(), lexer.current());
                    assert(tn.drop_first() =~= text_from(lexer.rows(), step(lexer.rows(), lexer.current())));
                }
                take_char(lexer, number, Ghost(t), Ghost(r0));
            } else {
                break;
            }
        }
        if number.len() == n0 {
            Err(ParseError::EmptyDigits { pos: start })
        } else {
            Ok(())
        }
    }

    /// `fraction := "." digits`, appended to `number`.
    pub fn parse_fraction(
        &self,
        lexer: &mut Lexer,
        start: Position,
        number: &mut Vec<char>,
        Ghost(t): Ghost<Seq<char>>,
        Ghost(r0): Ghost<int>,
    ) -> (r: Result<(), ParseError>)
        requires
            old(lexer).wf(),
            tracks(*old(lexer), old(number)@, t, r0),
            old(lexer).current() matches Some((_, c)) && c == '.',
        ensures
            final(lexer).wf(),
            final(lexer).rows() == old(lexer).rows(),
            tracks(*final(lexer), final(number)@, t, r0),
            frac_len(text_from(old(lexer).rows(), old(lexer).current())) matches Some(f) ==> r is Ok
                && final(number)@.len() == old(number)@.len() + f,
            frac_len(text_from(old(lexer).rows(), old(lexer).current())) is None ==> r == Err::<(), ParseError>(
                ParseError::EmptyDigits { pos: start },
            ),
    {
        let ghost t0 = text_from(lexer.rows(), lexer.current());
        proof {
            lemma_text_from(lexer.rows(), lexer.current());
        }
        take_char(lexer, number, Ghost(t), Ghost(r0));
        assert(t0.drop_first() == text_from(lexer.rows(), lexer.current()));
        self.parse_digits(lexer, start, number, Ghost(t), Ghost(r0))
    }

    /// `exponent := ("e"|"E") ["+"|"-"] digits`, appended to `number`.
    pub fn parse_exponent(
        &self,
        lexer: &mut Lexer,
        start: Position,
        number: &mut Vec<char>,
        Ghost(t): Ghost<Seq<char>>,
        Ghost(r0): Ghost<int>,
    ) -> (r: Result<(), ParseError>)
        requires
            old(lexer).wf(),
            tracks(*old(lexer), old(number)@, t, r0),
            old(lexer).current() matches Some((_, c)) && (c == 'e' || c == 'E'),
        ensures
            final(lexer).wf(),
            final(lexer).rows() == old(lexer).rows(),
            tracks(*final(lexer), final(number)@, t, r0),
            exp_len(text_from(old(lexer).rows(), old(lexer).current())) matches Some(e) ==> r is Ok
                && final(number)@.len() == old(number)@.len() + e,
            exp_len(text_from(old(lexer).rows(), old(lexer).current())) is None ==> r is Err,
            ({
                let t0 = text_from(old(lexer).rows(), old(lexer).current());
                let s1 = step(old(lexer).rows(), old(lexer).current());
                &&& t0.len() < 2 ==> r == Err::<(), ParseError>(
                    ParseError::UnexpectedEof {
                        expected: Expected::ExponentSignOrDigit,
                        pos: eof_pos(old(lexer).rows()),
                    },
                )
                &&& t0.len() >= 2 && (t0[1] == '+' || t0[1] == '-') && exp_len(t0) is None ==> r == Err::<
                    (),
                    ParseError,
                >(ParseError::EmptyDigits { pos: start })
                &&& t0.len() >= 2 && !(t0[1] == '+' || t0[1] == '-' || is_digit(t0[1])) ==> r == Err::<
                    (),
                    ParseError,
                >(
                    ParseError::UnexpectedToken {
                        expected: Expected::ExponentSignOrDigit,
                        found: t0[1],
                        pos: cur_pos(old(lexer).rows(), s1),
                    },
                )
            }),
    {
        let ghost t0 = text_from(lexer.rows(), lexer.current());
        proof {
            lemma_text_from(lexer.rows(), lexer.current());
        }
        take_char(lexer, number, Ghost(t), Ghost(r0));
        let ghost t1 = text_from(lexer.rows(), lexer.current());
        assert(t0.drop_first() == t1);
        proof {
            lemma_text_from(lexer.rows(), lexer.current());
        }
        match lexer.peek() {
            None => {
                return Err(ParseError::UnexpectedEof { expected: Expected::ExponentSignOrDigit, pos: lexer.eof() });
            },
            Some((p, c)) => {
                if c == '+' || c == '-' {
                    take_char(lexer, number, Ghost(t), Ghost(r0));
                    assert(t1.drop_first() == text_from(lexer.rows(), lexer.current()));
                    assert(t0.subrange(2, t0.len() as int) =~= t1.drop_first());
                } else if !('0' <= c && c <= '9') {
                    return Err(ParseError::UnexpectedToken { expected: Expected::ExponentSignOrDigit, found: c, pos: p });
                } else {
                    assert(t0.subrange(1, t0.len() as int) =~= t1);
                }
            },
        }
        self.parse_digits(lexer, start, number, Ghost(t), Ghost(r0))
    }
}

/// Consumes the current character and appends it to `number`.
fn take_char(lexer: &mut Lexer, number: &mut Vec<char>, Ghost(t): Ghost<Seq<char>>, Ghost(r0): Ghost<int>)
    requires
        old(lexer).wf(),
        old(lexer).current() is Some,
        tracks(*old(lexer), old(number)@, t, r0),
    ensures
        final(lexer).wf(),
        final(lexer).rows() == old(lexer).rows(),
        final(lexer).current() == step(old(lexer).rows(), old(lexer).current()),
        final(lexer).remaining() == old(lexer).remaining() - 1,
        final(number)@ == old(number)@.push(cur_char(old(lexer).current())),
        tracks(*final(lexer), final(number)@, t, r0),
        text_from(final(lexer).rows(), final(lexer).current()) == text_from(old(lexer).rows(), old(lexer).current()).drop_first(),
{
    proof {
        lemma_text_from(lexer.rows(), lexer.current());
        lemma_step(lexer.rows(), lexer.current());
    }
    let ghost before = text_from(lexer.rows(), lexer.current());
    match lexer.next() {
        Some((_, c)) => {
            let ghost k = number@.len();
            number.push(c);
            proof {
                assert(before =~= seq![c] + text_from(lexer.rows(), lexer.current()));
                assert(before == t.subrange(k as int, t.len() as int));
                assert(text_from(lexer.rows(), lexer.current()) =~= before.drop_first());
                assert(before.drop_first() =~= t.subrange(k as int + 1, t.len() as int));
                assert(t.subrange(k as int, t.len() as int)[0] == c);
                assert(number@ =~= t.subrange(0, k as int + 1));
                assert(text_from(lexer.rows(), lexer.current()) =~= t.subrange(k as int + 1, t.len() as int));
            }
        },
        None => {},
    }
}

/// Adds a member to an object: a new key goes last, a known key gets the new
/// value in its place.
pub fn insert_member(object: &mut Vec<(String, Value)>, key: String, value: Value)
    requires
        keys_unique(old(object)@),
        forall|i: int| 0 <= i < old(object)@.len() ==> valid((#[trigger] old(object)@[i]).1),
        valid(value),
    ensures
        keys_unique(final(object)@),
        forall|i: int| 0 <= i < final(object)@.len() ==> valid((#[trigger] final(object)@[i]).1),
        (forall|i: int| 0 <= i < old(object)@.len() ==> (#[trigger] old(object)@[i]).0@ != key@) ==> final(object)@
            == old(object)@.push((key, value)),
        forall|i: int|
            0 <= i < old(object)@.len() && (#[trigger] old(object)@[i]).0@ == key@ ==> final(object)@ == old(
                object,
            )@.update(i, (old(object)@[i].0, value)),
{
    let mut i: usize = 0;
    while i < object.len()
        invariant
            i <= object@.len(),
            object@ == old(object)@,
            keys_unique(old(object)@),
            forall|k: int| 0 <= k < old(object)@.len() ==> valid((#[trigger] old(object)@[k]).1),
            valid(value),
            forall|k: int| 0 <= k < i ==> (#[trigger] object@[k]).0@ != key@,
        decreases object@.len() - i,
    {
        if object[i].0 == key {
            let ghost before = object@;
            object[i].1 = value;
            assert(forall|k: int| 0 <= k < object@.len() ==> (#[trigger] object@[k]).0 == before[k].0);
            assert(forall|k: int| 0 <= k < object@.len() && k != i ==> (#[trigger] object@[k]) == before[k]);
            assert(object@ =~= before.update(i as int, (before[i as int].0, value)));
            assert forall|j: int| 0 <= j < before.len() && (#[trigger] before[j]).0@ == key@ implies j == i by {
                if j < i {
                    assert(before[j].0@ != key@);
                } else if j > i {
                    assert(before[i as int].0@ != before[j].0@);
                }
            }
            assert(object@[i as int].0@ == key@);
            assert(object@[i as int].1 == value);
            assert forall|a: int, b: int| 0 <= a < b < object@.len() implies (#[trigger] object@[a]).0@ != (#[trigger] object@[b]).0@ by {
                assert(before[a].0@ != before[b].0@);
            }
            assert forall|k: int| 0 <= k < object@.len() implies valid((#[trigger] object@[k]).1) by {
                if k != i {
                    assert(valid(before[k].1));
                }
            }
            return;
        }
        i = i + 1;
    }
    let ghost before = object@;
    object.push((key, value));
    assert(object@[before.len() as int].0@ == key@);
    assert(forall|k: int| 0 <= k < before.len() ==> (#[trigger] object@[k]) == before[k]);
}

impl Value {
    /// Parses a whole text: one value, with only whitespace around it. The
    /// compact text of a valid value parses back to an equal value, which
    /// prints as the same text.
    pub fn parse(text: &str) -> (r: Result<Value, ParseError>)
        requires
            text@.len() < usize::MAX,
        ensures
            r matches Ok(v) ==> valid(v) && v.wf(),
            forall|v: Value|
                valid(v) && #[trigger] compact(v) == text@ ==> (r matches Ok(w) && same_value(w, v) && compact(w)
                    == compact(v)),
            forall|v: Value| valid(v) && #[trigger] pretty(v, seq![]) == text@ ==> (r matches Ok(w) && same_value(w, v)),
            ({
                let rows = split_rows(text@);
                let s = skip_ws_from(rows, start_cursor(rows));
                let t1 = text_from(rows, s);
                &&& match s {
                    None => r == Err::<Value, ParseError>(
                        ParseError::UnexpectedEof { expected: Expected::Value, pos: eof_pos(rows) },
                    ),
                    Some((p, c)) => value_start_of(c) is None ==> r == Err::<Value, ParseError>(
                        ParseError::Tokenize { found: c, pos: p },
                    ),
                }
                &&& number_start(s) ==> match numeral_len(t1) {
                    Some(n) => (float_mark(t1, int_end(t1)) || i64::MIN <= numeral_value(t1.subrange(0, n as int))
                        <= i64::MAX) && (exists|j: int| n <= j < t1.len() && !is_ws(#[trigger] t1[j])) ==> (r matches Err(
                        e,
                    ) && e matches ParseError::FoundSurplus { start, end } && end == eof_pos(rows)),
                    None => r is Err,
                }
            }),
            ({
                let rows = split_rows(text@);
                forall|v: Value|
                    (v is Object || v is Array) && valid(v) && arity(v) > 0 && #[trigger] with_trailing_comma(compact(v))
                        == text@ ==> (r matches Err(e) && e matches ParseError::TrailingComma { pos } && exists|
                        c: Option<(Position, char)>,
                    |
                        cursor_ok(rows, c) && rem(rows, c) == text@.len() + 1 - (compact(v).len() - 1) && pos == cur_pos(
                            rows,
                            c,
                        ))
            }),
    {
        parse(text)
    }
}

/// Parses a whole text: one value, with only whitespace around it. The
/// compact text of a valid value parses back to an equal value, which prints
/// as the same text.
#[verifier::spinoff_prover]
#[verifier::rlimit(100)]
pub fn parse(text: &str) -> (r: Result<Value, ParseError>)
    requires
        text@.len() < usize::MAX,
    ensures
        r matches Ok(v) ==> valid(v) && v.wf(),
        forall|v: Value|
            valid(v) && #[trigger] compact(v) == text@ ==> (r matches Ok(w) && same_value(w, v) && compact(w) == compact(
                v,
            )),
        forall|v: Value| valid(v) && #[trigger] pretty(v, seq![]) == text@ ==> (r matches Ok(w) && same_value(w, v)),
        ({
            let rows = split_rows(text@);
            let s = skip_ws_from(rows, start_cursor(rows));
            let t1 = text_from(rows, s);
            &&& match s {
                None => r == Err::<Value, ParseError>(
                    ParseError::UnexpectedEof { expected: Expected::Value, pos: eof_pos(rows) },
                ),
                Some((p, c)) => value_start_of(c) is None ==> r == Err::<Value, ParseError>(
                    ParseError::Tokenize { found: c, pos: p },
                ),
            }
            &&& number_start(s) ==> match numeral_len(t1) {
                Some(n) => (float_mark(t1, int_end(t1)) || i64::MIN <= numeral_value(t1.subrange(0, n as int))
                    <= i64::MAX) && (exists|j: int| n <= j < t1.len() && !is_ws(#[trigger] t1[j])) ==> (r matches Err(
                    e,
                ) && e matches ParseError::FoundSurplus { start, end } && end == eof_pos(rows)),
                None => r is Err,
            }
        }),
        ({
            let rows = split_rows(text@);
            forall|v: Value|
                (v is Object || v is Array) && valid(v) && arity(v) > 0 && #[trigger] with_trailing_comma(compact(v))
                    == text@ ==> (r matches Err(e) && e matches ParseError::TrailingComma { pos } && exists|
                    c: Option<(Position, char)>,
                |
                    cursor_ok(rows, c) && rem(rows, c) == text@.len() + 1 - (compact(v).len() - 1) && pos == cur_pos(
                        rows,
                        c,
                    ))
        }),
{
    let chars = chars_of(text);
    let json = RawJson::from_chars(&chars);
    let mut lexer = Lexer::new(&json);
    let ghost rows = json@;
    let ghost cur0 = lexer.current();
    let ghost s = text@;
    proof {
        lemma_text_from(rows, cur0);
        assert forall|v: Value| valid(v) && #[trigger] compact(v) == text@ implies printed_in(
            text_from(rows, cur0),
            v,
            seq![],
            false,
            0,
        ) by {
            lemma_compact_one_line(v);
            lemma_first_char(v);
            lemma_one_line_text(s);
            assert((s + seq!['\n']).subrange(0, s.len() as int) =~= s);
            assert((s + seq!['\n'])[s.len() as int] == '\n');
            assert((s + seq!['\n']).subrange(0, 0) =~= Seq::<char>::empty());
        }
        assert forall|v: Value| valid(v) && #[trigger] pretty(v, seq![]) == text@ implies printed_in(
            text_from(rows, cur0),
            v,
            seq![],
            true,
            0,
        ) by {
            lemma_pretty_no_cr(v, seq![]);
            lemma_render_first(v, seq![], true);
            lemma_text_read(s);
            assert((s + seq!['\n']).subrange(0, s.len() as int) =~= s);
            assert((s + seq!['\n'])[s.len() as int] == '\n');
            assert((s + seq!['\n']).subrange(0, 0) =~= Seq::<char>::empty());
        }
    }
    proof {
        assert forall|v: Value|
            (v is Object || v is Array) && valid(v) && arity(v) > 0 && #[trigger] with_trailing_comma(compact(v))
                == text@ implies (trail_in(text_from(rows, cur0), v, seq![], false, 0) && comma_tail(
                text_from(rows, cur0),
                v,
                seq![],
                false,
                0,
            ) && rem(rows, cur0) == text@.len() + 1) by {
            let c = compact(v);
            lemma_compact_one_line(v);
            lemma_first_char(v);
            assert(one_line(s)) by {
                assert forall|i: int| 0 <= i < s.len() implies (#[trigger] s[i]) != '\n' && s[i] != '\r' by {
                    if i < c.len() - 1 {
                        assert(s[i] == c[i]);
                    } else if i == c.len() {
                        assert(s[i] == c[c.len() - 1]);
                    }
                }
            }
            lemma_one_line_text(s);
            let t = s + seq!['\n'];
            assert(t.subrange(0, c.len() - 1) =~= c.subrange(0, c.len() - 1));
            assert(t.subrange(0, 0) =~= Seq::<char>::empty());
            assert(t.subrange(c.len() as int, c.len() as int) =~= Seq::<char>::empty());
        }
    }
    let parser = Parser::new();
    let ghost s0 = skip_ws_from(rows, cur0);
    proof {
        lemma_skip_ws(rows, cur0);
    }
    let v = parser.parse_value(&mut lexer)?;
    let ghost c1 = lexer.current();
    proof {
        lemma_text_advance(rows, cur0, c1);
        if rem(rows, c1) <= rem(rows, s0) {
            lemma_text_advance(rows, s0, c1);
        }
        lemma_valid_wf(v);
    }
    match lexer.skip_whitespace() {
        Some((p, _)) => {
            proof {
                assert forall|u: Value| valid(u) && #[trigger] compact(u) == text@ implies false by {
                    lemma_compact_one_line(u);
                    lemma_first_char(u);
                    lemma_one_line_text(s);
                    assert(printed_in(text_from(rows, cur0), u, seq![], false, 0));
                    let rest = text_from(rows, c1);
                    assert(rest =~= (s + seq!['\n']).subrange(s.len() as int, s.len() + 1int));
                    assert(rest[0] == '\n');
                    lemma_skip_to_end(rows, c1);
                }
                assert forall|u: Value| valid(u) && #[trigger] pretty(u, seq![]) == text@ implies false by {
                    lemma_pretty_no_cr(u, seq![]);
                    lemma_render_first(u, seq![], true);
                    lemma_text_read(s);
                    assert(printed_in(text_from(rows, cur0), u, seq![], true, 0));
                    let rest = text_from(rows, c1);
                    assert(rest =~= (s + seq!['\n']).subrange(s.len() as int, s.len() + 1int));
                    assert(rest[0] == '\n');
                    lemma_skip_to_end(rows, c1);
                }
            }
            Err(ParseError::FoundSurplus { start: p, end: lexer.eof() })
        },
        None => {
            proof {
                lemma_skip_none_all_ws(rows, c1);
                let t1 = text_from(rows, s0);
                if number_start(s0) {
                    match numeral_len(t1) {
                        Some(n) => {
                            if float_mark(t1, int_end(t1)) || i64::MIN <= numeral_value(t1.subrange(0, n as int))
                                <= i64::MAX {
                                assert forall|j: int| n <= j < t1.len() implies is_ws(#[trigger] t1[j]) by {
                                    assert(t1[j] == text_from(rows, c1)[j - n]);
                                }
                            }
                        },
                        None => {},
                    }
                }
                assert forall|u: Value| valid(u) && #[trigger] compact(u) == text@ implies (same_value(v, u) && compact(v)
                    == compact(u)) by {
                    assert(printed_in(text_from(rows, cur0), u, seq![], false, 0));
                    lemma_same_compact(v, u);
                }
                assert forall|u: Value| valid(u) && #[trigger] pretty(u, seq![]) == text@ implies same_value(v, u) by {
                    assert(printed_in(text_from(rows, cur0), u, seq![], true, 0));
                }
            }
            Ok(v)
        },
    }
}

} // verus!

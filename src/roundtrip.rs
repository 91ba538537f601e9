use vstd::prelude::*;
use crate::diff::same_leaf;
use crate::grammar::{
    all_digits, decode_body, digit_run, digits_value, float_mark, frac_len, hex4_value,
    int_end, int_len, numeral_len, numeral_value, sign_len, unicode_step,
};
use crate::print::{
    arity, compact, compact_items, escape_char, escaped, hex_char, int_text, nat_text, pretty, pretty_items, quoted, unit,
};
use crate::token::{is_digit, is_ws, value_start_of, JsonToken, ImmediateToken};
use crate::value::{keys_unique, Value};
use crate::lexer::{cur_char, cursor_ok, flat, lemma_step, lemma_text_from, lemma_text_suffix, on_ws, rem, skip_ws_from, step, text_from};
use crate::rawjson::{char_at, fits, prefix_len, split_rows, split_rows_from, total_len, Position};

verus! {

/// A float numeral as the grammar has it: a whole numeral with a fraction or
/// an exponent.
pub open spec fn valid_float(s: Seq<char>) -> bool {
    numeral_len(s) == Some(s.len()) && float_mark(s, int_end(s))
}

/// A value that the grammar can express: unique keys in every object, and a
/// float numeral in every float.
pub open spec fn valid(v: Value) -> bool
    decreases v,
{
    match v {
        Value::Object(es) => keys_unique(es@) && forall|i: int| 0 <= i < es@.len() ==> valid((#[trigger] es@[i]).1),
        Value::Array(vs) => forall|i: int| 0 <= i < vs@.len() ==> valid(#[trigger] vs@[i]),
        Value::Float(f) => valid_float(f@),
        _ => true,
    }
}

/// Equal trees: same kinds, same keys in the same order, same leaves.
pub open spec fn same_value(a: Value, b: Value) -> bool
    decreases a,
{
    match (a, b) {
        (Value::Object(ea), Value::Object(eb)) => ea@.len() == eb@.len() && forall|i: int|
            0 <= i < ea@.len() ==> (#[trigger] ea@[i]).0@ == eb@[i].0@ && same_value(ea@[i].1, eb@[i].1),
        (Value::Array(va), Value::Array(vb)) => va@.len() == vb@.len() && forall|i: int|
            0 <= i < va@.len() ==> same_value(#[trigger] va@[i], vb@[i]),
        _ => same_leaf(a, b),
    }
}

/// A character that may follow a value in compact text.
pub open spec fn ends_value(c: char) -> bool {
    c == ',' || c == ']' || c == '}' || is_ws(c)
}

/// `t` starts with the compact text of `v`, and a character that ends a
/// value follows it.
pub open spec fn printed(t: Seq<char>, v: Value) -> bool {
    let s = compact(v);
    s.len() < t.len() && t.subrange(0, s.len() as int) == s && ends_value(t[s.len() as int])
}

pub proof fn lemma_digit_run_append(x: Seq<char>, y: Seq<char>)
    requires
        y.len() == 0 || !is_digit(y[0]),
    ensures
        digit_run(x + y) == digit_run(x),
    decreases x.len(),
{
    if x.len() == 0 {
        assert(x + y =~= y);
    } else {
        assert((x + y)[0] == x[0]);
        assert((x + y).drop_first() =~= x.drop_first() + y);
        lemma_digit_run_append(x.drop_first(), y);
    }
}

pub proof fn lemma_digit_run_all(x: Seq<char>)
    requires
        all_digits(x),
    ensures
        digit_run(x) == x.len(),
    decreases x.len(),
{
    if x.len() > 0 {
        assert(all_digits(x.drop_first())) by {
            assert forall|i: int| 0 <= i < x.drop_first().len() implies is_digit(#[trigger] x.drop_first()[i]) by {
                assert(x.drop_first()[i] == x[i + 1]);
            }
        }
        lemma_digit_run_all(x.drop_first());
    }
}

pub proof fn lemma_nat_text(n: nat)
    ensures
        nat_text(n).len() > 0,
        all_digits(nat_text(n)),
        digits_value(nat_text(n)) == n,
        nat_text(n)[0] == '0' ==> n == 0,
    decreases n,
{
    if n < 10 {
        let s = nat_text(n);
        assert(s.drop_last() =~= Seq::<char>::empty());
        assert(digits_value(s) == digits_value(Seq::<char>::empty()) * 10 + n);
    } else {
        lemma_nat_text(n / 10);
        let s = nat_text(n);
        assert(s == nat_text(n / 10) + seq![('0' as nat + n % 10) as char]);
        assert(s.drop_last() =~= nat_text(n / 10));
        assert(n == (n / 10) * 10 + n % 10) by (nonlinear_arith);
        assert(s.last() as nat == '0' as nat + n % 10);
        assert(digits_value(s) == digits_value(nat_text(n / 10)) * 10 + n % 10);
        assert forall|i: int| 0 <= i < s.len() implies is_digit(#[trigger] s[i]) by {
            if i < s.len() - 1 {
                assert(s[i] == nat_text(n / 10)[i]);
            }
        }
        assert(s[0] == nat_text(n / 10)[0]);
    }
}

pub proof fn lemma_escaped_front(s: Seq<char>)
    requires
        s.len() > 0,
    ensures
        escaped(s) == escape_char(s[0]) + escaped(s.drop_first()),
    decreases s.len(),
{
    if s.len() == 1 {
        assert(s.drop_last() =~= Seq::<char>::empty());
        assert(s.drop_first() =~= Seq::<char>::empty());
        assert(escaped(s) =~= escape_char(s[0]) + escaped(s.drop_first()));
    } else {
        lemma_escaped_front(s.drop_last());
        assert(s.drop_last().drop_first() =~= s.drop_first().drop_last());
        assert(s.drop_first().last() == s.last());
        assert(s.drop_last()[0] == s[0]);
        assert(escaped(s) =~= escape_char(s[0]) + escaped(s.drop_first()));
    }
}

/// One escaped character decodes back to itself.
pub proof fn lemma_decode_char(c: char, rest: Seq<char>)
    ensures
        decode_body(escape_char(c) + rest) == match decode_body(rest) {
            Some((s, k)) => Some((seq![c] + s, escape_char(c).len() + k)),
            None => None,
        },
{
    let t = escape_char(c) + rest;
    let e = escape_char(c);
    assert(t.subrange(e.len() as int, t.len() as int) =~= rest);
    if e.len() == 6 {
        let h = t.subrange(2, t.len() as int);
        assert(h.subrange(0, 4) =~= seq!['0', '0', hex_char(c as nat / 16), hex_char(c as nat % 16)]);
        assert(hex4_value(h.subrange(0, 4)) == Some(c as nat));
        assert(unicode_step(h) == Some((c, 4nat)));
    }
    if e.len() == 1 {
        assert(t.drop_first() =~= rest);
    }
}

/// A string literal decodes back to its string.
pub proof fn lemma_decode_quoted(s: Seq<char>, rest: Seq<char>)
    ensures
        decode_body(escaped(s) + seq!['"'] + rest) == Some((s, escaped(s).len() + 1)),
    decreases s.len(),
{
    if s.len() == 0 {
        assert(escaped(s) + seq!['"'] + rest =~= seq!['"'] + rest);
    } else {
        lemma_escaped_front(s);
        lemma_decode_quoted(s.drop_first(), rest);
        lemma_decode_char(s[0], escaped(s.drop_first()) + seq!['"'] + rest);
        assert(escaped(s) + seq!['"'] + rest =~= escape_char(s[0]) + (escaped(s.drop_first()) + seq!['"'] + rest));
        assert(seq![s[0]] + s.drop_first() =~= s);
    }
}

pub proof fn lemma_int_numeral(i: int, rest: Seq<char>)
    requires
        rest.len() > 0,
        ends_value(rest[0]),
    ensures
        ({
            let x = int_text(i);
            let t = x + rest;
            &&& numeral_len(t) == Some(x.len())
            &&& int_end(t) == x.len()
            &&& !float_mark(t, int_end(t))
            &&& numeral_value(t.subrange(0, x.len() as int)) == i
        }),
{
    let x = int_text(i);
    let t = x + rest;
    let n: nat = if i < 0 { (-i) as nat } else { i as nat };
    lemma_nat_text(n);
    let d = nat_text(n);
    let a: nat = if i < 0 { 1 } else { 0 };
    assert(t.subrange(0, x.len() as int) =~= x);
    assert(t.subrange(a as int, t.len() as int) =~= d + rest);
    assert(sign_len(t) == a);
    lemma_digit_run_append(d, rest);
    lemma_digit_run_all(d);
    assert(int_len(t.subrange(a as int, t.len() as int)) == d.len());
    assert(t[x.len() as int] == rest[0]);
    if i < 0 {
        assert(x.drop_first() =~= d);
    }
}

pub proof fn lemma_float_numeral(x: Seq<char>, rest: Seq<char>)
    requires
        valid_float(x),
        rest.len() > 0,
        ends_value(rest[0]),
    ensures
        numeral_len(x + rest) == Some(x.len()),
        float_mark(x + rest, int_end(x + rest)),
        int_end(x + rest) == int_end(x),
{
    let t = x + rest;
    let a = sign_len(x);
    assert(sign_len(t) == a);
    let xa = x.subrange(a as int, x.len() as int);
    assert(t.subrange(a as int, t.len() as int) =~= xa + rest);
    lemma_digit_run_append(xa, rest);
    if xa.len() > 0 {
        assert((xa + rest)[0] == xa[0]);
    }
    let c = int_end(x);
    assert(int_end(t) == c);
    assert(c < x.len());
    assert(t[c as int] == x[c as int]);
    let xc = x.subrange(c as int, x.len() as int);
    assert(t.subrange(c as int, t.len() as int) =~= xc + rest);
    assert((xc + rest)[0] == xc[0]);
    if xc[0] == '.' {
        assert((xc + rest).drop_first() =~= xc.drop_first() + rest);
        lemma_digit_run_append(xc.drop_first(), rest);
    }
    let f = frac_len(xc)->0;
    assert(frac_len(xc + rest) == Some(f));
    let xf = x.subrange((c + f) as int, x.len() as int);
    assert(t.subrange((c + f) as int, t.len() as int) =~= xf + rest);
    if xf.len() > 0 {
        assert((xf + rest)[0] == xf[0]);
        if xf[0] == 'e' || xf[0] == 'E' {
            assert(xf.len() > 1);
            assert((xf + rest)[1] == xf[1]);
            let sg: nat = if xf[1] == '+' || xf[1] == '-' { 1 } else { 0 };
            assert((xf + rest).subrange((1 + sg) as int, (xf + rest).len() as int) =~= xf.subrange(
                (1 + sg) as int,
                xf.len() as int,
            ) + rest);
            lemma_digit_run_append(xf.subrange((1 + sg) as int, xf.len() as int), rest);
        }
    } else {
        assert(xf + rest =~= rest);
    }
}

/// The first character of a compact text tells the kind of the value.
pub proof fn lemma_first_char(v: Value)
    requires
        valid(v),
    ensures
        compact(v).len() > 0,
        !is_ws(compact(v)[0]),
        match v {
            Value::Object(_) => value_start_of(compact(v)[0]) == Some(JsonToken::LeftBrace),
            Value::Array(_) => value_start_of(compact(v)[0]) == Some(JsonToken::LeftBracket),
            Value::String(_) => value_start_of(compact(v)[0]) == Some(JsonToken::Quotation),
            Value::Bool(true) => value_start_of(compact(v)[0]) == Some(JsonToken::Immediate(ImmediateToken::True)),
            Value::Bool(false) => value_start_of(compact(v)[0]) == Some(JsonToken::Immediate(ImmediateToken::False)),
            Value::Null => value_start_of(compact(v)[0]) == Some(JsonToken::Immediate(ImmediateToken::Null)),
            _ => value_start_of(compact(v)[0]) matches Some(JsonToken::Number(_)),
        },
{
    match v {
        Value::Integer(i) => {
            let n: nat = if i < 0 { (-i) as nat } else { i as nat };
            lemma_nat_text(n);
            if i >= 0 {
                assert(is_digit(nat_text(n)[0]));
            }
        },
        Value::Float(f) => {
            let x = f@;
            if x.len() > 0 && x[0] != '-' {
                assert(x.subrange(0, x.len() as int) =~= x);
            }
        },
        _ => {},
    }
}

pub proof fn lemma_items_prefix(v: Value, k: int, n: int)
    requires
        0 <= k <= n <= arity(v),
        v is Object || v is Array,
    ensures
        compact_items(v, k).len() <= compact_items(v, n).len(),
        compact_items(v, n).subrange(0, compact_items(v, k).len() as int) == compact_items(v, k),
    decreases n - k,
{
    if k < n {
        lemma_items_prefix(v, k, n - 1);
        let a = compact_items(v, n - 1);
        let b = compact_items(v, n);
        assert(b.subrange(0, a.len() as int) =~= a);
        assert(b.subrange(0, compact_items(v, k).len() as int) =~= a.subrange(0, compact_items(v, k).len() as int));
    } else {
        assert(compact_items(v, n).subrange(0, compact_items(v, n).len() as int) =~= compact_items(v, n));
    }
}

/// Characters that a numeral is made of.
pub open spec fn numeral_char(c: char) -> bool {
    c == '-' || c == '+' || c == '.' || c == 'e' || c == 'E' || is_digit(c)
}

proof fn lemma_run_chars(x: Seq<char>, from: int, n: nat)
    requires
        0 <= from <= x.len(),
        n <= digit_run(x.subrange(from, x.len() as int)),
    ensures
        from + n <= x.len(),
        forall|i: int| from <= i < from + n ==> is_digit(#[trigger] x[i]),
{
    let y = x.subrange(from, x.len() as int);
    crate::grammar::lemma_run_digits(y, n);
    assert forall|i: int| from <= i < from + n implies is_digit(#[trigger] x[i]) by {
        assert(y.subrange(0, n as int)[i - from] == x[i]);
    }
}

/// A whole numeral is made of numeral characters only.
pub proof fn lemma_numeral_chars(x: Seq<char>)
    requires
        numeral_len(x) == Some(x.len()),
    ensures
        forall|i: int| 0 <= i < x.len() ==> numeral_char(#[trigger] x[i]),
{
    let a = sign_len(x) as int;
    let xa = x.subrange(a, x.len() as int);
    let c = int_end(x) as int;
    if xa.len() > 0 && xa[0] == '0' {
        assert(x[a] == xa[0]);
    } else {
        lemma_run_chars(x, a, digit_run(xa));
    }
    if float_mark(x, c as nat) {
        let xc = x.subrange(c, x.len() as int);
        let f = frac_len(xc)->0 as int;
        if xc[0] == '.' {
            assert(x[c] == xc[0]);
            assert(xc.drop_first() =~= x.subrange(c + 1, x.len() as int));
            lemma_run_chars(x, c + 1, digit_run(xc.drop_first()));
        }
        let xf = x.subrange(c + f, x.len() as int);
        if xf.len() > 0 && (xf[0] == 'e' || xf[0] == 'E') {
            assert(x[c + f] == xf[0]);
            let sg: int = if xf.len() > 1 && (xf[1] == '+' || xf[1] == '-') { 1 } else { 0 };
            if sg == 1 {
                assert(x[c + f + 1] == xf[1]);
            }
            assert(xf.subrange(1 + sg, xf.len() as int) =~= x.subrange(c + f + 1 + sg, x.len() as int));
            lemma_run_chars(x, c + f + 1 + sg, digit_run(xf.subrange(1 + sg, xf.len() as int)));
        }
        assert forall|i: int| 0 <= i < x.len() implies numeral_char(#[trigger] x[i]) by {
            if i < a {
                assert(x[i] == '-');
            }
        }
    } else {
        assert forall|i: int| 0 <= i < x.len() implies numeral_char(#[trigger] x[i]) by {
            if i < a {
                assert(x[i] == '-');
            }
        }
    }
}

/// No line break nor carriage return in a text.
pub open spec fn one_line(s: Seq<char>) -> bool {
    forall|i: int| 0 <= i < s.len() ==> (#[trigger] s[i]) != '\n' && s[i] != '\r'
}

proof fn lemma_one_line_concat(a: Seq<char>, b: Seq<char>)
    requires
        one_line(a),
        one_line(b),
    ensures
        one_line(a + b),
{
    assert forall|i: int| 0 <= i < (a + b).len() implies (#[trigger] (a + b)[i]) != '\n' && (a + b)[i] != '\r' by {
        if i < a.len() {
            assert((a + b)[i] == a[i]);
        } else {
            assert((a + b)[i] == b[i - a.len()]);
        }
    }
}

proof fn lemma_escaped_one_line(s: Seq<char>)
    ensures
        one_line(escaped(s)),
    decreases s.len(),
{
    if s.len() > 0 {
        lemma_escaped_one_line(s.drop_last());
        let c = s.last();
        assert(one_line(escape_char(c))) by {
            if (c as nat) < 0x20 && c != '\n' && c != '\r' && c != '\t' && c != '"' && c != '\\' && c != '/' {
                assert(hex_char(c as nat / 16) != '\n' && hex_char(c as nat / 16) != '\r');
                assert(hex_char(c as nat % 16) != '\n' && hex_char(c as nat % 16) != '\r');
            }
        }
        lemma_one_line_concat(escaped(s.drop_last()), escape_char(c));
    }
}

/// The compact text of a valid value is one line.
pub proof fn lemma_compact_one_line(v: Value)
    requires
        valid(v),
    ensures
        one_line(compact(v)),
    decreases v, arity(v) + 1,
{
    match v {
        Value::Object(es) => {
            lemma_items_one_line(v, es@.len() as int);
            lemma_one_line_concat(seq!['{'], compact_items(v, es@.len() as int));
            lemma_one_line_concat(seq!['{'] + compact_items(v, es@.len() as int), seq!['}']);
        },
        Value::Array(vs) => {
            lemma_items_one_line(v, vs@.len() as int);
            lemma_one_line_concat(seq!['['], compact_items(v, vs@.len() as int));
            lemma_one_line_concat(seq!['['] + compact_items(v, vs@.len() as int), seq![']']);
        },
        Value::String(sv) => {
            lemma_escaped_one_line(sv@);
            lemma_one_line_concat(seq!['"'], escaped(sv@));
            lemma_one_line_concat(seq!['"'] + escaped(sv@), seq!['"']);
        },
        Value::Integer(i) => {
            let n: nat = if i < 0 { (-i) as nat } else { i as nat };
            lemma_nat_text(n);
            assert forall|j: int| 0 <= j < nat_text(n).len() implies (#[trigger] nat_text(n)[j]) != '\n' by {
                assert(is_digit(nat_text(n)[j]));
            }
            lemma_one_line_concat(seq!['-'], nat_text(n));
        },
        Value::Float(f) => {
            lemma_numeral_chars(f@);
        },
        _ => {},
    }
}

proof fn lemma_items_one_line(v: Value, n: int)
    requires
        valid(v),
        v is Object || v is Array,
        0 <= n <= arity(v),
    ensures
        one_line(compact_items(v, n)),
    decreases v, n,
{
    if n > 0 {
        lemma_items_one_line(v, n - 1);
        let sep: Seq<char> = if n == 1 { seq![] } else { seq![','] };
        lemma_one_line_concat(compact_items(v, n - 1), sep);
        match v {
            Value::Object(es) => {
                crate::print::lemma_entry_decreases(v, es, n - 1);
                lemma_compact_one_line(es@[n - 1].1);
                let k = es@[n - 1].0@;
                lemma_escaped_one_line(k);
                lemma_one_line_concat(seq!['"'], escaped(k));
                lemma_one_line_concat(seq!['"'] + escaped(k), seq!['"']);
                lemma_one_line_concat(compact_items(v, n - 1) + sep, quoted(k));
                lemma_one_line_concat(compact_items(v, n - 1) + sep + quoted(k), seq![':']);
                lemma_one_line_concat(compact_items(v, n - 1) + sep + quoted(k) + seq![':'], compact(es@[n - 1].1));
            },
            Value::Array(vs) => {
                crate::print::lemma_element_decreases(v, vs, n - 1);
                lemma_compact_one_line(vs@[n - 1]);
                lemma_one_line_concat(compact_items(v, n - 1) + sep, compact(vs@[n - 1]));
            },
            _ => {},
        }
    }
}

proof fn lemma_split_from_one_line(rest: Seq<char>, row: Seq<char>)
    requires
        one_line(rest),
    ensures
        split_rows_from(rest, row) == seq![row + rest],
    decreases rest.len(),
{
    if rest.len() == 0 {
        assert(row + rest =~= row);
    } else {
        assert(rest[0] != '\n' && rest[0] != '\r');
        assert(one_line(rest.drop_first())) by {
            assert forall|i: int| 0 <= i < rest.drop_first().len() implies (#[trigger] rest.drop_first()[i]) != '\n'
                && rest.drop_first()[i] != '\r' by {
                assert(rest.drop_first()[i] == rest[i + 1]);
            }
        }
        lemma_split_from_one_line(rest.drop_first(), row.push(rest[0]));
        assert(row.push(rest[0]) + rest.drop_first() =~= row + rest);
    }
}

/// A text of one line, read by a fresh lexer, is the text and a line feed.
pub proof fn lemma_one_line_text(s: Seq<char>)
    requires
        one_line(s),
        s.len() > 0,
        s.len() < usize::MAX,
    ensures
        split_rows(s) == seq![s],
        text_from(seq![s], Some(((0usize, 0usize), char_at(seq![s], (0usize, 0usize))))) == s + seq!['\n'],
{
    lemma_split_from_one_line(s, seq![]);
    assert(Seq::<char>::empty() + s =~= s);
    let rows = seq![s];
    let cur = Some(((0usize, 0usize), char_at(rows, (0usize, 0usize))));
    assert(rows.drop_last() =~= Seq::<Seq<char>>::empty());
    assert(flat(rows) == flat(rows.drop_last()) + s + seq!['\n']);
    assert(flat(rows) =~= s + seq!['\n']);
    assert(fits(rows));
    assert(cursor_ok(rows, cur));
    lemma_text_suffix(rows, cur);
    assert(prefix_len(rows, 1) == prefix_len(rows, 0) + s.len() + 1);
    assert(flat(rows).subrange(0, total_len(rows) as int) =~= flat(rows));
}

/// Skipping whitespace reaches the end only when all that is left is
/// whitespace.
pub proof fn lemma_skip_none_all_ws(rows: Seq<Seq<char>>, cur: Option<(Position, char)>)
    requires
        cursor_ok(rows, cur),
        skip_ws_from(rows, cur) is None,
    ensures
        forall|i: int| 0 <= i < text_from(rows, cur).len() ==> is_ws(#[trigger] text_from(rows, cur)[i]),
    decreases rem(rows, cur),
{
    lemma_text_from(rows, cur);
    lemma_step(rows, cur);
    if cur is Some {
        assert(on_ws(cur));
        let nxt = step(rows, cur);
        lemma_skip_none_all_ws(rows, nxt);
        lemma_text_from(rows, nxt);
        assert forall|i: int| 0 <= i < text_from(rows, cur).len() implies is_ws(#[trigger] text_from(rows, cur)[i]) by {
            if i > 0 {
                assert(text_from(rows, cur)[i] == text_from(rows, nxt)[i - 1]);
            }
        }
    }
}

/// Only whitespace left: skipping it reaches the end.
pub proof fn lemma_skip_to_end(rows: Seq<Seq<char>>, cur: Option<(Position, char)>)
    requires
        cursor_ok(rows, cur),
        forall|i: int| 0 <= i < text_from(rows, cur).len() ==> is_ws(#[trigger] text_from(rows, cur)[i]),
    ensures
        skip_ws_from(rows, cur) is None,
    decreases rem(rows, cur),
{
    lemma_text_from(rows, cur);
    lemma_step(rows, cur);
    if cur is Some {
        assert(is_ws(text_from(rows, cur)[0]));
        assert(on_ws(cur));
        let nxt = step(rows, cur);
        lemma_text_from(rows, nxt);
        assert forall|i: int| 0 <= i < text_from(rows, nxt).len() implies is_ws(#[trigger] text_from(rows, nxt)[i]) by {
            assert(text_from(rows, nxt)[i] == text_from(rows, cur)[i + 1]);
        }
        lemma_skip_to_end(rows, nxt);
    }
}

/// Equal trees print alike.
pub proof fn lemma_same_compact(a: Value, b: Value)
    requires
        same_value(a, b),
    ensures
        compact(a) == compact(b),
    decreases a, arity(a) + 1,
{
    match (a, b) {
        (Value::Object(ea), Value::Object(_)) => {
            lemma_same_items(a, b, ea@.len() as int);
        },
        (Value::Array(va), Value::Array(_)) => {
            lemma_same_items(a, b, va@.len() as int);
        },
        _ => {},
    }
}

proof fn lemma_same_items(a: Value, b: Value, n: int)
    requires
        same_value(a, b),
        a is Object || a is Array,
        0 <= n <= arity(a),
    ensures
        compact_items(a, n) == compact_items(b, n),
    decreases a, n,
{
    if n > 0 {
        lemma_same_items(a, b, n - 1);
        match (a, b) {
            (Value::Object(ea), Value::Object(eb)) => {
                crate::print::lemma_entry_decreases(a, ea, n - 1);
                lemma_same_compact(ea@[n - 1].1, eb@[n - 1].1);
            },
            (Value::Array(va), Value::Array(vb)) => {
                crate::print::lemma_element_decreases(a, va, n - 1);
                lemma_same_compact(va@[n - 1], vb@[n - 1]);
            },
            _ => {},
        }
    }
}

/// The text of a value: indented (`p`, its line starting with `ind`) or
/// compact.
pub open spec fn render(v: Value, ind: Seq<char>, p: bool) -> Seq<char> {
    if p {
        pretty(v, ind)
    } else {
        compact(v)
    }
}

/// The text of the first `k` children, indented or compact.
pub open spec fn render_items(v: Value, ind: Seq<char>, p: bool, k: int) -> Seq<char> {
    if p {
        pretty_items(v, ind, k)
    } else {
        compact_items(v, k)
    }
}

pub open spec fn all_ws(s: Seq<char>) -> bool {
    forall|i: int| 0 <= i < s.len() ==> is_ws(#[trigger] s[i])
}

/// The whitespace before a member or an element.
pub open spec fn gap(ind: Seq<char>, p: bool) -> Seq<char> {
    if p {
        seq!['\n'] + ind + unit()
    } else {
        seq![]
    }
}

/// The whitespace before a closing bracket.
pub open spec fn end_gap(ind: Seq<char>, p: bool) -> Seq<char> {
    if p {
        seq!['\n'] + ind
    } else {
        seq![]
    }
}

/// The text of child `k` after its gap: key, colon and value for a member,
/// the value for an element.
pub open spec fn piece(v: Value, ind: Seq<char>, p: bool, k: int) -> Seq<char> {
    match v {
        Value::Object(es) => quoted(es@[k].0@) + seq![':'] + (if p { seq![' '] } else { seq![] }) + render(
            es@[k].1,
            ind + unit(),
            p,
        ),
        Value::Array(vs) => render(vs@[k], ind + unit(), p),
        _ => seq![],
    }
}

/// Where the gap before child `k` starts, once the comma before it is read.
pub open spec fn head_at(v: Value, ind: Seq<char>, p: bool, lead: int, k: int) -> int {
    lead + 1 + (if k > 0 {
        render_items(v, ind, p, k).len() + 1 + (if p { 1int } else { 0 })
    } else {
        0
    })
}

/// `t` starts with whitespace of length `lead`, then the text of `v`, then a
/// character that ends a value.
pub open spec fn printed_in(t: Seq<char>, v: Value, ind: Seq<char>, p: bool, lead: int) -> bool {
    let r = render(v, ind, p);
    &&& all_ws(ind)
    &&& 0 <= lead
    &&& lead + r.len() < t.len()
    &&& all_ws(t.subrange(0, lead))
    &&& t.subrange(lead, lead + r.len()) == r
    &&& ends_value(t[lead + r.len()])
}

/// A container's compact text with a comma before its closing bracket.
pub open spec fn with_trailing_comma(s: Seq<char>) -> Seq<char> {
    s.subrange(0, s.len() - 1) + seq![','] + seq![s.last()]
}

/// Where the text of a non-empty container ends before its closing part
/// (the whitespace before its closing bracket, and the bracket).
pub open spec fn tail_at(v: Value, ind: Seq<char>, p: bool, lead: int) -> int {
    lead + render(v, ind, p).len() - end_gap(ind, p).len() - 1
}

/// Number of whitespace characters at the start of `s`.
pub open spec fn ws_len(s: Seq<char>) -> nat
    decreases s.len(),
{
    if s.len() > 0 && is_ws(s[0]) {
        1 + ws_len(s.drop_first())
    } else {
        0
    }
}

pub proof fn lemma_ws_len(s: Seq<char>)
    ensures
        ws_len(s) <= s.len(),
        all_ws(s.subrange(0, ws_len(s) as int)),
        ws_len(s) < s.len() ==> !is_ws(s[ws_len(s) as int]),
    decreases s.len(),
{
    if s.len() > 0 && is_ws(s[0]) {
        lemma_ws_len(s.drop_first());
        assert forall|i: int| 0 <= i < ws_len(s) implies is_ws(#[trigger] s.subrange(0, ws_len(s) as int)[i]) by {
            if i > 0 {
                assert(s.subrange(0, ws_len(s) as int)[i] == s.drop_first().subrange(0, ws_len(s.drop_first()) as int)[i
                    - 1]);
            }
        }
        if ws_len(s) < s.len() {
            assert(s[ws_len(s) as int] == s.drop_first()[ws_len(s.drop_first()) as int]);
        }
    }
}

/// After the last child: a comma, then the closing part.
pub open spec fn comma_tail(t: Seq<char>, v: Value, ind: Seq<char>, p: bool, lead: int) -> bool {
    let x0 = tail_at(v, ind, p, lead);
    let eg = end_gap(ind, p);
    &&& x0 + 1 + eg.len() < t.len()
    &&& t[x0] == ','
    &&& t.subrange(x0 + 1, x0 + 1 + eg.len()) == eg
    &&& t[x0 + 1 + eg.len()] == (match v {
        Value::Object(_) => '}',
        _ => ']',
    })
}

/// After the last child: whitespace, then a character that is neither a
/// comma nor the closing bracket (and, right after the child, one that may
/// end a value).
pub open spec fn cut_tail(t: Seq<char>, v: Value, ind: Seq<char>, p: bool, lead: int) -> bool {
    let x0 = tail_at(v, ind, p, lead);
    let w = ws_len(t.subrange(x0, t.len() as int));
    &&& x0 + w < t.len()
    &&& t[x0 + w] != ','
    &&& t[x0 + w] != (match v {
        Value::Object(_) => '}',
        _ => ']',
    })
    &&& (w >= 1 || ends_value(t[x0 + w]))
}

/// `t` starts with whitespace of length `lead`, then the text of the
/// non-empty container `v` up to the end of its last child, then either a
/// comma and the closing part (a trailing comma), or whitespace and a
/// character that neither a comma nor the closing bracket (a missing comma).
pub open spec fn trail_in(t: Seq<char>, v: Value, ind: Seq<char>, p: bool, lead: int) -> bool {
    let r = render(v, ind, p);
    let x = r.len() - end_gap(ind, p).len() - 1;
    &&& (v is Object || v is Array)
    &&& arity(v) > 0
    &&& valid(v)
    &&& all_ws(ind)
    &&& 0 <= lead
    &&& lead + x < t.len()
    &&& all_ws(t.subrange(0, lead))
    &&& t.subrange(lead, lead + x) == r.subrange(0, x)
    &&& (comma_tail(t, v, ind, p, lead) || cut_tail(t, v, ind, p, lead))
}

/// A printed value (`trail` false), or a container printed up to its last
/// child and cut off there (`trail` true).
pub open spec fn shaped(t: Seq<char>, v: Value, ind: Seq<char>, p: bool, lead: int, trail: bool) -> bool {
    if trail {
        trail_in(t, v, ind, p, lead)
    } else {
        printed_in(t, v, ind, p, lead)
    }
}

pub proof fn lemma_pretty_items_prefix(v: Value, ind: Seq<char>, k: int, n: int)
    requires
        0 <= k <= n <= arity(v),
        v is Object || v is Array,
    ensures
        pretty_items(v, ind, k).len() <= pretty_items(v, ind, n).len(),
        pretty_items(v, ind, n).subrange(0, pretty_items(v, ind, k).len() as int) == pretty_items(v, ind, k),
    decreases n - k,
{
    if k < n {
        lemma_pretty_items_prefix(v, ind, k, n - 1);
        let a = pretty_items(v, ind, n - 1);
        let b = pretty_items(v, ind, n);
        assert(b.subrange(0, a.len() as int) =~= a);
        assert(b.subrange(0, pretty_items(v, ind, k).len() as int) =~= a.subrange(
            0,
            pretty_items(v, ind, k).len() as int,
        ));
    } else {
        assert(pretty_items(v, ind, n).subrange(0, pretty_items(v, ind, n).len() as int) =~= pretty_items(v, ind, n));
    }
}

/// Where child `k` stands in a printed container, indented or compact.
#[verifier::spinoff_prover]
#[verifier::rlimit(100)]
pub proof fn lemma_layout_in(t: Seq<char>, v: Value, ind: Seq<char>, p: bool, lead: int, trail: bool, k: int)
    requires
        shaped(t, v, ind, p, lead, trail),
        v is Object || v is Array,
        0 <= k < arity(v),
    ensures
        ({
            let n = arity(v) as int;
            let h = head_at(v, ind, p, lead, k);
            let g = gap(ind, p);
            let pc = piece(v, ind, p, k);
            let h2 = h + g.len() + pc.len();
            let eg = end_gap(ind, p);
            let close = match v {
                Value::Object(_) => '}',
                _ => ']',
            };
            &&& h2 < t.len()
            &&& t.subrange(h, t.len() as int) == g + pc + t.subrange(h2, t.len() as int)
            &&& k + 1 < n ==> t[h2] == ',' && h2 + 1 == head_at(v, ind, p, lead, k + 1)
            &&& k + 1 == n && !trail ==> h2 + eg.len() < t.len() && t.subrange(h2, h2 + eg.len()) == eg && t[h2
                + eg.len()] == close && h2 + eg.len() + 1 == lead + render(v, ind, p).len()
            &&& k + 1 == n && trail ==> h2 == tail_at(v, ind, p, lead)
        }),
{
    let n = arity(v) as int;
    let r = render(v, ind, p);
    let open = match v {
        Value::Object(_) => '{',
        _ => '[',
    };
    let close = match v {
        Value::Object(_) => '}',
        _ => ']',
    };
    let g = gap(ind, p);
    let pc = piece(v, ind, p, k);
    let eg = end_gap(ind, p);
    let inner = ind + unit();
    let items = render_items(v, ind, p, n);
    let ik = render_items(v, ind, p, k);
    let ik1 = render_items(v, ind, p, k + 1);
    let sep: Seq<char> = if k == 0 { seq![] } else if p { seq![',', '\n'] } else { seq![','] };
    let body: Seq<char> = if p { seq!['\n'] + items } else { items };
    let x: Seq<char> = if k == 0 {
        seq![]
    } else if p {
        seq!['\n'] + ik + seq![',']
    } else {
        ik + seq![',']
    };
    if p {
        lemma_pretty_items_prefix(v, ind, k + 1, n);
        assert(ik1 == ik + sep + inner + pc);
        assert(r == seq![open] + body + eg + seq![close]);
        assert(seq!['\n'] + ik1 =~= x + g + pc) by {
            if k == 0 {
                assert(ik =~= Seq::<char>::empty());
            }
        }
    } else {
        lemma_items_prefix(v, k + 1, n);
        assert(ik1 == ik + sep + pc);
        assert(r == seq![open] + body + eg + seq![close]);
        assert(ik1 =~= x + g + pc) by {
            if k == 0 {
                assert(ik =~= Seq::<char>::empty());
            }
        }
    }
    let pre = if p { seq!['\n'] + ik1 } else { ik1 };
    assert(body.subrange(0, pre.len() as int) =~= pre);
    let h = head_at(v, ind, p, lead, k);
    assert(h == lead + 1 + x.len());
    let h2 = h + g.len() + pc.len();
    assert(h2 == lead + 1 + pre.len());
    let m = if trail { r.len() - eg.len() - 1 } else { r.len() as int };
    assert(m == 1 + body.len() || !trail);
    assert forall|j: int| 0 <= j < m implies t[lead + j] == #[trigger] r[j] by {
        if trail {
            assert(t[lead + j] == t.subrange(lead, lead + m)[j]);
        } else {
            assert(t[lead + j] == t.subrange(lead, lead + r.len())[j]);
        }
    }
    assert(pre.len() <= body.len());
    assert forall|j: int| 0 <= j < g.len() + pc.len() implies t[h + j] == (g + pc)[j] by {
        assert(t[h + j] == r[1 + x.len() + j]);
        assert(r[1 + x.len() + j] == body[x.len() + j]);
        assert(body[x.len() + j] == pre[x.len() + j]);
    }
    if k + 1 < n {
        let ik2 = render_items(v, ind, p, k + 2);
        if p {
            lemma_pretty_items_prefix(v, ind, k + 2, n);
            assert(ik2[ik1.len() as int] == ',');
            assert(body[pre.len() as int] == items[ik1.len() as int]);
        } else {
            lemma_items_prefix(v, k + 2, n);
            assert(ik2[ik1.len() as int] == ',');
            assert(body[pre.len() as int] == items[ik1.len() as int]);
        }
        assert(pre.len() < body.len());
        assert(t[h2] == r[1 + pre.len() as int]);
    } else if !trail {
        assert(ik1 == items);
        assert(pre == body);
        assert forall|j: int| 0 <= j < eg.len() implies t[h2 + j] == eg[j] by {
            assert(t[h2 + j] == r[1 + body.len() + j]);
        }
        assert(t.subrange(h2, h2 + eg.len()) =~= eg);
        assert(t[h2 + eg.len()] == r[1 + body.len() as int + eg.len() as int]);
    } else {
        assert(ik1 == items);
        assert(pre == body);
        assert(h2 == lead + m);
    }
    assert(t.subrange(h, t.len() as int) =~= g + pc + t.subrange(h2, t.len() as int));
}

/// A printed empty container: its two brackets.
pub proof fn lemma_layout_in_empty(t: Seq<char>, v: Value, ind: Seq<char>, p: bool, lead: int)
    requires
        printed_in(t, v, ind, p, lead),
        v is Object || v is Array,
        arity(v) == 0,
    ensures
        render(v, ind, p).len() == empty_gap(ind, p).len() + 2,
        all_ws(empty_gap(ind, p)),
        t[lead] == (match v {
            Value::Object(_) => '{',
            _ => '[',
        }),
        t.subrange(lead + 1, t.len() as int) == empty_gap(ind, p) + t.subrange(lead + 1 + empty_gap(ind, p).len(), t.len() as int),
        t[lead + 1 + empty_gap(ind, p).len()] == (match v {
            Value::Object(_) => '}',
            _ => ']',
        }),
{
    assert(compact_items(v, 0) == Seq::<char>::empty());
    assert(pretty_items(v, ind, 0) == Seq::<char>::empty());
    let r = render(v, ind, p);
    let w = empty_gap(ind, p);
    let open = match v {
        Value::Object(_) => '{',
        _ => '[',
    };
    let close = match v {
        Value::Object(_) => '}',
        _ => ']',
    };
    assert(r =~= seq![open] + w + seq![close]);
    assert(all_ws(w)) by {
        assert forall|i: int| 0 <= i < w.len() implies is_ws(#[trigger] w[i]) by {
            if i >= 2 {
                assert(w[i] == ind[i - 2]);
            }
        }
    }
    assert(t[lead] == t.subrange(lead, lead + r.len())[0]);
    assert forall|j: int| 0 <= j < w.len() implies t[lead + 1 + j] == w[j] by {
        assert(t[lead + 1 + j] == t.subrange(lead, lead + r.len())[1 + j]);
    }
    assert(t[lead + 1 + w.len()] == t.subrange(lead, lead + r.len())[1 + w.len() as int]);
    assert(t.subrange(lead + 1, t.len() as int) =~= w + t.subrange(lead + 1 + w.len(), t.len() as int));
}

/// The whitespace between the brackets of an empty container.
pub open spec fn empty_gap(ind: Seq<char>, p: bool) -> Seq<char> {
    if p {
        seq!['\n', '\n'] + ind
    } else {
        seq![]
    }
}

/// The first character of an indented or compact text is that of the
/// compact text.
pub proof fn lemma_render_first(v: Value, ind: Seq<char>, p: bool)
    requires
        valid(v),
    ensures
        render(v, ind, p).len() > 0,
        render(v, ind, p)[0] == compact(v)[0],
        !(v is Object) && !(v is Array) ==> render(v, ind, p) == compact(v),
{
    lemma_first_char(v);
}

/// Skipping a known run of whitespace.
pub proof fn lemma_skip_run(rows: Seq<Seq<char>>, cur: Option<(Position, char)>, w: Seq<char>, rest: Seq<char>)
    requires
        cursor_ok(rows, cur),
        text_from(rows, cur) == w + rest,
        all_ws(w),
        rest.len() > 0,
        !is_ws(rest[0]),
    ensures
        cursor_ok(rows, skip_ws_from(rows, cur)),
        text_from(rows, skip_ws_from(rows, cur)) == rest,
        rem(rows, skip_ws_from(rows, cur)) == rem(rows, cur) - w.len(),
        skip_ws_from(rows, cur) is Some,
        !on_ws(skip_ws_from(rows, cur)),
    decreases w.len(),
{
    lemma_text_from(rows, cur);
    lemma_step(rows, cur);
    if w.len() == 0 {
        assert(w + rest =~= rest);
        assert(!on_ws(cur));
    } else {
        assert((w + rest)[0] == w[0]);
        assert(on_ws(cur));
        let nxt = step(rows, cur);
        lemma_text_from(rows, nxt);
        assert(cur is Some);
        assert(text_from(rows, cur) == seq![cur_char(cur)] + text_from(rows, nxt));
        assert(text_from(rows, nxt) =~= text_from(rows, cur).drop_first());
        assert(text_from(rows, nxt) =~= w.drop_first() + rest);
        assert(all_ws(w.drop_first())) by {
            assert forall|i: int| 0 <= i < w.drop_first().len() implies is_ws(#[trigger] w.drop_first()[i]) by {
                assert(w.drop_first()[i] == w[i + 1]);
            }
        }
        lemma_skip_run(rows, nxt, w.drop_first(), rest);
    }
    lemma_text_from(rows, skip_ws_from(rows, cur));
}

/// No carriage return in a text.
pub open spec fn no_cr(s: Seq<char>) -> bool {
    forall|i: int| 0 <= i < s.len() ==> (#[trigger] s[i]) != '\r'
}

proof fn lemma_no_cr_concat(a: Seq<char>, b: Seq<char>)
    requires
        no_cr(a),
        no_cr(b),
    ensures
        no_cr(a + b),
{
    assert forall|i: int| 0 <= i < (a + b).len() implies (#[trigger] (a + b)[i]) != '\r' by {
        if i < a.len() {
            assert((a + b)[i] == a[i]);
        } else {
            assert((a + b)[i] == b[i - a.len()]);
        }
    }
}

/// The indented text of a valid value has no carriage return.
pub proof fn lemma_pretty_no_cr(v: Value, ind: Seq<char>)
    requires
        valid(v),
        no_cr(ind),
    ensures
        no_cr(pretty(v, ind)),
    decreases v, arity(v) + 1,
{
    let nl = seq!['\n'];
    match v {
        Value::Object(es) => {
            if es@.len() > 0 {
                lemma_pretty_items_no_cr(v, ind, es@.len() as int);
                lemma_no_cr_concat(seq!['{', '\n'], pretty_items(v, ind, es@.len() as int));
                lemma_no_cr_concat(seq!['{', '\n'] + pretty_items(v, ind, es@.len() as int), nl);
                lemma_no_cr_concat(seq!['{', '\n'] + pretty_items(v, ind, es@.len() as int) + nl, ind);
                lemma_no_cr_concat(seq!['{', '\n'] + pretty_items(v, ind, es@.len() as int) + nl + ind, seq!['}']);
            }
        },
        Value::Array(vs) => {
            if vs@.len() > 0 {
                lemma_pretty_items_no_cr(v, ind, vs@.len() as int);
                lemma_no_cr_concat(seq!['[', '\n'], pretty_items(v, ind, vs@.len() as int));
                lemma_no_cr_concat(seq!['[', '\n'] + pretty_items(v, ind, vs@.len() as int), nl);
                lemma_no_cr_concat(seq!['[', '\n'] + pretty_items(v, ind, vs@.len() as int) + nl, ind);
                lemma_no_cr_concat(seq!['[', '\n'] + pretty_items(v, ind, vs@.len() as int) + nl + ind, seq![']']);
            }
        },
        _ => {
            lemma_compact_one_line(v);
        },
    }
}

proof fn lemma_pretty_items_no_cr(v: Value, ind: Seq<char>, n: int)
    requires
        valid(v),
        no_cr(ind),
        v is Object || v is Array,
        0 <= n <= arity(v),
    ensures
        no_cr(pretty_items(v, ind, n)),
    decreases v, n,
{
    if n > 0 {
        lemma_pretty_items_no_cr(v, ind, n - 1);
        let sep: Seq<char> = if n == 1 { seq![] } else { seq![',', '\n'] };
        let inner = ind + unit();
        lemma_no_cr_concat(ind, unit());
        lemma_no_cr_concat(pretty_items(v, ind, n - 1), sep);
        lemma_no_cr_concat(pretty_items(v, ind, n - 1) + sep, inner);
        let pre = pretty_items(v, ind, n - 1) + sep + inner;
        match v {
            Value::Object(es) => {
                crate::print::lemma_entry_decreases(v, es, n - 1);
                lemma_pretty_no_cr(es@[n - 1].1, inner);
                let k = es@[n - 1].0@;
                lemma_escaped_one_line(k);
                lemma_one_line_concat(seq!['"'], escaped(k));
                lemma_one_line_concat(seq!['"'] + escaped(k), seq!['"']);
                lemma_no_cr_concat(pre, quoted(k));
                lemma_no_cr_concat(pre + quoted(k), seq![':', ' ']);
                lemma_no_cr_concat(pre + quoted(k) + seq![':', ' '], pretty(es@[n - 1].1, inner));
            },
            Value::Array(vs) => {
                crate::print::lemma_element_decreases(v, vs, n - 1);
                lemma_pretty_no_cr(vs@[n - 1], inner);
                lemma_no_cr_concat(pre, pretty(vs@[n - 1], inner));
            },
            _ => {},
        }
    }
}

pub proof fn lemma_flat_concat(a: Seq<Seq<char>>, b: Seq<Seq<char>>)
    ensures
        flat(a + b) == flat(a) + flat(b),
    decreases b.len(),
{
    if b.len() == 0 {
        assert(a + b =~= a);
        assert(flat(a) + flat(b) =~= flat(a));
    } else {
        lemma_flat_concat(a, b.drop_last());
        assert((a + b).drop_last() =~= a + b.drop_last());
        assert((a + b).last() == b.last());
        assert(flat(a + b) =~= flat(a) + flat(b));
    }
}

proof fn lemma_flat_one(row: Seq<char>)
    ensures
        flat(seq![row]) == row + seq!['\n'],
{
    let rows = seq![row];
    assert(rows.drop_last() =~= Seq::<Seq<char>>::empty());
    assert(flat(rows.drop_last()) == Seq::<char>::empty());
    assert(rows.last() == row);
    assert(flat(rows) == flat(rows.drop_last()) + rows.last() + seq!['\n']);
    assert(flat(rows) =~= row + seq!['\n']);
}

proof fn lemma_split_flat(rest: Seq<char>, row: Seq<char>)
    requires
        no_cr(rest),
    ensures
        flat(split_rows_from(rest, row)) == row + rest + seq!['\n'],
        split_rows_from(rest, row).len() > 0,
    decreases rest.len(),
{
    if rest.len() == 0 {
        lemma_flat_one(row);
        assert(row + rest =~= row);
    } else {
        assert(no_cr(rest.drop_first())) by {
            assert forall|i: int| 0 <= i < rest.drop_first().len() implies (#[trigger] rest.drop_first()[i]) != '\r' by {
                assert(rest.drop_first()[i] == rest[i + 1]);
            }
        }
        if rest[0] == '\n' {
            lemma_split_flat(rest.drop_first(), seq![]);
            lemma_flat_concat(seq![row], split_rows_from(rest.drop_first(), seq![]));
            lemma_flat_one(row);
            assert(rest =~= seq!['\n'] + rest.drop_first());
            assert(flat(split_rows_from(rest, row)) =~= row + rest + seq!['\n']);
        } else {
            lemma_split_flat(rest.drop_first(), row.push(rest[0]));
            assert(row.push(rest[0]) + rest.drop_first() =~= row + rest);
        }
    }
}

/// A text with no carriage return, read by a fresh lexer, is the text and a
/// line feed.
pub proof fn lemma_text_read(s: Seq<char>)
    requires
        no_cr(s),
        s.len() > 0,
        fits(split_rows(s)),
    ensures
        split_rows(s).len() > 0,
        text_from(split_rows(s), Some(((0usize, 0usize), char_at(split_rows(s), (0usize, 0usize))))) == s + seq!['\n'],
{
    lemma_split_flat(s, seq![]);
    let rows = split_rows(s);
    assert(Seq::<char>::empty() + s =~= s);
    let cur = Some(((0usize, 0usize), char_at(rows, (0usize, 0usize))));
    assert(cursor_ok(rows, cur));
    crate::lexer::lemma_flat(rows);
    lemma_text_suffix(rows, cur);
    assert(flat(rows).subrange(0, total_len(rows) as int) =~= flat(rows));
}

pub proof fn lemma_digit_run_prefix(u: Seq<char>, m: int)
    requires
        digit_run(u) <= m <= u.len(),
    ensures
        digit_run(u.subrange(0, m)) == digit_run(u),
    decreases u.len(),
{
    if u.len() > 0 && is_digit(u[0]) {
        assert(u.subrange(0, m)[0] == u[0]);
        assert(u.subrange(0, m).drop_first() =~= u.drop_first().subrange(0, m - 1));
        lemma_digit_run_prefix(u.drop_first(), m - 1);
    } else if m > 0 {
        assert(u.subrange(0, m)[0] == u[0]);
    }
}

/// The numeral at the start of a text is a whole numeral by itself.
pub proof fn lemma_numeral_prefix(t: Seq<char>, n: nat)
    requires
        numeral_len(t) == Some(n),
        n <= t.len(),
        float_mark(t, int_end(t)),
    ensures
        valid_float(t.subrange(0, n as int)),
{
    let x = t.subrange(0, n as int);
    let a = sign_len(t) as int;
    let c = int_end(t) as int;
    assert(c < n);
    assert(sign_len(x) == a) by {
        if n > 0 {
            assert(x[0] == t[0]);
        }
    }
    let ta = t.subrange(a, t.len() as int);
    let xa = x.subrange(a, x.len() as int);
    assert(xa =~= ta.subrange(0, n - a));
    if ta[0] == '0' {
        assert(xa[0] == ta[0]);
    } else {
        lemma_digit_run_prefix(ta, n - a);
    }
    assert(int_end(x) == c);
    assert(x[c] == t[c]);
    let tc = t.subrange(c, t.len() as int);
    let xc = x.subrange(c, x.len() as int);
    assert(xc =~= tc.subrange(0, n - c));
    assert(xc[0] == tc[0]);
    let f = frac_len(tc)->0 as int;
    if tc[0] == '.' {
        assert(xc.drop_first() =~= tc.drop_first().subrange(0, n - c - 1));
        lemma_digit_run_prefix(tc.drop_first(), n - c - 1);
    }
    assert(frac_len(xc) == Some(f as nat));
    let tf = t.subrange(c + f, t.len() as int);
    let xf = x.subrange(c + f, x.len() as int);
    assert(xf =~= tf.subrange(0, n - c - f));
    if c + f < n {
        assert(xf[0] == tf[0]);
        if tf[0] == 'e' || tf[0] == 'E' {
            let sg: int = if tf.len() > 1 && (tf[1] == '+' || tf[1] == '-') { 1 } else { 0 };
            assert(xf.len() > 1);
            assert(xf[1] == tf[1]);
            assert(xf.subrange(1 + sg, xf.len() as int) =~= tf.subrange(1 + sg, tf.len() as int).subrange(
                0,
                n - c - f - 1 - sg,
            ));
            lemma_digit_run_prefix(tf.subrange(1 + sg, tf.len() as int), n - c - f - 1 - sg);
        }
    } else {
        assert(xf.len() == 0);
    }
}

/// A valid value is well formed.
pub proof fn lemma_valid_wf(v: Value)
    requires
        valid(v),
    ensures
        v.wf(),
    decreases v,
{
    match v {
        Value::Object(es) => {
            assert forall|i: int| 0 <= i < es@.len() implies (#[trigger] es@[i]).1.wf() by {
                crate::print::lemma_entry_decreases(v, es, i);
                lemma_valid_wf(es@[i].1);
            }
        },
        Value::Array(vs) => {
            assert forall|i: int| 0 <= i < vs@.len() implies (#[trigger] vs@[i]).wf() by {
                crate::print::lemma_element_decreases(v, vs, i);
                lemma_valid_wf(vs@[i]);
            }
        },
        _ => {},
    }
}

} // verus!

use vstd::prelude::*;
use crate::text::string_of;
use crate::value::Value;

verus! {

/// Hexadecimal digit (lower case) of a value below 16.
pub open spec fn hex_char(n: nat) -> char {
    if n < 10 {
        ('0' as nat + n) as char
    } else {
        ('a' as nat + n - 10) as char
    }
}

/// How a character is written inside a string literal: quotation mark,
/// backslash, solidus, line feed, carriage return and tab get a short
/// escape, other control characters a `\u00XX` one.
pub open spec fn escape_char(c: char) -> Seq<char> {
    if c == '"' {
        seq!['\\', '"']
    } else if c == '\\' {
        seq!['\\', '\\']
    } else if c == '/' {
        seq!['\\', '/']
    } else if c == '\n' {
        seq!['\\', 'n']
    } else if c == '\r' {
        seq!['\\', 'r']
    } else if c == '\t' {
        seq!['\\', 't']
    } else if (c as nat) < 0x20 {
        seq!['\\', 'u', '0', '0', hex_char(c as nat / 16), hex_char(c as nat % 16)]
    } else {
        seq![c]
    }
}

/// The escaped characters of a string, without quotation marks.
pub open spec fn escaped(s: Seq<char>) -> Seq<char>
    decreases s.len(),
{
    if s.len() == 0 {
        seq![]
    } else {
        escaped(s.drop_last()) + escape_char(s.last())
    }
}

/// A string literal.
pub open spec fn quoted(s: Seq<char>) -> Seq<char> {
    seq!['"'] + escaped(s) + seq!['"']
}

/// Decimal digits of a natural number.
pub open spec fn nat_text(n: nat) -> Seq<char>
    decreases n,
{
    if n < 10 {
        seq![('0' as nat + n) as char]
    } else {
        nat_text(n / 10) + seq![('0' as nat + n % 10) as char]
    }
}

/// Decimal numeral of an integer.
pub open spec fn int_text(i: int) -> Seq<char> {
    if i < 0 {
        seq!['-'] + nat_text((-i) as nat)
    } else {
        nat_text(i as nat)
    }
}

pub open spec fn bool_text(b: bool) -> Seq<char> {
    if b {
        seq!['t', 'r', 'u', 'e']
    } else {
        seq!['f', 'a', 'l', 's', 'e']
    }
}

/// How a value with no children is written.
pub open spec fn leaf_text(v: Value) -> Seq<char> {
    match v {
        Value::Bool(b) => bool_text(b),
        Value::Null => seq!['n', 'u', 'l', 'l'],
        Value::String(s) => quoted(s@),
        Value::Integer(i) => int_text(i as int),
        Value::Float(f) => f@,
        _ => seq![],
    }
}

/// Number of children.
pub open spec fn arity(v: Value) -> nat {
    match v {
        Value::Object(es) => es@.len(),
        Value::Array(vs) => vs@.len(),
        _ => 0,
    }
}

/// The compact text of a value: no whitespace outside strings, members and
/// elements in order.
pub open spec fn compact(v: Value) -> Seq<char>
    decreases v, arity(v) + 1,
{
    match v {
        Value::Object(es) => seq!['{'] + compact_items(v, es@.len() as int) + seq!['}'],
        Value::Array(vs) => seq!['['] + compact_items(v, vs@.len() as int) + seq![']'],
        _ => leaf_text(v),
    }
}

/// The compact text of the first `n` children of `v`, separated by commas.
pub open spec fn compact_items(v: Value, n: int) -> Seq<char>
    decreases v, n,
{
    if n <= 0 || n > arity(v) {
        seq![]
    } else {
        let sep = if n == 1 { seq![] } else { seq![','] };
        match v {
            Value::Object(es) => compact_items(v, n - 1) + sep + quoted(es@[n - 1].0@) + seq![':'] + compact(es@[n - 1].1),
            Value::Array(vs) => compact_items(v, n - 1) + sep + compact(vs@[n - 1]),
            _ => seq![],
        }
    }
}

pub open spec fn unit() -> Seq<char> {
    seq![' ', ' ', ' ', ' ']
}

/// The indented text of a value whose line starts with `ind`: each member or
/// element on a line of its own, one unit (four spaces) deeper, and the
/// closing bracket on a line of its own at `ind` (so an empty container has an
/// empty line between its brackets).
pub open spec fn pretty(v: Value, ind: Seq<char>) -> Seq<char>
    decreases v, arity(v) + 1,
{
    match v {
        Value::Object(es) => seq!['{', '\n'] + pretty_items(v, ind, es@.len() as int) + seq!['\n'] + ind + seq!['}'],
        Value::Array(vs) => seq!['[', '\n'] + pretty_items(v, ind, vs@.len() as int) + seq!['\n'] + ind + seq![']'],
        _ => leaf_text(v),
    }
}

/// The lines of the first `n` children of `v`, separated by `,` and a line break.
pub open spec fn pretty_items(v: Value, ind: Seq<char>, n: int) -> Seq<char>
    decreases v, n,
{
    if n <= 0 || n > arity(v) {
        seq![]
    } else {
        let sep = if n == 1 { seq![] } else { seq![',', '\n'] };
        let inner = ind + unit();
        match v {
            Value::Object(es) => pretty_items(v, ind, n - 1) + sep + inner + quoted(es@[n - 1].0@) + seq![':', ' ']
                + pretty(es@[n - 1].1, inner),
            Value::Array(vs) => pretty_items(v, ind, n - 1) + sep + inner + pretty(vs@[n - 1], inner),
            _ => seq![],
        }
    }
}

pub proof fn lemma_entry_decreases(v: Value, es: Vec<(String, Value)>, i: int)
    requires
        v == Value::Object(es),
        0 <= i < es@.len(),
    ensures
        decreases_to!(v => es@[i].1),
{
    vstd::std_specs::vec::axiom_vec_decreases_to_view(es);
    vstd::seq::axiom_seq_index_decreases(es@, i);
    assert(decreases_to!(v => v->Object_0));
    assert(decreases_to!(es => es@));
    assert(decreases_to!(es@ => es@[i]));
    assert(decreases_to!(es@[i] => es@[i].1));
}

pub proof fn lemma_element_decreases(v: Value, vs: Vec<Value>, i: int)
    requires
        v == Value::Array(vs),
        0 <= i < vs@.len(),
    ensures
        decreases_to!(v => vs@[i]),
{
    vstd::std_specs::vec::axiom_vec_decreases_to_view(vs);
    vstd::seq::axiom_seq_index_decreases(vs@, i);
    assert(decreases_to!(v => v->Array_0));
    assert(decreases_to!(vs => vs@));
    assert(decreases_to!(vs@ => vs@[i]));
}

pub open spec fn kind_name(v: Value) -> Seq<char> {
    match v {
        Value::Object(_) => seq!['O', 'b', 'j', 'e', 'c', 't'],
        Value::Array(_) => seq!['A', 'r', 'r', 'a', 'y'],
        Value::Bool(_) => seq!['B', 'o', 'o', 'l'],
        Value::Null => seq!['N', 'u', 'l', 'l'],
        Value::String(_) => seq!['S', 't', 'r', 'i', 'n', 'g'],
        Value::Integer(_) => seq!['I', 'n', 't', 'e', 'g', 'e', 'r'],
        Value::Float(_) => seq!['F', 'l', 'o', 'a', 't'],
    }
}

/// Appends all of `s` to `out`.
pub fn push_all(out: &mut Vec<char>, s: &Vec<char>)
    ensures
        final(out)@ == old(out)@ + s@,
{
    let mut i: usize = 0;
    while i < s.len()
        invariant
            i <= s@.len(),
            out@ == old(out)@ + s@.subrange(0, i as int),
        decreases s@.len() - i,
    {
        out.push(s[i]);
        i = i + 1;
        assert(out@ =~= old(out)@ + s@.subrange(0, i as int));
    }
    assert(s@.subrange(0, i as int) =~= s@);
}

fn hex_digit_char(n: u32) -> (r: char)
    requires
        n < 16,
    ensures
        r == hex_char(n as nat),
{
    if n < 10 {
        ((('0' as u32) + n) as u8) as char
    } else {
        ((('a' as u32) + n - 10) as u8) as char
    }
}

/// Appends the escaped form of one character.
pub fn push_escaped_char(out: &mut Vec<char>, c: char)
    ensures
        final(out)@ == old(out)@ + escape_char(c),
{
    let v = if c == '"' {
        vec!['\\', '"']
    } else if c == '\\' {
        vec!['\\', '\\']
    } else if c == '/' {
        vec!['\\', '/']
    } else if c == '\n' {
        vec!['\\', 'n']
    } else if c == '\r' {
        vec!['\\', 'r']
    } else if c == '\t' {
        vec!['\\', 't']
    } else if (c as u32) < 0x20 {
        let code = c as u32;
        vec!['\\', 'u', '0', '0', hex_digit_char(code / 16), hex_digit_char(code % 16)]
    } else {
        vec![c]
    };
    assert(v@ =~= escape_char(c));
    push_all(out, &v);
}

/// Appends a string literal for `s`.
pub fn push_quoted(out: &mut Vec<char>, s: &Vec<char>)
    ensures
        final(out)@ == old(out)@ + quoted(s@),
{
    out.push('"');
    let mut i: usize = 0;
    while i < s.len()
        invariant
            i <= s@.len(),
            out@ == old(out)@ + seq!['"'] + escaped(s@.subrange(0, i as int)),
        decreases s@.len() - i,
    {
        let ghost before = out@;
        push_escaped_char(out, s[i]);
        assert(s@.subrange(0, i + 1int).drop_last() =~= s@.subrange(0, i as int));
        i = i + 1;
        assert(out@ =~= old(out)@ + seq!['"'] + escaped(s@.subrange(0, i as int)));
    }
    assert(s@.subrange(0, i as int) =~= s@);
    out.push('"');
    assert(out@ =~= old(out)@ + quoted(s@));
}

/// Appends the decimal digits of `n`.
pub fn push_nat(out: &mut Vec<char>, n: u64)
    ensures
        final(out)@ == old(out)@ + nat_text(n as nat),
    decreases n,
{
    if n < 10 {
        out.push(((('0' as u64) + n) as u8) as char);
        assert(out@ =~= old(out)@ + nat_text(n as nat));
    } else {
        push_nat(out, n / 10);
        out.push(((('0' as u64) + n % 10) as u8) as char);
        assert(out@ =~= old(out)@ + nat_text(n as nat));
    }
}

/// Appends the decimal numeral of `i`.
pub fn push_int(out: &mut Vec<char>, i: i64)
    ensures
        final(out)@ == old(out)@ + int_text(i as int),
{
    if i < 0 {
        out.push('-');
        let m: u64 = if i == i64::MIN { 9223372036854775808u64 } else { (-i) as u64 };
        push_nat(out, m);
        assert(out@ =~= old(out)@ + int_text(i as int));
    } else {
        push_nat(out, i as u64);
    }
}

fn push_leaf(out: &mut Vec<char>, v: &Value)
    requires
        !(v is Object),
        !(v is Array),
    ensures
        final(out)@ == old(out)@ + leaf_text(*v),
{
    match v {
        Value::Bool(b) => {
            let t = if *b { vec!['t', 'r', 'u', 'e'] } else { vec!['f', 'a', 'l', 's', 'e'] };
            assert(t@ =~= bool_text(*b));
            push_all(out, &t);
        },
        Value::Null => {
            let t = vec!['n', 'u', 'l', 'l'];
            assert(t@ =~= leaf_text(*v));
            push_all(out, &t);
        },
        Value::String(s) => {
            let cs = crate::text::chars_of(s.as_str());
            push_quoted(out, &cs);
        },
        Value::Integer(i) => push_int(out, *i),
        Value::Float(f) => {
            let cs = crate::text::chars_of(f.as_str());
            push_all(out, &cs);
        },
        _ => {},
    }
}

/// Appends the compact text of `v`.
pub fn push_compact(out: &mut Vec<char>, v: &Value)
    ensures
        final(out)@ == old(out)@ + compact(*v),
    decreases v,
{
    match v {
        Value::Object(es) => {
            out.push('{');
            let mut i: usize = 0;
            while i < es.len()
                invariant
                    i <= es@.len(),
                    *v == Value::Object(*es),
                    out@ == old(out)@ + seq!['{'] + compact_items(*v, i as int),
                decreases es@.len() - i,
            {
                if i > 0 {
                    out.push(',');
                }
                let ks = crate::text::chars_of(es[i].0.as_str());
                push_quoted(out, &ks);
                out.push(':');
                proof {
                    lemma_entry_decreases(*v, *es, i as int);
                }
                push_compact(out, &es[i].1);
                i = i + 1;
                assert(out@ =~= old(out)@ + seq!['{'] + compact_items(*v, i as int));
            }
            out.push('}');
            assert(out@ =~= old(out)@ + compact(*v));
        },
        Value::Array(vs) => {
            out.push('[');
            let mut i: usize = 0;
            while i < vs.len()
                invariant
                    i <= vs@.len(),
                    *v == Value::Array(*vs),
                    out@ == old(out)@ + seq!['['] + compact_items(*v, i as int),
                decreases vs@.len() - i,
            {
                if i > 0 {
                    out.push(',');
                }
                proof {
                    lemma_element_decreases(*v, *vs, i as int);
                }
                push_compact(out, &vs[i]);
                i = i + 1;
                assert(out@ =~= old(out)@ + seq!['['] + compact_items(*v, i as int));
            }
            out.push(']');
            assert(out@ =~= old(out)@ + compact(*v));
        },
        _ => push_leaf(out, v),
    }
}

/// Appends the indented text of `v`, whose line starts with `ind`.
pub fn push_pretty(out: &mut Vec<char>, v: &Value, ind: &Vec<char>)
    ensures
        final(out)@ == old(out)@ + pretty(*v, ind@),
    decreases v,
{
    let mut inner: Vec<char> = Vec::new();
    push_all(&mut inner, ind);
    push_all(&mut inner, &vec![' ', ' ', ' ', ' ']);
    assert(inner@ =~= ind@ + unit());
    match v {
        Value::Object(es) => {
            out.push('{');
            out.push('\n');
            let mut i: usize = 0;
            while i < es.len()
                invariant
                    i <= es@.len(),
                    *v == Value::Object(*es),
                    inner@ == ind@ + unit(),
                    out@ == old(out)@ + seq!['{', '\n'] + pretty_items(*v, ind@, i as int),
                decreases es@.len() - i,
            {
                if i > 0 {
                    out.push(',');
                    out.push('\n');
                }
                push_all(out, &inner);
                let ks = crate::text::chars_of(es[i].0.as_str());
                push_quoted(out, &ks);
                out.push(':');
                out.push(' ');
                proof {
                    lemma_entry_decreases(*v, *es, i as int);
                }
                push_pretty(out, &es[i].1, &inner);
                i = i + 1;
                assert(out@ =~= old(out)@ + seq!['{', '\n'] + pretty_items(*v, ind@, i as int));
            }
            out.push('\n');
            push_all(out, ind);
            out.push('}');
            assert(out@ =~= old(out)@ + pretty(*v, ind@));
        },
        Value::Array(vs) => {
            out.push('[');
            out.push('\n');
            let mut i: usize = 0;
            while i < vs.len()
                invariant
                    i <= vs@.len(),
                    *v == Value::Array(*vs),
                    inner@ == ind@ + unit(),
                    out@ == old(out)@ + seq!['[', '\n'] + pretty_items(*v, ind@, i as int),
                decreases vs@.len() - i,
            {
                if i > 0 {
                    out.push(',');
                    out.push('\n');
                }
                push_all(out, &inner);
                proof {
                    lemma_element_decreases(*v, *vs, i as int);
                }
                push_pretty(out, &vs[i], &inner);
                i = i + 1;
                assert(out@ =~= old(out)@ + seq!['[', '\n'] + pretty_items(*v, ind@, i as int));
            }
            out.push('\n');
            push_all(out, ind);
            out.push(']');
            assert(out@ =~= old(out)@ + pretty(*v, ind@));
        },
        _ => push_leaf(out, v),
    }
}

/// How a value is written out.
#[derive(PartialEq, Eq, Structural, Clone, Copy, Debug)]
pub enum Indent {
    /// No whitespace outside strings.
    Minified,
    /// One member or element per line, four spaces per level.
    Pretty,
}

impl Indent {
    /// The style for a numeric level: 0 minified, 1 pretty, others none.
    pub fn from_level(level: u8) -> (r: Option<Indent>)
        ensures
            level == 0 ==> r == Some(Indent::Minified),
            level == 1 ==> r == Some(Indent::Pretty),
            level > 1 ==> r is None,
    {
        if level == 0 {
            Some(Indent::Minified)
        } else if level == 1 {
            Some(Indent::Pretty)
        } else {
            None
        }
    }
}

impl Value {
    /// The text in the given style.
    pub fn dump_with(&self, indent: Indent) -> (r: String)
        ensures
            indent == Indent::Minified ==> r@ == compact(*self),
            indent == Indent::Pretty ==> r@ == pretty(*self, seq![]),
    {
        match indent {
            Indent::Minified => self.to_compact_string(),
            Indent::Pretty => self.stringify(),
        }
    }

    /// The name of this value's kind.
    pub fn node_type(&self) -> (r: &'static str)
        ensures
            r@ == kind_name(*self),
    {
        proof {
            reveal_strlit("Object");
            reveal_strlit("Array");
            reveal_strlit("Bool");
            reveal_strlit("Null");
            reveal_strlit("String");
            reveal_strlit("Integer");
            reveal_strlit("Float");
        }
        match self {
            Value::Object(_) => "Object",
            Value::Array(_) => "Array",
            Value::Bool(_) => "Bool",
            Value::Null => "Null",
            Value::String(_) => "String",
            Value::Integer(_) => "Integer",
            Value::Float(_) => "Float",
        }
    }

    /// The compact text: no whitespace outside strings.
    pub fn to_compact_string(&self) -> (r: String)
        ensures
            r@ == compact(*self),
    {
        let mut out: Vec<char> = Vec::new();
        push_compact(&mut out, self);
        assert(out@ =~= compact(*self));
        string_of(&out)
    }

    /// The indented text: four spaces per level, one member or element per line.
    pub fn stringify(&self) -> (r: String)
        ensures
            r@ == pretty(*self, seq![]),
    {
        let mut out: Vec<char> = Vec::new();
        push_pretty(&mut out, self, &Vec::new());
        assert(out@ =~= pretty(*self, seq![]));
        string_of(&out)
    }
}

} // verus!

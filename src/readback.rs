use vstd::prelude::*;
use crate::lexer::{cur_char, cursor_ok, lemma_skip_ws, lemma_text_from, on_ws, rem, seen, skip_ws_from, text_from};
use crate::print::{arity, compact, pretty, quoted, unit};
use crate::rawjson::Position;
use crate::roundtrip::{
    all_ws, end_gap, gap, head_at, lemma_first_char, lemma_layout_in, lemma_layout_in_empty, lemma_render_first,
    lemma_skip_run, piece, printed, printed_in, render, same_value, valid, empty_gap, shaped, trail_in, comma_tail,
    cut_tail, tail_at, ws_len, lemma_ws_len,
};
use crate::token::is_ws;
use crate::value::{keys_unique, Value};

verus! {

/// A container whose children are all valid: its own keys may repeat.
pub open spec fn loose(v: Value) -> bool {
    match v {
        Value::Object(es) => forall|i: int| 0 <= i < es@.len() ==> valid((#[trigger] es@[i]).1),
        Value::Array(vs) => forall|i: int| 0 <= i < vs@.len() ==> valid(#[trigger] vs@[i]),
        _ => false,
    }
}

/// Where key `k` stands among members `m` (the last place, if several), or
/// -1.
pub open spec fn key_index(m: Seq<(Seq<char>, Value)>, k: Seq<char>) -> int
    decreases m.len(),
{
    if m.len() == 0 {
        -1
    } else if m.last().0 == k {
        m.len() - 1
    } else {
        key_index(m.drop_last(), k)
    }
}

pub proof fn lemma_key_index(m: Seq<(Seq<char>, Value)>, k: Seq<char>)
    ensures
        key_index(m, k) >= 0 ==> key_index(m, k) < m.len() && m[key_index(m, k)].0 == k,
        key_index(m, k) < 0 ==> key_index(m, k) == -1 && forall|i: int| 0 <= i < m.len() ==> (#[trigger] m[i]).0 != k,
    decreases m.len(),
{
    if m.len() > 0 && m.last().0 != k {
        lemma_key_index(m.drop_last(), k);
        assert forall|i: int| 0 <= i < m.len() && key_index(m, k) < 0 implies (#[trigger] m[i]).0 != k by {
            if i < m.len() - 1 {
                assert(m[i] == m.drop_last()[i]);
            }
        }
    }
}

/// Members `m` after reading one more with key `k` and value `x`: a known key
/// gets the new value in its place, a new key goes last.
pub open spec fn insert_entry(m: Seq<(Seq<char>, Value)>, k: Seq<char>, x: Value) -> Seq<(Seq<char>, Value)> {
    if key_index(m, k) >= 0 {
        m.update(key_index(m, k), (k, x))
    } else {
        m.push((k, x))
    }
}

/// The members an object reading the first `n` members of `es` holds.
pub open spec fn merge_entries(es: Seq<(String, Value)>, n: int) -> Seq<(Seq<char>, Value)>
    decreases n,
{
    if n <= 0 {
        seq![]
    } else {
        insert_entry(merge_entries(es, n - 1), es[n - 1].0@, es[n - 1].1)
    }
}

/// Members that hold the keys and equal values of `m`, in order.
pub open spec fn entries_like(obj: Seq<(String, Value)>, m: Seq<(Seq<char>, Value)>) -> bool {
    obj.len() == m.len() && forall|i: int|
        0 <= i < obj.len() ==> (#[trigger] obj[i]).0@ == m[i].0 && same_value(obj[i].1, m[i].1)
}

/// Elements read so far equal the first elements of `vs`.
pub open spec fn elements_same(arr: Seq<Value>, vs: Seq<Value>) -> bool {
    arr.len() <= vs.len() && forall|i: int| 0 <= i < arr.len() ==> same_value(#[trigger] arr[i], vs[i])
}

/// Reading a printed container `v`: `k` children are read and `consumed`
/// characters, up to the gap before the next child or just past it.
pub open spec fn at_head(v: Value, ind: Seq<char>, p: bool, lead: int, k: int, consumed: int) -> bool {
    &&& 0 <= k
    &&& (k < arity(v) || (k == 0 && arity(v) == 0))
    &&& (consumed == head_at(v, ind, p, lead, k) || (k < arity(v) && consumed == head_at(v, ind, p, lead, k) + gap(
        ind,
        p,
    ).len()))
}

/// Reading a printed object `v`: where its members stand.
pub open spec fn obj_head(
    v: Value,
    ind: Seq<char>,
    p: bool,
    lead: int,
    obj: Seq<(String, Value)>,
    consumed: int,
    k: int,
) -> bool {
    &&& v is Object
    &&& entries_like(obj, merge_entries(v->Object_0@, k))
    &&& at_head(v, ind, p, lead, k, consumed)
}

/// Reading a printed array `v`: where its elements stand.
pub open spec fn arr_head(v: Value, ind: Seq<char>, p: bool, lead: int, arr: Seq<Value>, consumed: int) -> bool {
    &&& v is Array
    &&& elements_same(arr, v->Array_0@)
    &&& at_head(v, ind, p, lead, arr.len() as int, consumed)
}

/// Reading a printed object `v`: all members read, the closing brace next.
pub open spec fn obj_done(
    v: Value,
    ind: Seq<char>,
    p: bool,
    lead: int,
    obj: Seq<(String, Value)>,
    consumed: int,
) -> bool {
    &&& v is Object
    &&& entries_like(obj, merge_entries(v->Object_0@, v->Object_0@.len() as int))
    &&& consumed + 1 == lead + render(v, ind, p).len()
}

/// Reading a printed array `v`: all elements read, the closing bracket next.
pub open spec fn arr_done(v: Value, ind: Seq<char>, p: bool, lead: int, arr: Seq<Value>, consumed: int) -> bool {
    &&& v is Array
    &&& elements_same(arr, v->Array_0@)
    &&& arr.len() == v->Array_0@.len()
    &&& consumed + 1 == lead + render(v, ind, p).len()
}

/// Where a printed container starts, or one printed with a trailing comma:
/// skipping the leading whitespace reaches its opening bracket.
pub proof fn lemma_container_start(
    t: Seq<char>,
    v: Value,
    ind: Seq<char>,
    p: bool,
    lead: int,
    trail: bool,
    rows: Seq<Seq<char>>,
    cur: Option<(Position, char)>,
)
    requires
        cursor_ok(rows, cur),
        text_from(rows, cur) == t,
        v is Object || v is Array,
        shaped(t, v, ind, p, lead, trail),
    ensures
        ({
            let c1 = skip_ws_from(rows, cur);
            &&& cursor_ok(rows, c1)
            &&& c1 is Some
            &&& rem(rows, c1) == rem(rows, cur) - lead
            &&& text_from(rows, c1) == t.subrange(lead, t.len() as int)
            &&& cur_char(c1) == (match v {
                Value::Object(_) => '{',
                _ => '[',
            })
            &&& seen(rows, c1, true) == c1
        }),
{
    let r = render(v, ind, p);
    let x = if trail { r.len() - end_gap(ind, p).len() - 1 } else { r.len() as int };
    assert(r[0] == (match v {
        Value::Object(_) => '{',
        _ => '[',
    }));
    {
        assert(x >= 1) by {
            assert(r.len() >= 2 + end_gap(ind, p).len()) by {
                if p {
                    assert(r == pretty(v, ind));
                }
            }
        }
        let t1 = t.subrange(lead, t.len() as int);
        assert(t =~= t.subrange(0, lead) + t1);
        assert(t1[0] == t.subrange(lead, lead + x)[0]);
        assert(!is_ws(t1[0]));
        lemma_skip_run(rows, cur, t.subrange(0, lead), t1);
        let c1 = skip_ws_from(rows, cur);
        lemma_text_from(rows, c1);
        lemma_skip_ws(rows, c1);
    }
}

/// A container printed with a trailing comma stays so once its leading
/// whitespace is dropped.
pub proof fn lemma_trail_shift(t: Seq<char>, v: Value, ind: Seq<char>, p: bool, lead: int)
    requires
        trail_in(t, v, ind, p, lead),
    ensures
        trail_in(t.subrange(lead, t.len() as int), v, ind, p, 0),
        shaped(t.subrange(lead, t.len() as int), v, ind, p, 0, true),
        comma_tail(t, v, ind, p, lead) ==> comma_tail(t.subrange(lead, t.len() as int), v, ind, p, 0),
{
    let t1 = t.subrange(lead, t.len() as int);
    let r = render(v, ind, p);
    let eg = end_gap(ind, p);
    let x = r.len() - eg.len() - 1;
    assert(t1.subrange(0, 0) =~= Seq::<char>::empty());
    assert(t1.subrange(0, x) =~= t.subrange(lead, lead + x));
    if comma_tail(t, v, ind, p, lead) {
        assert(t1[x] == t[lead + x]);
        assert(t1.subrange(x + 1, x + 1 + eg.len()) =~= t.subrange(lead + x + 1, lead + x + 1 + eg.len()));
        assert(t1[x + 1 + eg.len()] == t[lead + x + 1 + eg.len()]);
    } else {
        assert(t1.subrange(x, t1.len() as int) =~= t.subrange(lead + x, t.len() as int));
        let w = ws_len(t.subrange(lead + x, t.len() as int));
        assert(t1[x + w] == t[lead + x + w]);
    }
}

/// At the head of child `k`: skipping whitespace reaches the child's text,
/// or the closing bracket of an empty container.
#[verifier::spinoff_prover]
#[verifier::rlimit(100)]
pub proof fn lemma_at_head(
    t: Seq<char>,
    v: Value,
    ind: Seq<char>,
    p: bool,
    lead: int,
    trail: bool,
    k: int,
    consumed: int,
    rows: Seq<Seq<char>>,
    c: Option<(Position, char)>,
)
    requires
        v is Object || v is Array,
        loose(v),
        shaped(t, v, ind, p, lead, trail),
        at_head(v, ind, p, lead, k, consumed),
        cursor_ok(rows, c),
        rem(rows, c) == t.len() - consumed,
        text_from(rows, c) == t.subrange(consumed, t.len() as int),
    ensures
        ({
            let c2 = seen(rows, c, true);
            let close = match v {
                Value::Object(_) => '}',
                _ => ']',
            };
            let h = head_at(v, ind, p, lead, k) + gap(ind, p).len();
            &&& cursor_ok(rows, c2)
            &&& c2 is Some
            &&& seen(rows, c2, true) == c2
            &&& arity(v) == 0 ==> cur_char(c2) == close && t.len() - rem(rows, c2) + 1 == lead + render(v, ind, p).len()
            &&& k < arity(v) ==> {
                &&& rem(rows, c2) == t.len() - h
                &&& text_from(rows, c2) == t.subrange(h, t.len() as int)
                &&& text_from(rows, c2) == piece(v, ind, p, k) + t.subrange(h + piece(v, ind, p, k).len(), t.len() as int)
                &&& cur_char(c2) != close
                &&& (v is Object ==> cur_char(c2) == '"')
            }
        }),
{
    lemma_text_from(rows, c);
    lemma_skip_ws(rows, c);
    if arity(v) == 0 {
        assert(!trail);
        lemma_layout_in_empty(t, v, ind, p, lead);
        assert(consumed == lead + 1);
        let w = empty_gap(ind, p);
        let rest = t.subrange(lead + 1 + w.len(), t.len() as int);
        assert(rest[0] == t[lead + 1 + w.len()]);
        lemma_skip_run(rows, c, w, rest);
        lemma_skip_ws(rows, skip_ws_from(rows, c));
        lemma_text_from(rows, skip_ws_from(rows, c));
    } else {
        lemma_layout_in(t, v, ind, p, lead, trail, k);
        let h0 = head_at(v, ind, p, lead, k);
        let g = gap(ind, p);
        let pc = piece(v, ind, p, k);
        let h = h0 + g.len();
        let tail = t.subrange(h + pc.len(), t.len() as int);
        assert(t.subrange(h0, t.len() as int) == g + pc + tail);
        assert forall|j: int| 0 <= j < t.len() - h implies t.subrange(h, t.len() as int)[j] == (pc + tail)[j] by {
            assert(t.subrange(h, t.len() as int)[j] == t.subrange(h0, t.len() as int)[g.len() + j]);
            assert((g + pc + tail)[g.len() + j] == (pc + tail)[j]);
        }
        assert(t.subrange(h, t.len() as int) =~= pc + tail);
        let w = if consumed == h0 { g } else { Seq::<char>::empty() };
        assert(all_ws(g)) by {
            if p {
                assert forall|i: int| 0 <= i < g.len() implies is_ws(#[trigger] g[i]) by {
                    if i > 0 && i - 1 < ind.len() {
                        assert(g[i] == ind[i - 1]);
                    } else if i > 0 {
                        assert(g[i] == unit()[i - 1 - ind.len()]);
                    }
                }
            }
        }
        assert(text_from(rows, c) =~= w + (pc + tail));
        match v {
            Value::Object(es) => {
                assert(pc[0] == '"');
            },
            Value::Array(vs) => {
                lemma_render_first(vs@[k], ind + unit(), p);
                lemma_first_char(vs@[k]);
            },
            _ => {},
        }
        assert((pc + tail)[0] == pc[0]);
        lemma_skip_run(rows, c, w, pc + tail);
        lemma_skip_ws(rows, skip_ws_from(rows, c));
    }
}

/// A member's key read: the colon follows.
pub proof fn lemma_after_key(
    t: Seq<char>,
    v: Value,
    ind: Seq<char>,
    p: bool,
    lead: int,
    trail: bool,
    k: int,
    rows: Seq<Seq<char>>,
    c: Option<(Position, char)>,
)
    requires
        v is Object,
        loose(v),
        shaped(t, v, ind, p, lead, trail),
        0 <= k < arity(v),
        cursor_ok(rows, c),
        rem(rows, c) == t.len() - (head_at(v, ind, p, lead, k) + gap(ind, p).len() + quoted(v->Object_0@[k].0@).len()),
        text_from(rows, c) == t.subrange(t.len() - rem(rows, c), t.len() as int),
    ensures
        c is Some,
        seen(rows, c, true) == c,
        cur_char(c) == ':',
{
    lemma_text_from(rows, c);
    lemma_layout_in(t, v, ind, p, lead, trail, k);
    let h = head_at(v, ind, p, lead, k) + gap(ind, p).len();
    let q = quoted(v->Object_0@[k].0@);
    let pc = piece(v, ind, p, k);
    assert(t.subrange(head_at(v, ind, p, lead, k), t.len() as int)[gap(ind, p).len() as int + q.len() as int] == pc[q.len() as int]);
    assert(text_from(rows, c)[0] == t[h + q.len()]);
}

/// A member's colon read, or an element's gap skipped: the value follows,
/// printed.
#[verifier::spinoff_prover]
#[verifier::rlimit(100)]
pub proof fn lemma_child_value(
    t: Seq<char>,
    v: Value,
    ind: Seq<char>,
    p: bool,
    lead: int,
    trail: bool,
    k: int,
    rows: Seq<Seq<char>>,
    c: Option<(Position, char)>,
)
    requires
        v is Object || v is Array,
        loose(v),
        shaped(t, v, ind, p, lead, trail),
        0 <= k < arity(v),
        cursor_ok(rows, c),
        rem(rows, c) == t.len() - (head_at(v, ind, p, lead, k) + gap(ind, p).len() + (match v {
            Value::Object(es) => quoted(es@[k].0@).len() + 1,
            _ => 0,
        })),
        text_from(rows, c) == t.subrange(t.len() - rem(rows, c), t.len() as int),
    ensures
        ({
            let child = match v {
                Value::Object(es) => es@[k].1,
                Value::Array(vs) => vs@[k],
                _ => v,
            };
            let lead2: int = if p && v is Object { 1 } else { 0 };
            &&& valid(child)
            &&& printed_in(text_from(rows, c), child, ind + unit(), p, lead2)
            &&& t.len() - rem(rows, c) + lead2 + render(child, ind + unit(), p).len() == head_at(v, ind, p, lead, k)
                + gap(ind, p).len() + piece(v, ind, p, k).len()
        }),
{
    lemma_layout_in(t, v, ind, p, lead, trail, k);
    let h0 = head_at(v, ind, p, lead, k);
    let g = gap(ind, p);
    let pc = piece(v, ind, p, k);
    let h2 = h0 + g.len() + pc.len();
    let child = match v {
        Value::Object(es) => es@[k].1,
        Value::Array(vs) => vs@[k],
        _ => v,
    };
    let lead2: int = if p && v is Object { 1 } else { 0 };
    let rc = render(child, ind + unit(), p);
    let pre: int = match v {
        Value::Object(es) => quoted(es@[k].0@).len() + 1int,
        _ => 0int,
    };
    let tc = text_from(rows, c);
    assert(all_ws(ind + unit())) by {
        assert forall|i: int| 0 <= i < (ind + unit()).len() implies is_ws(#[trigger] (ind + unit())[i]) by {
            if i < ind.len() {
                assert((ind + unit())[i] == ind[i]);
            } else {
                assert((ind + unit())[i] == unit()[i - ind.len()]);
            }
        }
    }
    assert(tc =~= t.subrange(h0 + g.len() + pre, t.len() as int));
    assert(pc.len() == pre + lead2 + rc.len());
    assert forall|j: int| 0 <= j < lead2 + rc.len() implies tc[j] == pc[pre + j] by {
        assert(tc[j] == t[h0 + g.len() + pre + j]);
        assert(t.subrange(h0, t.len() as int)[g.len() + pre + j] == (g + pc + t.subrange(h2, t.len() as int))[g.len()
            + pre + j]);
    }
    assert(tc.subrange(0, lead2) =~= pc.subrange(pre, pre + lead2));
    assert(tc.subrange(lead2, lead2 + rc.len()) =~= rc);
    assert(tc[lead2 + rc.len()] == t[h2]);
    if k + 1 == arity(v) as int && p && !trail {
        let eg = end_gap(ind, p);
        assert(t[h2] == t.subrange(h2, h2 + eg.len())[0]);
    }
    if k + 1 == arity(v) as int && trail && !comma_tail(t, v, ind, p, lead) {
        let s2 = t.subrange(h2, t.len() as int);
        lemma_ws_len(s2);
        if ws_len(s2) >= 1 {
            assert(s2.subrange(0, ws_len(s2) as int)[0] == t[h2]);
        } else {
            assert(s2[0] == t[h2]);
        }
    }
}

/// A child read: a comma follows, or whitespace and the closing bracket.
pub proof fn lemma_after_child(
    t: Seq<char>,
    v: Value,
    ind: Seq<char>,
    p: bool,
    lead: int,
    trail: bool,
    k: int,
    rows: Seq<Seq<char>>,
    c: Option<(Position, char)>,
)
    requires
        v is Object || v is Array,
        loose(v),
        shaped(t, v, ind, p, lead, trail),
        0 <= k < arity(v),
        cursor_ok(rows, c),
        rem(rows, c) == t.len() - (head_at(v, ind, p, lead, k) + gap(ind, p).len() + piece(v, ind, p, k).len()),
        text_from(rows, c) == t.subrange(t.len() - rem(rows, c), t.len() as int),
    ensures
        ({
            let c2 = seen(rows, c, true);
            let close = match v {
                Value::Object(_) => '}',
                _ => ']',
            };
            let h2 = head_at(v, ind, p, lead, k) + gap(ind, p).len() + piece(v, ind, p, k).len();
            &&& cursor_ok(rows, c2)
            &&& c2 is Some
            &&& seen(rows, c2, true) == c2
            &&& k + 1 < arity(v) ==> c2 == c && cur_char(c) == ',' && h2 + 1 == head_at(v, ind, p, lead, k + 1)
            &&& k + 1 == arity(v) && !trail ==> cur_char(c2) == close && t.len() - rem(rows, c2) + 1 == lead
                + render(v, ind, p).len()
            &&& k + 1 == arity(v) && trail ==> h2 == tail_at(v, ind, p, lead)
            &&& k + 1 == arity(v) && trail && comma_tail(t, v, ind, p, lead) ==> c2 == c && cur_char(c) == ','
            &&& k + 1 == arity(v) && trail && !comma_tail(t, v, ind, p, lead) ==> {
                let w = ws_len(t.subrange(h2, t.len() as int));
                &&& cur_char(c2) == t[h2 + w]
                &&& cur_char(c2) != ','
                &&& cur_char(c2) != close
                &&& rem(rows, c2) == t.len() - (h2 + w)
            }
        }),
{
    lemma_text_from(rows, c);
    lemma_skip_ws(rows, c);
    lemma_layout_in(t, v, ind, p, lead, trail, k);
    let h2 = head_at(v, ind, p, lead, k) + gap(ind, p).len() + piece(v, ind, p, k).len();
    let tc = text_from(rows, c);
    assert(tc =~= t.subrange(h2, t.len() as int));
    if k + 1 < arity(v) || (trail && comma_tail(t, v, ind, p, lead)) {
        assert(tc[0] == t[h2]);
        assert(!on_ws(c));
    } else if trail {
        let s2 = t.subrange(h2, t.len() as int);
        lemma_ws_len(s2);
        let w = ws_len(s2);
        let rest = t.subrange(h2 + w, t.len() as int);
        assert(tc =~= s2.subrange(0, w as int) + rest);
        assert(rest[0] == t[h2 + w]);
        assert(s2[w as int] == t[h2 + w]);
        lemma_skip_run(rows, c, s2.subrange(0, w as int), rest);
        lemma_skip_ws(rows, skip_ws_from(rows, c));
        lemma_text_from(rows, skip_ws_from(rows, c));
    } else {
        let eg = end_gap(ind, p);
        let rest = t.subrange(h2 + eg.len(), t.len() as int);
        assert(tc =~= eg + rest);
        assert(all_ws(eg)) by {
            if p {
                assert forall|i: int| 0 <= i < eg.len() implies is_ws(#[trigger] eg[i]) by {
                    if i > 0 {
                        assert(eg[i] == ind[i - 1]);
                    }
                }
            }
        }
        assert(rest[0] == t[h2 + eg.len()]);
        lemma_skip_run(rows, c, eg, rest);
        lemma_skip_ws(rows, skip_ws_from(rows, c));
        lemma_text_from(rows, skip_ws_from(rows, c));
    }
}

/// A container cut off after its last child: the lexer stands past the
/// whitespace that follows it.
pub open spec fn cut_stop(t: Seq<char>, v: Value, ind: Seq<char>, p: bool, lead: int, consumed: int) -> bool {
    &&& !comma_tail(t, v, ind, p, lead)
    &&& cut_tail(t, v, ind, p, lead)
    &&& consumed == tail_at(v, ind, p, lead) + ws_len(t.subrange(tail_at(v, ind, p, lead), t.len() as int))
}

/// Where a cut-off container stopped: the character there is neither a
/// comma nor the closing bracket.
pub proof fn lemma_cut_stop(
    t: Seq<char>,
    v: Value,
    ind: Seq<char>,
    p: bool,
    lead: int,
    consumed: int,
    rows: Seq<Seq<char>>,
    c: Option<(Position, char)>,
)
    requires
        trail_in(t, v, ind, p, lead),
        cut_stop(t, v, ind, p, lead, consumed),
        cursor_ok(rows, c),
        rem(rows, c) == t.len() - consumed,
        text_from(rows, c) == t.subrange(consumed, t.len() as int),
    ensures
        c is Some,
        seen(rows, c, true) == c,
        cur_char(c) == t[consumed],
        cur_char(c) != ',',
        cur_char(c) != (match v {
            Value::Object(_) => '}',
            _ => ']',
        }),
{
    lemma_text_from(rows, c);
    let x0 = tail_at(v, ind, p, lead);
    let s2 = t.subrange(x0, t.len() as int);
    lemma_ws_len(s2);
    assert(s2[ws_len(s2) as int] == t[consumed]);
    assert(text_from(rows, c)[0] == t[consumed]);
    lemma_skip_ws(rows, c);
}

/// The comma after the last child read: whitespace and the closing bracket
/// follow.
pub proof fn lemma_after_trail(
    t: Seq<char>,
    v: Value,
    ind: Seq<char>,
    p: bool,
    lead: int,
    rows: Seq<Seq<char>>,
    c: Option<(Position, char)>,
)
    requires
        trail_in(t, v, ind, p, lead),
        comma_tail(t, v, ind, p, lead),
        cursor_ok(rows, c),
        rem(rows, c) == t.len() - (head_at(v, ind, p, lead, arity(v) - 1) + gap(ind, p).len() + piece(
            v,
            ind,
            p,
            arity(v) - 1,
        ).len() + 1),
        text_from(rows, c) == t.subrange(t.len() - rem(rows, c), t.len() as int),
    ensures
        seen(rows, c, true) is Some,
        cur_char(seen(rows, c, true)) == (match v {
            Value::Object(_) => '}',
            _ => ']',
        }),
{
    let k = arity(v) - 1;
    lemma_layout_in(t, v, ind, p, lead, true, k);
    let h2 = head_at(v, ind, p, lead, k) + gap(ind, p).len() + piece(v, ind, p, k).len();
    let eg = end_gap(ind, p);
    let rest = t.subrange(h2 + 1 + eg.len(), t.len() as int);
    assert(text_from(rows, c) =~= eg + rest);
    assert(all_ws(eg)) by {
        if p {
            assert forall|i: int| 0 <= i < eg.len() implies is_ws(#[trigger] eg[i]) by {
                if i > 0 {
                    assert(eg[i] == ind[i - 1]);
                }
            }
        }
    }
    assert(rest[0] == t[h2 + 1 + eg.len()]);
    lemma_skip_run(rows, c, eg, rest);
    lemma_skip_ws(rows, c);
    lemma_text_from(rows, skip_ws_from(rows, c));
}

/// All children read: the closing bracket is next.
pub proof fn lemma_at_close(
    t: Seq<char>,
    v: Value,
    ind: Seq<char>,
    p: bool,
    lead: int,
    consumed: int,
    rows: Seq<Seq<char>>,
    c: Option<(Position, char)>,
)
    requires
        v is Object || v is Array,
        printed_in(t, v, ind, p, lead),
        consumed + 1 == lead + render(v, ind, p).len(),
        cursor_ok(rows, c),
        rem(rows, c) == t.len() - consumed,
        text_from(rows, c) == t.subrange(consumed, t.len() as int),
    ensures
        c is Some,
        seen(rows, c, true) == c,
        cur_char(c) == (match v {
            Value::Object(_) => '}',
            _ => ']',
        }),
{
    lemma_text_from(rows, c);
    let r = render(v, ind, p);
    assert(r[r.len() - 1] == (match v {
        Value::Object(_) => '}',
        _ => ']',
    })) by {
        if p {
            if arity(v) > 0 {
                assert(r[r.len() - 1] == pretty(v, ind).last());
            }
        }
    }
    assert(t[consumed] == t.subrange(lead, lead + r.len())[r.len() - 1]);
    assert(text_from(rows, c)[0] == t[consumed]);
}

pub proof fn lemma_elements_push(v: Value, before: Seq<Value>, after: Seq<Value>)
    requires
        v is Array,
        elements_same(before, v->Array_0@),
        before.len() < v->Array_0@.len(),
        after == before.push(after.last()),
        same_value(after.last(), v->Array_0@[before.len() as int]),
    ensures
        elements_same(after, v->Array_0@),
{
    let vs = v->Array_0@;
    assert forall|i: int| 0 <= i < after.len() implies same_value(#[trigger] after[i], vs[i]) by {
        if i < before.len() {
            assert(after[i] == before[i]);
        }
    }
}

/// Reading one more member keeps the members like the merged ones.
pub proof fn lemma_members_insert(
    es: Seq<(String, Value)>,
    k: int,
    before: Seq<(String, Value)>,
    after: Seq<(String, Value)>,
    key: String,
    x: Value,
)
    requires
        0 <= k < es.len(),
        entries_like(before, merge_entries(es, k)),
        keys_unique(before),
        key@ == es[k].0@,
        same_value(x, es[k].1),
        (forall|i: int| 0 <= i < before.len() ==> (#[trigger] before[i]).0@ != key@) ==> after == before.push((key, x)),
        forall|i: int|
            0 <= i < before.len() && (#[trigger] before[i]).0@ == key@ ==> after == before.update(i, (before[i].0, x)),
    ensures
        entries_like(after, merge_entries(es, k + 1)),
{
    let m = merge_entries(es, k);
    let kk = es[k].0@;
    lemma_key_index(m, kk);
    let m2 = merge_entries(es, k + 1);
    assert(m2 == insert_entry(m, kk, es[k].1));
    if key_index(m, kk) >= 0 {
        let i = key_index(m, kk);
        assert(before[i].0@ == key@);
        assert(after == before.update(i, (before[i].0, x)));
        assert forall|j: int| 0 <= j < after.len() implies (#[trigger] after[j]).0@ == m2[j].0 && same_value(
            after[j].1,
            m2[j].1,
        ) by {
            if j != i {
                assert(after[j] == before[j]);
            }
        }
    } else {
        assert forall|i: int| 0 <= i < before.len() implies (#[trigger] before[i]).0@ != key@ by {
            assert(before[i].0@ == m[i].0);
        }
        assert forall|j: int| 0 <= j < after.len() implies (#[trigger] after[j]).0@ == m2[j].0 && same_value(
            after[j].1,
            m2[j].1,
        ) by {
            if j < before.len() {
                assert(after[j] == before[j]);
            }
        }
    }
}

/// With unique keys, merging keeps every member as it is.
pub proof fn lemma_merge_unique(es: Seq<(String, Value)>, n: int)
    requires
        keys_unique(es),
        0 <= n <= es.len(),
    ensures
        merge_entries(es, n).len() == n,
        forall|i: int| 0 <= i < n ==> (#[trigger] merge_entries(es, n)[i]) == (es[i].0@, es[i].1),
    decreases n,
{
    if n > 0 {
        lemma_merge_unique(es, n - 1);
        let m = merge_entries(es, n - 1);
        lemma_key_index(m, es[n - 1].0@);
        if key_index(m, es[n - 1].0@) >= 0 {
            let i = key_index(m, es[n - 1].0@);
            assert(es[i].0@ != es[n - 1].0@);
        }
        assert(merge_entries(es, n) == m.push((es[n - 1].0@, es[n - 1].1)));
    }
}

/// Where a printed value starts after whitespace: skipping the whitespace
/// reaches its first character, and the rest is the value printed with no
/// lead; a leaf prints as its compact text.
pub proof fn lemma_value_start(
    t: Seq<char>,
    v: Value,
    ind: Seq<char>,
    p: bool,
    lead: int,
    rows: Seq<Seq<char>>,
    cur: Option<(Position, char)>,
)
    requires
        cursor_ok(rows, cur),
        text_from(rows, cur) == t,
        valid(v),
        printed_in(t, v, ind, p, lead),
    ensures
        ({
            let c1 = skip_ws_from(rows, cur);
            let t1 = text_from(rows, c1);
            &&& cursor_ok(rows, c1)
            &&& c1 is Some
            &&& t1 == t.subrange(lead, t.len() as int)
            &&& rem(rows, c1) == rem(rows, cur) - lead
            &&& cur_char(c1) == compact(v)[0]
            &&& seen(rows, c1, true) == c1
            &&& printed_in(t1, v, ind, p, 0)
            &&& (!(v is Object) && !(v is Array) ==> printed(t1, v) && render(v, ind, p) == compact(v))
        }),
{
    lemma_render_first(v, ind, p);
    lemma_first_char(v);
    let r = render(v, ind, p);
    let t1 = t.subrange(lead, t.len() as int);
    assert(t =~= t.subrange(0, lead) + t1);
    assert(t1[0] == t.subrange(lead, lead + r.len())[0]);
    lemma_skip_run(rows, cur, t.subrange(0, lead), t1);
    let c1 = skip_ws_from(rows, cur);
    lemma_text_from(rows, c1);
    lemma_skip_ws(rows, c1);
    assert(t1.subrange(0, 0) =~= Seq::<char>::empty());
    assert(t1.subrange(0, r.len() as int) =~= t.subrange(lead, lead + r.len()));
    assert(t1[r.len() as int] == t[lead + r.len()]);
}

} // verus!

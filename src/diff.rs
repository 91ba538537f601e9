use vstd::prelude::*;
use itertools::Itertools;
use crate::access::{lemma_obj_get_unique, lemma_value_at_cons, step_get, value_at};
use crate::path::{path_text, JsonIndexer, JsonPath, Step};
use crate::print::{compact, nat_text, push_all, push_compact};
use crate::text::string_of;
use crate::value::{keys_unique, Value};

verus! {

/// Lexicographic order of character sequences by code point, strict.
pub open spec fn seq_lt(a: Seq<char>, b: Seq<char>) -> bool
    decreases a.len(),
{
    if a.len() == 0 {
        b.len() > 0
    } else if b.len() == 0 {
        false
    } else if a[0] != b[0] {
        a[0] < b[0]
    } else {
        seq_lt(a.drop_first(), b.drop_first())
    }
}

pub open spec fn seq_le(a: Seq<char>, b: Seq<char>) -> bool {
    a == b || seq_lt(a, b)
}

/// Relies on `Itertools::sorted_by_key` over `0..n`, keyed by the member's
/// `String` key: the result holds each index once, in ascending key order.
/// `String`'s order is that of its UTF-8 bytes, which is the order of code
/// points.
#[verifier::external_body]
fn sorted_order(entries: &Vec<(String, Value)>) -> (r: Vec<usize>)
    ensures
        r@.len() == entries@.len(),
        forall|i: int| 0 <= i < r@.len() ==> (#[trigger] r@[i]) < entries@.len(),
        forall|i: int, j: int| 0 <= i < j < r@.len() ==> r@[i] != r@[j],
        forall|j: int| 0 <= j < entries@.len() ==> #[trigger] lists(r@, j),
        forall|i: int, j: int|
            0 <= i < j < r@.len() ==> seq_le(
                (#[trigger] entries@[r@[i] as int]).0@,
                (#[trigger] entries@[r@[j] as int]).0@,
            ),
{
    (0..entries.len()).sorted_by_key(|i| &entries[*i].0).collect()
}

/// `j` occurs in `o`.
pub open spec fn lists(o: Seq<usize>, j: int) -> bool {
    exists|i: int| 0 <= i < o.len() && #[trigger] o[i] as int == j
}

/// `o` lists each member index of `es` once, in ascending key order.
pub open spec fn sorted_perm(es: Seq<(String, Value)>, o: Seq<usize>) -> bool {
    &&& o.len() == es.len()
    &&& forall|i: int| 0 <= i < o.len() ==> (#[trigger] o[i]) < es.len()
    &&& forall|i: int, j: int| 0 <= i < j < o.len() ==> o[i] != o[j]
    &&& forall|j: int| 0 <= j < es.len() ==> #[trigger] lists(o, j)
    &&& forall|i: int, j: int|
        0 <= i < j < o.len() ==> seq_le((#[trigger] es[o[i] as int]).0@, (#[trigger] es[o[j] as int]).0@)
}

pub proof fn lemma_lt_asym(a: Seq<char>, b: Seq<char>)
    ensures
        !(seq_lt(a, b) && seq_lt(b, a)),
    decreases a.len(),
{
    if a.len() > 0 && b.len() > 0 && a[0] == b[0] {
        lemma_lt_asym(a.drop_first(), b.drop_first());
    }
}

proof fn lemma_sorted_prefix(es: Seq<(String, Value)>, oa: Seq<usize>, ob: Seq<usize>, n: int)
    requires
        keys_unique(es),
        sorted_perm(es, oa),
        sorted_perm(es, ob),
        0 <= n <= oa.len(),
    ensures
        forall|i: int| 0 <= i < n ==> oa[i] == ob[i],
    decreases n,
{
    if n > 0 {
        lemma_sorted_prefix(es, oa, ob, n - 1);
        let i = n - 1;
        if oa[i] != ob[i] {
            let x = oa[i];
            let y = ob[i];
            assert(lists(ob, x as int));
            let j = choose|j: int| 0 <= j < ob.len() && #[trigger] ob[j] as int == x as int;
            assert(lists(oa, y as int));
            let k = choose|k: int| 0 <= k < oa.len() && #[trigger] oa[k] as int == y as int;
            if j < i {
                assert(oa[j] == ob[j]);
                assert(oa[j] != oa[i]);
            }
            if k < i {
                assert(oa[k] == ob[k]);
                assert(ob[k] != ob[i]);
            }
            assert(j > i);
            assert(k > i);
            assert(seq_le(es[ob[i] as int].0@, es[ob[j] as int].0@));
            assert(seq_le(es[oa[i] as int].0@, es[oa[k] as int].0@));
            if x < y {
                assert(es[x as int].0@ != es[y as int].0@);
            } else {
                assert(es[y as int].0@ != es[x as int].0@);
            }
            lemma_lt_asym(es[x as int].0@, es[y as int].0@);
        }
    }
}

/// With unique keys there is one ascending order of the members.
pub proof fn lemma_sorted_unique(es: Seq<(String, Value)>, oa: Seq<usize>, ob: Seq<usize>)
    requires
        keys_unique(es),
        sorted_perm(es, oa),
        sorted_perm(es, ob),
    ensures
        oa == ob,
{
    lemma_sorted_prefix(es, oa, ob, oa.len() as int);
    assert(oa =~= ob);
}

/// Every well-formed tree has the same shape as itself, so it can be diffed
/// against itself.
pub proof fn lemma_same_shape_reflexive(v: Value)
    requires
        v.wf(),
    ensures
        same_shape(v, v),
    decreases v,
{
    match v {
        Value::Object(es) => {
            assert forall|i: int, j: int|
                0 <= i < es@.len() && 0 <= j < es@.len() && (#[trigger] es@[i]).0@ == (#[trigger] es@[j]).0@ implies same_shape(
                es@[i].1,
                es@[j].1,
            ) by {
                if i < j {
                    assert(es@[i].0@ != es@[j].0@);
                } else if j < i {
                    assert(es@[j].0@ != es@[i].0@);
                }
                crate::print::lemma_entry_decreases(v, es, i);
                lemma_same_shape_reflexive(es@[i].1);
            }
        },
        Value::Array(vs) => {
            assert forall|i: int| 0 <= i < vs@.len() implies same_shape(#[trigger] vs@[i], vs@[i]) by {
                crate::print::lemma_element_decreases(v, vs, i);
                lemma_same_shape_reflexive(vs@[i]);
            }
        },
        _ => {},
    }
}

/// Trees that diff can walk in lock-step: objects of equal size where each
/// pair of members aligned in ascending key order, when their keys are equal,
/// has that shape too; arrays of equal length with elements pairwise of that
/// shape. Leaves of any kind pair with anything.
pub open spec fn same_shape(a: Value, b: Value) -> bool
    decreases a,
{
    match (a, b) {
        (Value::Object(ea), Value::Object(eb)) => ea@.len() == eb@.len() && forall|k: int|
            #![trigger sorted_of(ea@)[k]]
            0 <= k < ea@.len() && 0 <= sorted_of(ea@)[k] < ea@.len() && 0 <= sorted_of(eb@)[k] < eb@.len()
                && ea@[sorted_of(ea@)[k] as int].0@ == eb@[sorted_of(eb@)[k] as int].0@ ==> same_shape(
                ea@[sorted_of(ea@)[k] as int].1,
                eb@[sorted_of(eb@)[k] as int].1,
            ),
        (Value::Array(va), Value::Array(vb)) => va@.len() == vb@.len() && forall|i: int|
            0 <= i < va@.len() ==> same_shape(#[trigger] va@[i], vb@[i]),
        _ => true,
    }
}

/// One ascending order of the members of `es`.
pub open spec fn sorted_of(es: Seq<(String, Value)>) -> Seq<usize> {
    choose|o: Seq<usize>| sorted_perm(es, o)
}

/// Pairs of relative paths, each with one more step in front.
pub open spec fn prefixed(s: Step, t: Step, d: Seq<(Seq<Step>, Seq<Step>)>) -> Seq<(Seq<Step>, Seq<Step>)> {
    Seq::new(d.len(), |k: int| (seq![s] + d[k].0, seq![t] + d[k].1))
}

/// Pairs of relative paths, each under `pa` and `pb`.
pub open spec fn under(pa: Seq<Step>, pb: Seq<Step>, d: Seq<(Seq<Step>, Seq<Step>)>) -> Seq<(Seq<Step>, Seq<Step>)> {
    Seq::new(d.len(), |k: int| (pa + d[k].0, pb + d[k].1))
}

/// The paths of reported pairs.
pub open spec fn pairs_view(out: Seq<(JsonPath, JsonPath)>) -> Seq<(Seq<Step>, Seq<Step>)> {
    Seq::new(out.len(), |k: int| (out[k].0@, out[k].1@))
}

/// What diff reports for `a` and `b`, as relative paths. Objects: the members
/// of each in ascending key order, in lock-step; a pair with equal keys is
/// diffed below that key, a pair with different keys is reported at the
/// keys. Arrays: element by element. Anything else: reported at the root
/// exactly when the two are not equal leaves.
pub open spec fn diff_spec(a: Value, b: Value) -> Seq<(Seq<Step>, Seq<Step>)>
    decreases a, crate::print::arity(a) + 1,
{
    match (a, b) {
        (Value::Object(ea), Value::Object(_)) => diff_items(a, b, ea@.len() as int),
        (Value::Array(va), Value::Array(_)) => diff_items(a, b, va@.len() as int),
        _ => if same_leaf(a, b) {
            seq![]
        } else {
            seq![(seq![], seq![])]
        },
    }
}

/// What diff reports for the first `n` pairs of children in lock-step.
pub open spec fn diff_items(a: Value, b: Value, n: int) -> Seq<(Seq<Step>, Seq<Step>)>
    decreases a, n,
{
    if n <= 0 || n > crate::print::arity(a) {
        seq![]
    } else {
        match (a, b) {
            (Value::Object(ea), Value::Object(eb)) => {
                let ia = sorted_of(ea@)[n - 1] as int;
                let ib = sorted_of(eb@)[n - 1] as int;
                if n - 1 < ea@.len() && n - 1 < eb@.len() && 0 <= ia < ea@.len() && 0 <= ib < eb@.len() {
                    let ka = ea@[ia].0@;
                    let kb = eb@[ib].0@;
                    diff_items(a, b, n - 1) + if ka == kb {
                        prefixed(Step::Key(ka), Step::Key(kb), diff_spec(ea@[ia].1, eb@[ib].1))
                    } else {
                        seq![(seq![Step::Key(ka)], seq![Step::Key(kb)])]
                    }
                } else {
                    seq![]
                }
            },
            (Value::Array(va), Value::Array(vb)) => if n - 1 < vb@.len() {
                diff_items(a, b, n - 1) + prefixed(
                    Step::Index((n - 1) as nat),
                    Step::Index((n - 1) as nat),
                    diff_spec(va@[n - 1], vb@[n - 1]),
                )
            } else {
                seq![]
            },
            _ => seq![],
        }
    }
}

pub proof fn lemma_under_append(
    pa: Seq<Step>,
    pb: Seq<Step>,
    x: Seq<(Seq<Step>, Seq<Step>)>,
    y: Seq<(Seq<Step>, Seq<Step>)>,
)
    ensures
        under(pa, pb, x + y) == under(pa, pb, x) + under(pa, pb, y),
{
    assert(under(pa, pb, x + y) =~= under(pa, pb, x) + under(pa, pb, y));
}

pub proof fn lemma_under_prefixed(pa: Seq<Step>, pb: Seq<Step>, s: Step, t: Step, d: Seq<(Seq<Step>, Seq<Step>)>)
    ensures
        under(pa, pb, prefixed(s, t, d)) == under(pa.push(s), pb.push(t), d),
{
    assert forall|k: int| 0 <= k < d.len() implies #[trigger] under(pa, pb, prefixed(s, t, d))[k] == under(
        pa.push(s),
        pb.push(t),
        d,
    )[k] by {
        assert(pa + (seq![s] + d[k].0) =~= pa.push(s) + d[k].0);
        assert(pb + (seq![t] + d[k].1) =~= pb.push(t) + d[k].1);
    }
    assert(under(pa, pb, prefixed(s, t, d)) =~= under(pa.push(s), pb.push(t), d));
}

pub proof fn lemma_lt_trans(a: Seq<char>, b: Seq<char>, c: Seq<char>)
    requires
        seq_lt(a, b),
        seq_lt(b, c),
    ensures
        seq_lt(a, c),
    decreases a.len(),
{
    if a.len() > 0 && a[0] == b[0] && b[0] == c[0] {
        lemma_lt_trans(a.drop_first(), b.drop_first(), c.drop_first());
    }
}

pub proof fn lemma_lt_total(a: Seq<char>, b: Seq<char>)
    requires
        a != b,
    ensures
        seq_lt(a, b) || seq_lt(b, a),
    decreases a.len(),
{
    if a.len() == 0 {
        if b.len() == 0 {
            assert(a =~= b);
        }
    } else if b.len() > 0 && a[0] == b[0] {
        if a.drop_first() == b.drop_first() {
            assert(a =~= seq![a[0]] + a.drop_first());
            assert(b =~= seq![b[0]] + b.drop_first());
        }
        lemma_lt_total(a.drop_first(), b.drop_first());
    }
}

spec fn key_of(es: Seq<(String, Value)>, o: Seq<usize>, k: int) -> Seq<char> {
    es[o[k] as int].0@
}

/// In an ascending order, the members below a key that is not among them come
/// first.
proof fn lemma_insert_pos(es: Seq<(String, Value)>, o: Seq<usize>, key: Seq<char>, m: int) -> (p: int)
    requires
        keys_unique(es),
        sorted_perm(es, o),
        0 <= m <= o.len(),
        forall|j: int| 0 <= j < es.len() ==> (#[trigger] es[j]).0@ != key,
    ensures
        0 <= p <= m,
        forall|k: int| 0 <= k < p ==> seq_lt(#[trigger] key_of(es, o, k), key),
        forall|k: int| p <= k < m ==> seq_lt(key, #[trigger] key_of(es, o, k)),
    decreases m,
{
    if m == 0 {
        0
    } else {
        let p0 = lemma_insert_pos(es, o, key, m - 1);
        let km = key_of(es, o, m - 1);
        assert(es[o[m - 1] as int].0@ != key);
        lemma_lt_total(km, key);
        if seq_lt(key, km) {
            p0
        } else {
            if p0 < m - 1 {
                assert(seq_lt(key, key_of(es, o, p0)));
                assert(seq_le(es[o[p0] as int].0@, es[o[m - 1] as int].0@));
                if key_of(es, o, p0) != km {
                    lemma_lt_trans(key, key_of(es, o, p0), km);
                }
                lemma_lt_asym(key, km);
            }
            m
        }
    }
}

/// Members with unique keys have an ascending order.
pub proof fn lemma_sorted_exists(es: Seq<(String, Value)>)
    requires
        keys_unique(es),
        es.len() <= usize::MAX,
    ensures
        sorted_perm(es, sorted_of(es)),
    decreases es.len(),
{
    if es.len() == 0 {
        let o = Seq::<usize>::empty();
        assert(sorted_perm(es, o));
    } else {
        let n = (es.len() - 1) as int;
        let rest = es.drop_last();
        assert forall|a: int, b: int| 0 <= a < b < rest.len() implies (#[trigger] rest[a]).0@ != (#[trigger] rest[b]).0@ by {
            assert(rest[a] == es[a]);
            assert(rest[b] == es[b]);
        }
        lemma_sorted_exists(rest);
        let o1 = sorted_of(rest);
        let key = es[n].0@;
        assert forall|j: int| 0 <= j < rest.len() implies (#[trigger] rest[j]).0@ != key by {
            assert(rest[j] == es[j]);
        }
        let p = lemma_insert_pos(rest, o1, key, o1.len() as int);
        let o = o1.subrange(0, p) + seq![n as usize] + o1.subrange(p, o1.len() as int);
        assert(o.len() == es.len());
        assert(forall|k: int| 0 <= k < p ==> o[k] == o1[k]);
        assert(o[p] == n as usize);
        assert(forall|k: int| p < k < o.len() ==> o[k] == o1[k - 1]);
        assert(forall|k: int| 0 <= k < o1.len() ==> o1[k] < n);
        assert forall|k: int| 0 <= k < o.len() implies (#[trigger] o[k]) < es.len() by {
            if k < p {
                assert(o[k] == o1[k]);
            } else if k > p {
                assert(o[k] == o1[k - 1]);
            }
        }
        assert forall|i: int, j: int| 0 <= i < j < o.len() implies o[i] != o[j] by {
            if i < p && j < p {
                assert(o[i] == o1[i] && o[j] == o1[j]);
            } else if i < p && j > p {
                assert(o[i] == o1[i] && o[j] == o1[j - 1]);
            } else if i > p {
                assert(o[i] == o1[i - 1] && o[j] == o1[j - 1]);
            } else if i < p {
                assert(o[i] == o1[i]);
            } else {
                assert(o[j] == o1[j - 1]);
            }
        }
        assert forall|j: int| 0 <= j < es.len() implies #[trigger] lists(o, j) by {
            if j == n {
                assert(o[p] as int == j);
            } else {
                assert(lists(o1, j));
                let i = choose|i: int| 0 <= i < o1.len() && #[trigger] o1[i] as int == j;
                if i < p {
                    assert(o[i] == o1[i]);
                } else {
                    assert(o[i + 1] == o1[i]);
                }
            }
        }
        assert forall|i: int, j: int| 0 <= i < j < o.len() implies seq_le(
            (#[trigger] es[o[i] as int]).0@,
            (#[trigger] es[o[j] as int]).0@,
        ) by {
            if i < p && j < p {
                assert(o[i] == o1[i] && o[j] == o1[j]);
                assert(seq_le(rest[o1[i] as int].0@, rest[o1[j] as int].0@));
            } else if i < p && j == p {
                assert(o[i] == o1[i]);
                assert(seq_lt(key_of(rest, o1, i), key));
            } else if i < p {
                assert(o[i] == o1[i] && o[j] == o1[j - 1]);
                assert(seq_le(rest[o1[i] as int].0@, rest[o1[j - 1] as int].0@));
            } else if i == p {
                assert(o[j] == o1[j - 1]);
                assert(seq_lt(key, key_of(rest, o1, j - 1)));
            } else {
                assert(o[i] == o1[i - 1] && o[j] == o1[j - 1]);
                assert(seq_le(rest[o1[i - 1] as int].0@, rest[o1[j - 1] as int].0@));
            }
        }
        assert(sorted_perm(es, o));
    }
}

/// `c` is `a` with the members of its objects, at any depth, possibly in
/// another order: same keys, and under each key a reordering of the value.
pub open spec fn reordered(a: Value, c: Value) -> bool
    decreases a,
{
    match (a, c) {
        (Value::Object(ea), Value::Object(ec)) => {
            &&& ea@.len() == ec@.len()
            &&& forall|j: int| 0 <= j < ec@.len() ==> has_key(ea@, (#[trigger] ec@[j]).0@)
            &&& forall|i: int|
                0 <= i < ea@.len() ==> exists|j: int|
                    0 <= j < ec@.len() && (#[trigger] ec@[j]).0@ == (#[trigger] ea@[i]).0@ && reordered(ea@[i].1, ec@[j].1)
        },
        (Value::Array(va), Value::Array(vc)) => va@.len() == vc@.len() && forall|i: int|
            0 <= i < va@.len() ==> reordered(#[trigger] va@[i], vc@[i]),
        _ => same_leaf(a, c),
    }
}

/// Some member has key `k`.
#[verifier::opaque]
pub open spec fn has_key(es: Seq<(String, Value)>, k: Seq<char>) -> bool {
    exists|i: int| 0 <= i < es.len() && es[i].0@ == k
}

/// `x` occurs in `s`.
#[verifier::opaque]
pub open spec fn occurs(s: Seq<Seq<char>>, x: Seq<char>) -> bool {
    exists|j: int| 0 <= j < s.len() && s[j] == x
}

proof fn lemma_occurs_at(s: Seq<Seq<char>>, x: Seq<char>) -> (j: int)
    requires
        occurs(s, x),
    ensures
        0 <= j < s.len() && s[j] == x,
{
    reveal(occurs);
    choose|j: int| 0 <= j < s.len() && s[j] == x
}

proof fn lemma_has_key_at(es: Seq<(String, Value)>, k: Seq<char>) -> (i: int)
    requires
        has_key(es, k),
    ensures
        0 <= i < es.len() && es[i].0@ == k,
{
    reveal(has_key);
    choose|i: int| 0 <= i < es.len() && es[i].0@ == k
}

/// Keys in ascending order.
pub open spec fn sorted_keys(es: Seq<(String, Value)>) -> Seq<Seq<char>> {
    Seq::new(es.len(), |k: int| es[sorted_of(es)[k] as int].0@)
}

proof fn lemma_sorted_keys_strict(es: Seq<(String, Value)>)
    requires
        keys_unique(es),
        es.len() <= usize::MAX,
    ensures
        sorted_perm(es, sorted_of(es)),
        forall|i: int, j: int| 0 <= i < j < es.len() ==> seq_lt(sorted_keys(es)[i], sorted_keys(es)[j]),
        forall|i: int| 0 <= i < es.len() ==> occurs(sorted_keys(es), (#[trigger] es[i]).0@),
{
    lemma_sorted_exists(es);
    let o = sorted_of(es);
    assert forall|i: int, j: int| 0 <= i < j < es.len() implies seq_lt(sorted_keys(es)[i], sorted_keys(es)[j]) by {
        assert(seq_le(es[o[i] as int].0@, es[o[j] as int].0@));
        assert(o[i] != o[j]);
        if o[i] < o[j] {
            assert(es[o[i] as int].0@ != es[o[j] as int].0@);
        } else {
            assert(es[o[j] as int].0@ != es[o[i] as int].0@);
        }
    }
    assert forall|i: int| 0 <= i < es.len() implies occurs(sorted_keys(es), (#[trigger] es[i]).0@) by {
        assert(lists(o, i));
        let k = choose|k: int| 0 <= k < o.len() && #[trigger] o[k] as int == i;
        assert(sorted_keys(es)[k] == es[i].0@);
        reveal(occurs);
    }
}

pub proof fn lemma_lt_irrefl(a: Seq<char>)
    ensures
        !seq_lt(a, a),
    decreases a.len(),
{
    if a.len() > 0 {
        lemma_lt_irrefl(a.drop_first());
    }
}

/// Two strictly ascending sequences with the same elements agree up to `n`.
proof fn lemma_strict_same(s1: Seq<Seq<char>>, s2: Seq<Seq<char>>, n: int)
    requires
        s1.len() == s2.len(),
        0 <= n <= s1.len(),
        forall|i: int, j: int| 0 <= i < j < s1.len() ==> seq_lt(s1[i], s1[j]),
        forall|i: int, j: int| 0 <= i < j < s2.len() ==> seq_lt(s2[i], s2[j]),
        forall|i: int| 0 <= i < s1.len() ==> occurs(s2, #[trigger] s1[i]),
        forall|i: int| 0 <= i < s2.len() ==> occurs(s1, #[trigger] s2[i]),
    ensures
        forall|i: int| 0 <= i < n ==> s1[i] == s2[i],
    decreases n,
{
    if n > 0 {
        lemma_strict_same(s1, s2, n - 1);
        let i = n - 1;
        if s1[i] != s2[i] {
            let j = lemma_occurs_at(s2, s1[i]);
            let k = lemma_occurs_at(s1, s2[i]);
            if j < i {
                assert(s2[j] == s1[j]);
                assert(seq_lt(s1[j], s1[i]));
                lemma_lt_irrefl(s1[j]);
            }
            if k < i {
                assert(s1[k] == s2[k]);
                assert(seq_lt(s2[k], s2[i]));
                lemma_lt_irrefl(s2[k]);
            }
            assert(seq_lt(s2[i], s2[j]));
            assert(seq_lt(s1[i], s1[k]));
            lemma_lt_asym(s1[i], s2[i]);
        }
    }
}

/// Two reordered objects: keys in lock-step are equal, and the members under
/// them are reorderings.
proof fn lemma_reordered_objects(ea: Seq<(String, Value)>, ec: Seq<(String, Value)>)
    requires
        keys_unique(ea),
        keys_unique(ec),
        ea.len() <= usize::MAX,
        ec.len() <= usize::MAX,
        ea.len() == ec.len(),
        forall|j: int| 0 <= j < ec.len() ==> has_key(ea, (#[trigger] ec[j]).0@),
        forall|i: int|
            0 <= i < ea.len() ==> exists|j: int|
                0 <= j < ec.len() && (#[trigger] ec[j]).0@ == (#[trigger] ea[i]).0@ && reordered(ea[i].1, ec[j].1),
    ensures
        sorted_perm(ea, sorted_of(ea)),
        sorted_perm(ec, sorted_of(ec)),
        forall|k: int|
            0 <= k < ea.len() ==> (#[trigger] ea[sorted_of(ea)[k] as int]).0@ == ec[sorted_of(ec)[k] as int].0@
                && reordered(ea[sorted_of(ea)[k] as int].1, ec[sorted_of(ec)[k] as int].1),
{
    lemma_sorted_keys_strict(ea);
    lemma_sorted_keys_strict(ec);
    let s1 = sorted_keys(ea);
    let s2 = sorted_keys(ec);
    let oa = sorted_of(ea);
    let oc = sorted_of(ec);
    assert forall|i: int| 0 <= i < s1.len() implies occurs(s2, #[trigger] s1[i]) by {
        let x = oa[i] as int;
        assert(s1[i] == ea[x].0@);
        let y = choose|y: int| 0 <= y < ec.len() && (#[trigger] ec[y]).0@ == (#[trigger] ea[x]).0@ && reordered(ea[x].1, ec[y].1);
        assert(occurs(s2, ec[y].0@));
    }
    assert forall|i: int| 0 <= i < s2.len() implies occurs(s1, #[trigger] s2[i]) by {
        let y = oc[i] as int;
        assert(s2[i] == ec[y].0@);
        assert(has_key(ea, ec[y].0@));
        let x = lemma_has_key_at(ea, ec[y].0@);
        assert(occurs(s1, (ea[x]).0@));
    }
    lemma_strict_same(s1, s2, s1.len() as int);
    assert forall|k: int| 0 <= k < ea.len() implies (#[trigger] ea[sorted_of(ea)[k] as int]).0@ == ec[sorted_of(
        ec,
    )[k] as int].0@ && reordered(ea[sorted_of(ea)[k] as int].1, ec[sorted_of(ec)[k] as int].1) by {
        assert(s1[k] == s2[k]);
        let ia = oa[k] as int;
        let ic = oc[k] as int;
        let j = choose|j: int| 0 <= j < ec.len() && (#[trigger] ec[j]).0@ == (#[trigger] ea[ia]).0@ && reordered(ea[ia].1, ec[j].1);
        if j != ic {
            if j < ic {
                assert(ec[j].0@ != ec[ic].0@);
            } else {
                assert(ec[ic].0@ != ec[j].0@);
            }
        }
    }
}

proof fn lemma_vec_len_fits<T>(v: Vec<T>)
    ensures
        v@.len() <= usize::MAX,
{
    vstd::std_specs::vec::axiom_spec_len(&v);
}

proof fn lemma_items_key_order(a: Value, c: Value, b: Value, n: int)
    requires
        a.wf(),
        c.wf(),
        b.wf(),
        reordered(a, c),
        (a is Object && c is Object && b is Object) || (a is Array && c is Array && b is Array),
        0 <= n <= crate::print::arity(a) + crate::print::arity(b),
    ensures
        diff_items(a, b, n) == diff_items(c, b, n),
        diff_items(b, a, n) == diff_items(b, c, n),
    decreases a, n,
{
    if n > 0 {
        lemma_items_key_order(a, c, b, n - 1);
        let k = n - 1;
        match (a, c, b) {
            (Value::Object(ea), Value::Object(ec), Value::Object(eb)) => {
                lemma_vec_len_fits(ea);
                lemma_vec_len_fits(ec);
                lemma_vec_len_fits(eb);
                lemma_reordered_objects(ea@, ec@);
                lemma_sorted_exists(eb@);
                if k < ea@.len() && k < eb@.len() {
                    let ia = sorted_of(ea@)[k] as int;
                    let ic = sorted_of(ec@)[k] as int;
                    let ib = sorted_of(eb@)[k] as int;
                    assert(ea@[ia].0@ == ec@[ic].0@);
                    crate::print::lemma_entry_decreases(a, ea, ia);
                    lemma_diff_key_order(ea@[ia].1, ec@[ic].1, eb@[ib].1);
                }
            },
            (Value::Array(va), Value::Array(vc), Value::Array(vb)) => {
                if k < va@.len() && k < vb@.len() {
                    crate::print::lemma_element_decreases(a, va, k);
                    lemma_diff_key_order(va@[k], vc@[k], vb@[k]);
                }
            },
            _ => {},
        }
    }
}

/// Diff does not depend on the order of object members: reordering the
/// members of objects anywhere in one tree leaves what diff reports against
/// any other tree unchanged, with the reordered tree on either side.
pub proof fn lemma_diff_key_order(a: Value, c: Value, b: Value)
    requires
        a.wf(),
        c.wf(),
        b.wf(),
        reordered(a, c),
    ensures
        diff_spec(a, b) == diff_spec(c, b),
        diff_spec(b, a) == diff_spec(b, c),
    decreases a, crate::print::arity(a) + crate::print::arity(b) + 1,
{
    match (a, c, b) {
        (Value::Object(ea), Value::Object(ec), Value::Object(eb)) => {
            let n = if ea@.len() >= eb@.len() { ea@.len() as int } else { eb@.len() as int };
            lemma_items_key_order(a, c, b, n);
            lemma_items_key_order(a, c, b, ea@.len() as int);
            lemma_items_key_order(a, c, b, eb@.len() as int);
        },
        (Value::Array(va), Value::Array(vc), Value::Array(vb)) => {
            lemma_items_key_order(a, c, b, va@.len() as int);
            lemma_items_key_order(a, c, b, vb@.len() as int);
        },
        _ => {},
    }
}

/// Two objects, or two arrays.
pub open spec fn both_containers(a: Value, b: Value) -> bool {
    (a is Object && b is Object) || (a is Array && b is Array)
}

/// Leaves that are equal: same kind and same content.
pub open spec fn same_leaf(a: Value, b: Value) -> bool {
    match (a, b) {
        (Value::Bool(x), Value::Bool(y)) => x == y,
        (Value::Null, Value::Null) => true,
        (Value::String(x), Value::String(y)) => x@ == y@,
        (Value::Integer(x), Value::Integer(y)) => x == y,
        (Value::Float(x), Value::Float(y)) => x@ == y@,
        _ => false,
    }
}

/// A divergence between `a` at `ra` and `b` at `rb`: both paths lead to
/// values, and either these are unequal leaves (or a leaf against a
/// container, or an object against an array), or the paths end in different
/// keys.
pub open spec fn diverges(a: Value, b: Value, ra: Seq<Step>, rb: Seq<Step>) -> bool {
    &&& ra.len() == rb.len()
    &&& value_at(a, ra) is Some
    &&& value_at(b, rb) is Some
    &&& {
        ||| (!both_containers(value_at(a, ra)->0, value_at(b, rb)->0) && !same_leaf(
            value_at(a, ra)->0,
            value_at(b, rb)->0,
        ))
        ||| (ra.len() > 0 && rb.len() > 0 && ra.last() is Key && rb.last() is Key && ra.last() != rb.last())
    }
}

/// A reported pair under the paths `pa`, `pb` of `a`, `b`: it extends them,
/// and the rest diverges.
pub open spec fn reported(a: Value, b: Value, pa: Seq<Step>, pb: Seq<Step>, e: (JsonPath, JsonPath)) -> bool {
    &&& e.0@.len() >= pa.len()
    &&& e.1@.len() >= pb.len()
    &&& e.0@.subrange(0, pa.len() as int) == pa
    &&& e.1@.subrange(0, pb.len() as int) == pb
    &&& diverges(a, b, e.0@.subrange(pa.len() as int, e.0@.len() as int), e.1@.subrange(pb.len() as int, e.1@.len() as int))
}

pub proof fn lemma_lift(
    a: Value,
    b: Value,
    sa: Step,
    sb: Step,
    ca: Value,
    cb: Value,
    pa: Seq<Step>,
    pb: Seq<Step>,
    e: (JsonPath, JsonPath),
)
    requires
        step_get(a, sa) == Some(ca),
        step_get(b, sb) == Some(cb),
        reported(ca, cb, pa.push(sa), pb.push(sb), e),
    ensures
        reported(a, b, pa, pb, e),
{
    let ra1 = e.0@.subrange(pa.len() + 1int, e.0@.len() as int);
    let rb1 = e.1@.subrange(pb.len() + 1int, e.1@.len() as int);
    let ra = e.0@.subrange(pa.len() as int, e.0@.len() as int);
    let rb = e.1@.subrange(pb.len() as int, e.1@.len() as int);
    assert(e.0@.subrange(0, pa.len() + 1int) == pa.push(sa));
    assert(e.1@.subrange(0, pb.len() + 1int) == pb.push(sb));
    assert(ra =~= seq![sa] + ra1) by {
        assert(e.0@[pa.len() as int] == e.0@.subrange(0, pa.len() + 1int)[pa.len() as int]);
    }
    assert(rb =~= seq![sb] + rb1) by {
        assert(e.1@[pb.len() as int] == e.1@.subrange(0, pb.len() + 1int)[pb.len() as int]);
    }
    assert(e.0@.subrange(0, pa.len() as int) =~= e.0@.subrange(0, pa.len() + 1int).subrange(0, pa.len() as int));
    assert(e.1@.subrange(0, pb.len() as int) =~= e.1@.subrange(0, pb.len() + 1int).subrange(0, pb.len() as int));
    lemma_value_at_cons(a, sa, ca, ra1);
    lemma_value_at_cons(b, sb, cb, rb1);
    if ra1.len() > 0 {
        assert(ra.last() == ra1.last());
    }
    if rb1.len() > 0 {
        assert(rb.last() == rb1.last());
    }
    assert(value_at(a, ra) == value_at(ca, ra1));
    assert(value_at(b, rb) == value_at(cb, rb1));
    assert(diverges(ca, cb, ra1, rb1));
    assert(diverges(a, b, ra, rb));
    assert(e.0@.subrange(0, pa.len() as int) == pa);
    assert(e.1@.subrange(0, pb.len() as int) == pb);
}

fn leaf_eq(a: &Value, b: &Value) -> (r: bool)
    ensures
        r == same_leaf(*a, *b),
{
    match (a, b) {
        (Value::Bool(x), Value::Bool(y)) => *x == *y,
        (Value::Null, Value::Null) => true,
        (Value::String(x), Value::String(y)) => *x == *y,
        (Value::Integer(x), Value::Integer(y)) => *x == *y,
        (Value::Float(x), Value::Float(y)) => *x == *y,
        _ => false,
    }
}

fn diff_rec(a: &Value, b: &Value, pa: &mut JsonPath, pb: &mut JsonPath, out: &mut Vec<(JsonPath, JsonPath)>)
    requires
        same_shape(*a, *b),
        a.wf(),
        b.wf(),
    ensures
        final(pa)@ == old(pa)@,
        final(pb)@ == old(pb)@,
        final(out)@.len() >= old(out)@.len(),
        forall|k: int| 0 <= k < old(out)@.len() ==> final(out)@[k] == old(out)@[k],
        forall|k: int|
            old(out)@.len() <= k < final(out)@.len() ==> reported(*a, *b, old(pa)@, old(pb)@, #[trigger] final(out)@[k]),
        *a == *b ==> final(out)@.len() == old(out)@.len(),
        pairs_view(final(out)@) == pairs_view(old(out)@) + under(old(pa)@, old(pb)@, diff_spec(*a, *b)),
    decreases a,
{
    match (a, b) {
        (Value::Object(ea), Value::Object(eb)) => {
            let oa = sorted_order(ea);
            let ob = sorted_order(eb);
            proof {
                if *a == *b {
                    lemma_sorted_unique(ea@, oa@, ob@);
                }
                assert(sorted_perm(ea@, oa@));
                assert(sorted_perm(eb@, ob@));
                lemma_sorted_unique(ea@, oa@, sorted_of(ea@));
                lemma_sorted_unique(eb@, ob@, sorted_of(eb@));
                assert(pairs_view(out@) + under(old(pa)@, old(pb)@, diff_items(*a, *b, 0)) =~= pairs_view(out@));
            }
            let mut i: usize = 0;
            while i < oa.len()
                invariant
                    *a == Value::Object(*ea),
                    *b == Value::Object(*eb),
                    same_shape(*a, *b),
                    a.wf(),
                    b.wf(),
                    i <= oa@.len(),
                    oa@.len() == ea@.len(),
                    ob@.len() == eb@.len(),
                    ea@.len() == eb@.len(),
                    forall|k: int| 0 <= k < oa@.len() ==> (#[trigger] oa@[k]) < ea@.len(),
                    forall|k: int| 0 <= k < ob@.len() ==> (#[trigger] ob@[k]) < eb@.len(),
                    *a == *b ==> oa@ == ob@ && out@.len() == old(out)@.len(),
                    oa@ == sorted_of(ea@),
                    ob@ == sorted_of(eb@),
                    pairs_view(out@) == pairs_view(old(out)@) + under(old(pa)@, old(pb)@, diff_items(*a, *b, i as int)),
                    pa@ == old(pa)@,
                    pb@ == old(pb)@,
                    out@.len() >= old(out)@.len(),
                    forall|k: int| 0 <= k < old(out)@.len() ==> out@[k] == old(out)@[k],
                    forall|k: int|
                        old(out)@.len() <= k < out@.len() ==> reported(*a, *b, old(pa)@, old(pb)@, #[trigger] out@[k]),
                decreases oa@.len() - i,
            {
                let ia = oa[i];
                let ib = ob[i];
                let ghost sa = Step::Key(ea@[ia as int].0@);
                let ghost sb = Step::Key(eb@[ib as int].0@);
                proof {
                    lemma_obj_get_unique(ea@, ia as int);
                    lemma_obj_get_unique(eb@, ib as int);
                }
                let ghost ca = ea@[ia as int].1;
                let ghost cb = eb@[ib as int].1;
                assert(step_get(*a, sa) == Some(ca));
                assert(step_get(*b, sb) == Some(cb));
                let ghost mid = out@.len();
                pa.push(JsonIndexer::ObjInd(ea[ia].0.clone()));
                pb.push(JsonIndexer::ObjInd(eb[ib].0.clone()));
                if ea[ia].0 == eb[ib].0 {
                    assert(same_shape(ca, cb));
                    assert(ca.wf());
                    assert(cb.wf());
                    proof {
                        crate::print::lemma_entry_decreases(*a, *ea, ia as int);
                    }
                    let ghost before = pairs_view(out@);
                    diff_rec(&ea[ia].1, &eb[ib].1, pa, pb, out);
                    proof {
                        let d = diff_spec(ca, cb);
                        assert(diff_items(*a, *b, i + 1int) == diff_items(*a, *b, i as int) + prefixed(sa, sb, d));
                        lemma_under_append(old(pa)@, old(pb)@, diff_items(*a, *b, i as int), prefixed(sa, sb, d));
                        lemma_under_prefixed(old(pa)@, old(pb)@, sa, sb, d);
                        assert(pairs_view(out@) =~= pairs_view(old(out)@) + under(old(pa)@, old(pb)@, diff_items(*a, *b, i + 1int)));
                    }
                    assert forall|k: int| old(out)@.len() <= k < out@.len() implies reported(
                        *a,
                        *b,
                        old(pa)@,
                        old(pb)@,
                        #[trigger] out@[k],
                    ) by {
                        if k >= mid {
                            lemma_lift(*a, *b, sa, sb, ca, cb, old(pa)@, old(pb)@, out@[k]);
                        }
                    }
                } else {
                    let e = (pa.copied(), pb.copied());
                    proof {
                        let ra = e.0@.subrange(old(pa)@.len() as int, e.0@.len() as int);
                        let rb = e.1@.subrange(old(pb)@.len() as int, e.1@.len() as int);
                        assert(ra =~= seq![sa]);
                        assert(rb =~= seq![sb]);
                        assert(e.0@.subrange(0, old(pa)@.len() as int) =~= old(pa)@);
                        assert(e.1@.subrange(0, old(pb)@.len() as int) =~= old(pb)@);
                        lemma_value_at_cons(*a, sa, ca, seq![]);
                        lemma_value_at_cons(*b, sb, cb, seq![]);
                        assert(seq![sa] + Seq::<Step>::empty() =~= seq![sa]);
                        assert(seq![sb] + Seq::<Step>::empty() =~= seq![sb]);
                    }
                    let ghost before = pairs_view(out@);
                    out.push(e);
                    proof {
                        let one = seq![(seq![sa], seq![sb])];
                        assert(diff_items(*a, *b, i + 1int) == diff_items(*a, *b, i as int) + one);
                        lemma_under_append(old(pa)@, old(pb)@, diff_items(*a, *b, i as int), one);
                        assert(old(pa)@ + seq![sa] =~= old(pa)@.push(sa));
                        assert(old(pb)@ + seq![sb] =~= old(pb)@.push(sb));
                        assert(under(old(pa)@, old(pb)@, one) =~= seq![(old(pa)@.push(sa), old(pb)@.push(sb))]);
                        assert(pairs_view(out@) =~= before.push((e.0@, e.1@)));
                        assert(pairs_view(out@) =~= pairs_view(old(out)@) + under(old(pa)@, old(pb)@, diff_items(*a, *b, i + 1int)));
                    }
                }
                pa.pop();
                pb.pop();
                i = i + 1;
            }
            proof {
                assert(diff_spec(*a, *b) == diff_items(*a, *b, ea@.len() as int));
            }
        },
        (Value::Array(va), Value::Array(vb)) => {
            let mut i: usize = 0;
            assert(pairs_view(out@) + under(old(pa)@, old(pb)@, diff_items(*a, *b, 0)) =~= pairs_view(out@));
            while i < va.len()
                invariant
                    *a == Value::Array(*va),
                    *b == Value::Array(*vb),
                    same_shape(*a, *b),
                    a.wf(),
                    b.wf(),
                    i <= va@.len(),
                    va@.len() == vb@.len(),
                    *a == *b ==> out@.len() == old(out)@.len(),
                    pairs_view(out@) == pairs_view(old(out)@) + under(old(pa)@, old(pb)@, diff_items(*a, *b, i as int)),
                    pa@ == old(pa)@,
                    pb@ == old(pb)@,
                    out@.len() >= old(out)@.len(),
                    forall|k: int| 0 <= k < old(out)@.len() ==> out@[k] == old(out)@[k],
                    forall|k: int|
                        old(out)@.len() <= k < out@.len() ==> reported(*a, *b, old(pa)@, old(pb)@, #[trigger] out@[k]),
                decreases va@.len() - i,
            {
                let ghost s = Step::Index(i as nat);
                let ghost ca = va@[i as int];
                let ghost cb = vb@[i as int];
                assert(step_get(*a, s) == Some(ca));
                assert(step_get(*b, s) == Some(cb));
                assert(same_shape(ca, cb));
                assert(ca.wf());
                assert(cb.wf());
                let ghost mid = out@.len();
                pa.push(JsonIndexer::ArrInd(i));
                pb.push(JsonIndexer::ArrInd(i));
                proof {
                    crate::print::lemma_element_decreases(*a, *va, i as int);
                }
                diff_rec(&va[i], &vb[i], pa, pb, out);
                proof {
                    let d = diff_spec(ca, cb);
                    assert(diff_items(*a, *b, i + 1int) == diff_items(*a, *b, i as int) + prefixed(s, s, d));
                    lemma_under_append(old(pa)@, old(pb)@, diff_items(*a, *b, i as int), prefixed(s, s, d));
                    lemma_under_prefixed(old(pa)@, old(pb)@, s, s, d);
                    assert(pairs_view(out@) =~= pairs_view(old(out)@) + under(old(pa)@, old(pb)@, diff_items(*a, *b, i + 1int)));
                }
                assert forall|k: int| old(out)@.len() <= k < out@.len() implies reported(
                    *a,
                    *b,
                    old(pa)@,
                    old(pb)@,
                    #[trigger] out@[k],
                ) by {
                    if k >= mid {
                        lemma_lift(*a, *b, s, s, ca, cb, old(pa)@, old(pb)@, out@[k]);
                    }
                }
                pa.pop();
                pb.pop();
                i = i + 1;
            }
            proof {
                assert(diff_spec(*a, *b) == diff_items(*a, *b, va@.len() as int));
            }
        },
        _ => {
            if !leaf_eq(a, b) {
                let e = (pa.copied(), pb.copied());
                proof {
                    assert(e.0@.subrange(old(pa)@.len() as int, e.0@.len() as int) =~= Seq::<Step>::empty());
                    assert(e.1@.subrange(old(pb)@.len() as int, e.1@.len() as int) =~= Seq::<Step>::empty());
                    assert(e.0@.subrange(0, old(pa)@.len() as int) =~= old(pa)@);
                    assert(e.1@.subrange(0, old(pb)@.len() as int) =~= old(pb)@);
                }
                let ghost before = pairs_view(out@);
                out.push(e);
                assert(pairs_view(out@) =~= before.push((e.0@, e.1@)));
            }
            assert(pairs_view(out@) =~= pairs_view(old(out)@) + under(old(pa)@, old(pb)@, diff_spec(*a, *b)));
        },
    }
}

/// The divergences between two trees of the same shape, as pairs of paths.
/// Object members are visited in key order, so member order does not matter.
pub fn diff_value(a: &Value, b: &Value) -> (r: Vec<(JsonPath, JsonPath)>)
    requires
        same_shape(*a, *b),
        a.wf(),
        b.wf(),
    ensures
        forall|k: int| 0 <= k < r@.len() ==> diverges(*a, *b, (#[trigger] r@[k]).0@, r@[k].1@),
        *a == *b ==> r@.len() == 0,
        pairs_view(r@) == diff_spec(*a, *b),
{
    let mut out: Vec<(JsonPath, JsonPath)> = Vec::new();
    let mut pa = JsonPath::new();
    let mut pb = JsonPath::new();
    diff_rec(a, b, &mut pa, &mut pb, &mut out);
    assert(pairs_view(out@) =~= diff_spec(*a, *b));
    assert forall|k: int| 0 <= k < out@.len() implies diverges(*a, *b, (#[trigger] out@[k]).0@, out@[k].1@) by {
        assert(reported(*a, *b, seq![], seq![], out@[k]));
        assert(out@[k].0@.subrange(0, out@[k].0@.len() as int) =~= out@[k].0@);
        assert(out@[k].1@.subrange(0, out@[k].1@.len() as int) =~= out@[k].1@);
    }
    out
}

/// Whether two paths end alike: both at the root, or in the same step.
pub open spec fn same_last(pa: Seq<Step>, pb: Seq<Step>) -> bool {
    (pa.len() == 0 && pb.len() == 0) || (pa.len() > 0 && pb.len() > 0 && pa.last() == pb.last())
}

/// A line on one divergence. Where the paths end alike:
/// `<path>: different value <a's value> and <b's value>`, values in compact
/// text. Otherwise: `<parent path>: different key <key of a> and <key of b>`.
pub open spec fn detail_text(a: Value, b: Value, pa: Seq<Step>, pb: Seq<Step>) -> Seq<char> {
    if same_last(pa, pb) {
        path_text(pa) + different_value() + compact(value_at(a, pa)->0) + and_text() + compact(value_at(b, pb)->0)
    } else {
        path_text(pa.drop_last()) + different_key() + step_debug(pa.last()) + and_text() + step_debug(pb.last())
    }
}

/// What `std`'s `Debug` writes for a string: the text quoted and escaped.
pub uninterp spec fn debug_text(s: Seq<char>) -> Seq<char>;

/// Relies on `<str as Debug>::fmt` (through `format!("{:?}")`): the text
/// depends on the characters alone.
#[verifier::external_body]
fn debug_of(s: &str) -> (r: String)
    ensures
        r@ == debug_text(s@),
{
    format!("{:?}", s)
}

pub open spec fn obj_ind_text(key_debug: Seq<char>) -> Seq<char> {
    seq!['O', 'b', 'j', 'I', 'n', 'd', '('] + key_debug + seq![')']
}

pub open spec fn arr_ind_text(n: nat) -> Seq<char> {
    seq!['A', 'r', 'r', 'I', 'n', 'd', '('] + nat_text(n) + seq![')']
}

/// How a step is written in a line on a key mismatch: as the `Debug` form of
/// the step, `ObjInd("key")` or `ArrInd(3)`.
pub open spec fn step_debug(s: Step) -> Seq<char> {
    match s {
        Step::Key(k) => obj_ind_text(debug_text(k)),
        Step::Index(n) => arr_ind_text(n),
    }
}

/// `ObjInd(` and the `Debug` text of a key, then `)`.
pub fn obj_ind_of(key_debug: &Vec<char>) -> (r: Vec<char>)
    ensures
        r@ == obj_ind_text(key_debug@),
{
    let mut r = vec!['O', 'b', 'j', 'I', 'n', 'd', '('];
    push_all(&mut r, key_debug);
    r.push(')');
    assert(r@ =~= obj_ind_text(key_debug@));
    r
}

pub open spec fn different_value() -> Seq<char> {
    seq![':', ' ', 'd', 'i', 'f', 'f', 'e', 'r', 'e', 'n', 't', ' ', 'v', 'a', 'l', 'u', 'e', ' ']
}

pub open spec fn different_key() -> Seq<char> {
    seq![':', ' ', 'd', 'i', 'f', 'f', 'e', 'r', 'e', 'n', 't', ' ', 'k', 'e', 'y', ' ']
}

pub open spec fn and_text() -> Seq<char> {
    seq![' ', 'a', 'n', 'd', ' ']
}

fn push_step(out: &mut Vec<char>, step: &JsonIndexer)
    ensures
        final(out)@ == old(out)@ + step_debug(crate::path::step_of(*step)),
{
    match step {
        JsonIndexer::ObjInd(k) => {
            let d = debug_of(k.as_str());
            let dc = crate::text::chars_of(d.as_str());
            let t = obj_ind_of(&dc);
            push_all(out, &t);
        },
        JsonIndexer::ArrInd(n) => {
            let ghost before = out@;
            out.push('A');
            out.push('r');
            out.push('r');
            out.push('I');
            out.push('n');
            out.push('d');
            out.push('(');
            crate::print::push_nat(out, *n as u64);
            out.push(')');
            assert(out@ =~= before + arr_ind_text(*n as nat));
        },
    }
}

/// One line per divergence, in the order given.
pub fn detail_lines(a: &Value, b: &Value, pairs: &Vec<(JsonPath, JsonPath)>) -> (r: Vec<String>)
    requires
        forall|k: int| 0 <= k < pairs@.len() ==> diverges(*a, *b, (#[trigger] pairs@[k]).0@, pairs@[k].1@),
    ensures
        r@.len() == pairs@.len(),
        forall|k: int| 0 <= k < r@.len() ==> (#[trigger] r@[k])@ == detail_text(*a, *b, pairs@[k].0@, pairs@[k].1@),
{
    let dv = vec![':', ' ', 'd', 'i', 'f', 'f', 'e', 'r', 'e', 'n', 't', ' ', 'v', 'a', 'l', 'u', 'e', ' '];
    let dk = vec![':', ' ', 'd', 'i', 'f', 'f', 'e', 'r', 'e', 'n', 't', ' ', 'k', 'e', 'y', ' '];
    let and = vec![' ', 'a', 'n', 'd', ' '];
    assert(dv@ =~= different_value());
    assert(dk@ =~= different_key());
    assert(and@ =~= and_text());
    let mut r: Vec<String> = Vec::new();
    let mut k: usize = 0;
    while k < pairs.len()
        invariant
            k <= pairs@.len(),
            r@.len() == k,
            dv@ == different_value(),
            dk@ == different_key(),
            and@ == and_text(),
            forall|j: int| 0 <= j < pairs@.len() ==> diverges(*a, *b, (#[trigger] pairs@[j]).0@, pairs@[j].1@),
            forall|j: int| 0 <= j < k ==> (#[trigger] r@[j])@ == detail_text(*a, *b, pairs@[j].0@, pairs@[j].1@),
        decreases pairs@.len() - k,
    {
        let pa = &pairs[k].0;
        let pb = &pairs[k].1;
        assert(diverges(*a, *b, pa@, pb@));
        let mut out: Vec<char> = Vec::new();
        let la = pa.last();
        let lb = pb.last();
        let alike = match (la, lb) {
            (None, None) => true,
            (Some(x), Some(y)) => x.same(y),
            _ => false,
        };
        if alike {
            let t = pa.to_text();
            let tc = crate::text::chars_of(t.as_str());
            push_all(&mut out, &tc);
            push_all(&mut out, &dv);
            match (a.get_path(pa), b.get_path(pb)) {
                (Some(x), Some(y)) => {
                    push_compact(&mut out, x);
                    push_all(&mut out, &and);
                    push_compact(&mut out, y);
                },
                _ => {},
            }
        } else {
            match (pa.split_last(), la, lb) {
                (Some((parent, _)), Some(x), Some(y)) => {
                    let t = parent.to_text();
                    let tc = crate::text::chars_of(t.as_str());
                    push_all(&mut out, &tc);
                    push_all(&mut out, &dk);
                    push_step(&mut out, x);
                    push_all(&mut out, &and);
                    push_step(&mut out, y);
                },
                _ => {},
            }
        }
        assert(out@ =~= detail_text(*a, *b, pa@, pb@));
        r.push(string_of(&out));
        k = k + 1;
    }
    r
}

/// The divergences of two trees of the same shape, one readable line each.
pub fn diff_value_detail(a: &Value, b: &Value) -> (r: Vec<String>)
    requires
        same_shape(*a, *b),
        a.wf(),
        b.wf(),
    ensures
        r@.len() == diff_spec(*a, *b).len(),
        forall|k: int|
            0 <= k < r@.len() ==> (#[trigger] r@[k])@ == detail_text(
                *a,
                *b,
                diff_spec(*a, *b)[k].0,
                diff_spec(*a, *b)[k].1,
            ),
        forall|k: int| 0 <= k < r@.len() ==> describes(*a, *b, (#[trigger] r@[k])@),
{
    let pairs = diff_value(a, b);
    let r = detail_lines(a, b, &pairs);
    assert forall|k: int| 0 <= k < r@.len() implies (#[trigger] r@[k])@ == detail_text(
        *a,
        *b,
        diff_spec(*a, *b)[k].0,
        diff_spec(*a, *b)[k].1,
    ) by {
        assert(pairs_view(pairs@)[k] == (pairs@[k].0@, pairs@[k].1@));
    }
    assert forall|k: int| 0 <= k < r@.len() implies describes(*a, *b, (#[trigger] r@[k])@) by {
        let pa = pairs@[k].0@;
        let pb = pairs@[k].1@;
        assert(diverges(*a, *b, pa, pb) && r@[k]@ == detail_text(*a, *b, pa, pb));
    }
    r
}

/// The line describes some divergence of `a` and `b`.
pub open spec fn describes(a: Value, b: Value, line: Seq<char>) -> bool {
    exists|pa: Seq<Step>, pb: Seq<Step>| diverges(a, b, pa, pb) && line == #[trigger] detail_text(a, b, pa, pb)
}

} // verus!

use vstd::prelude::*;
use crate::path::{step_of, JsonIndexer, JsonPath, Step};
use crate::text::chars_of;
use crate::value::{keys_unique, Value};

verus! {

/// The value of the first member with key `k`.
pub open spec fn obj_get(es: Seq<(String, Value)>, k: Seq<char>) -> Option<Value>
    decreases es.len(),
{
    if es.len() == 0 {
        None
    } else if es[0].0@ == k {
        Some(es[0].1)
    } else {
        obj_get(es.drop_first(), k)
    }
}

/// The child a step leads to: a member of an object by key, an element of an
/// array by index.
pub open spec fn step_get(v: Value, s: Step) -> Option<Value> {
    match (v, s) {
        (Value::Object(es), Step::Key(k)) => obj_get(es@, k),
        (Value::Array(vs), Step::Index(n)) => if n < vs@.len() {
            Some(vs@[n as int])
        } else {
            None
        },
        _ => None,
    }
}

/// The value a path leads to from `v`.
pub open spec fn value_at(v: Value, p: Seq<Step>) -> Option<Value>
    decreases p.len(),
{
    if p.len() == 0 {
        Some(v)
    } else {
        match step_get(v, p[0]) {
            Some(c) => value_at(c, p.drop_first()),
            None => None,
        }
    }
}

/// With unique keys, a key finds its own member.
pub proof fn lemma_obj_get_unique(es: Seq<(String, Value)>, i: int)
    requires
        keys_unique(es),
        0 <= i < es.len(),
    ensures
        obj_get(es, es[i].0@) == Some(es[i].1),
    decreases es.len(),
{
    if i > 0 {
        assert(es[0].0@ != es[i].0@);
        let rest = es.drop_first();
        assert(rest[i - 1] == es[i]);
        assert forall|a: int, b: int| 0 <= a < b < rest.len() implies (#[trigger] rest[a]).0@ != (#[trigger] rest[b]).0@ by {
            assert(rest[a] == es[a + 1]);
            assert(rest[b] == es[b + 1]);
        }
        lemma_obj_get_unique(rest, i - 1);
    }
}

/// A value at a path after one step is the value at the rest of the path
/// from the child.
pub proof fn lemma_value_at_cons(v: Value, s: Step, c: Value, p: Seq<Step>)
    requires
        step_get(v, s) == Some(c),
    ensures
        value_at(v, seq![s] + p) == value_at(c, p),
{
    assert((seq![s] + p).drop_first() =~= p);
}

/// A member's value found by key.
fn find_member<'a>(es: &'a Vec<(String, Value)>, key: &Vec<char>) -> (r: Option<&'a Value>)
    ensures
        r matches Some(x) ==> obj_get(es@, key@) == Some(*x),
        r is None ==> obj_get(es@, key@) is None,
{
    let mut i: usize = 0;
    assert(es@.subrange(0, es@.len() as int) =~= es@);
    while i < es.len()
        invariant
            i <= es@.len(),
            obj_get(es@, key@) == obj_get(es@.subrange(i as int, es@.len() as int), key@),
        decreases es@.len() - i,
    {
        let ghost rest = es@.subrange(i as int, es@.len() as int);
        let ks = chars_of(es[i].0.as_str());
        if crate::text::chars_eq(&ks, key) {
            return Some(&es[i].1);
        }
        assert(rest.drop_first() =~= es@.subrange(i + 1, es@.len() as int));
        i = i + 1;
    }
    None
}

/// A range of array positions, `start` included, `end` excluded.
pub struct Ranger {
    pub start: usize,
    pub end: usize,
}

impl Value {
    /// The child that one step leads to.
    pub fn get(&self, index: &JsonIndexer) -> (r: Option<&Value>)
        ensures
            r matches Some(x) ==> step_get(*self, step_of(*index)) == Some(*x),
            r is None ==> step_get(*self, step_of(*index)) is None,
    {
        match (self, index) {
            (Value::Object(es), JsonIndexer::ObjInd(k)) => {
                let key = chars_of(k.as_str());
                find_member(es, &key)
            },
            (Value::Array(vs), JsonIndexer::ArrInd(n)) => {
                if *n < vs.len() {
                    Some(&vs[*n])
                } else {
                    None
                }
            },
            _ => None,
        }
    }

    /// The member with key `key`, if this is an object that has one.
    pub fn get_key(&self, key: &str) -> (r: Option<&Value>)
        ensures
            r matches Some(x) ==> step_get(*self, Step::Key(key@)) == Some(*x),
            r is None ==> step_get(*self, Step::Key(key@)) is None,
    {
        match self {
            Value::Object(es) => {
                let k = chars_of(key);
                find_member(es, &k)
            },
            _ => None,
        }
    }

    /// The element at `index`, if this is an array that long.
    pub fn get_index(&self, index: usize) -> (r: Option<&Value>)
        ensures
            r matches Some(x) ==> step_get(*self, Step::Index(index as nat)) == Some(*x),
            r is None ==> step_get(*self, Step::Index(index as nat)) is None,
    {
        match self {
            Value::Array(vs) => {
                if index < vs.len() {
                    Some(&vs[index])
                } else {
                    None
                }
            },
            _ => None,
        }
    }

    /// The elements in a range, if this is an array and the range lies in it.
    pub fn get_range(&self, range: &Ranger) -> (r: Option<&[Value]>)
        ensures
            r matches Some(x) ==> (self matches Value::Array(vs) && range.start <= range.end <= vs@.len()
                && x@ == vs@.subrange(range.start as int, range.end as int)),
            r is None ==> !(self matches Value::Array(vs) && range.start <= range.end <= vs@.len()),
    {
        match self {
            Value::Array(vs) => {
                if range.start <= range.end && range.end <= vs.len() {
                    Some(vstd::slice::slice_subrange(vs.as_slice(), range.start, range.end))
                } else {
                    None
                }
            },
            _ => None,
        }
    }

    /// The value a path leads to.
    pub fn get_path(&self, path: &JsonPath) -> (r: Option<&Value>)
        ensures
            r matches Some(x) ==> value_at(*self, path@) == Some(*x),
            r is None ==> value_at(*self, path@) is None,
    {
        let steps = path.steps();
        let ghost p = path@;
        let mut cur: &Value = self;
        let mut i: usize = 0;
        assert(p.subrange(0, p.len() as int) =~= p);
        while i < steps.len()
            invariant
                i <= steps@.len(),
                p == Seq::new(steps@.len(), |k: int| step_of(steps@[k])),
                p == path@,
                value_at(*self, p) == value_at(*cur, p.subrange(i as int, p.len() as int)),
            decreases steps@.len() - i,
        {
            let ghost rest = p.subrange(i as int, p.len() as int);
            assert(rest[0] == step_of(steps@[i as int]));
            assert(rest.drop_first() =~= p.subrange(i + 1, p.len() as int));
            match cur.get(&steps[i]) {
                Some(c) => {
                    cur = c;
                },
                None => {
                    assert(rest.len() > 0);
                    assert(value_at(*cur, rest) is None);
                    return None;
                },
            }
            i = i + 1;
        }
        assert(p.subrange(i as int, p.len() as int) =~= Seq::<Step>::empty());
        Some(cur)
    }

    pub fn get_object(&self) -> (r: Option<&Vec<(String, Value)>>)
        ensures
            r matches Some(x) ==> *self == Value::Object(*x),
            r is None ==> !(self is Object),
    {
        match self {
            Value::Object(es) => Some(es),
            _ => None,
        }
    }

    pub fn get_array(&self) -> (r: Option<&Vec<Value>>)
        ensures
            r matches Some(x) ==> *self == Value::Array(*x),
            r is None ==> !(self is Array),
    {
        match self {
            Value::Array(vs) => Some(vs),
            _ => None,
        }
    }

    pub fn get_bool(&self) -> (r: Option<bool>)
        ensures
            r matches Some(x) ==> *self == Value::Bool(x),
            r is None ==> !(self is Bool),
    {
        match self {
            Value::Bool(b) => Some(*b),
            _ => None,
        }
    }

    pub fn get_null(&self) -> (r: Option<()>)
        ensures
            r is Some <==> self is Null,
    {
        match self {
            Value::Null => Some(()),
            _ => None,
        }
    }

    pub fn get_string(&self) -> (r: Option<&String>)
        ensures
            r matches Some(x) ==> *self == Value::String(*x),
            r is None ==> !(self is String),
    {
        match self {
            Value::String(s) => Some(s),
            _ => None,
        }
    }

    pub fn get_integer(&self) -> (r: Option<i64>)
        ensures
            r matches Some(x) ==> *self == Value::Integer(x),
            r is None ==> !(self is Integer),
    {
        match self {
            Value::Integer(i) => Some(*i),
            _ => None,
        }
    }

    /// The numeral of a float.
    pub fn get_float(&self) -> (r: Option<&String>)
        ensures
            r matches Some(x) ==> *self == Value::Float(*x),
            r is None ==> !(self is Float),
    {
        match self {
            Value::Float(f) => Some(f),
            _ => None,
        }
    }

    pub fn is_object(&self) -> (r: bool)
        ensures
            r == self is Object,
    {
        matches!(self, Value::Object(_))
    }

    pub fn is_array(&self) -> (r: bool)
        ensures
            r == self is Array,
    {
        matches!(self, Value::Array(_))
    }

    pub fn is_bool(&self) -> (r: bool)
        ensures
            r == self is Bool,
    {
        matches!(self, Value::Bool(_))
    }

    pub fn is_true(&self) -> (r: bool)
        ensures
            r == (*self == Value::Bool(true)),
    {
        matches!(self, Value::Bool(true))
    }

    pub fn is_false(&self) -> (r: bool)
        ensures
            r == (*self == Value::Bool(false)),
    {
        matches!(self, Value::Bool(false))
    }

    pub fn is_null(&self) -> (r: bool)
        ensures
            r == self is Null,
    {
        matches!(self, Value::Null)
    }

    pub fn is_string(&self) -> (r: bool)
        ensures
            r == self is String,
    {
        matches!(self, Value::String(_))
    }

    pub fn is_number(&self) -> (r: bool)
        ensures
            r == (self is Integer || self is Float),
    {
        matches!(self, Value::Integer(_) | Value::Float(_))
    }

    pub fn is_integer(&self) -> (r: bool)
        ensures
            r == self is Integer,
    {
        matches!(self, Value::Integer(_))
    }

    pub fn is_float(&self) -> (r: bool)
        ensures
            r == self is Float,
    {
        matches!(self, Value::Float(_))
    }
}

} // verus!

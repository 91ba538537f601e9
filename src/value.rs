use vstd::prelude::*;

verus! {

/// A JSON value. An object keeps its members in insertion order with unique
/// keys, as a vector of key and value pairs, so that the tree is built of
/// vectors alone and each child is reached by its index. A float is kept as
/// the numeral it was
/// written as (it has a fraction or an exponent part); an integer numeral
/// without them is an `Integer`.
#[derive(PartialEq, Debug)]
pub enum Value {
    Object(Vec<(String, Value)>),
    Array(Vec<Value>),
    Bool(bool),
    Null,
    String(String),
    Integer(i64),
    Float(String),
}

/// No two members share a key.
pub open spec fn keys_unique(entries: Seq<(String, Value)>) -> bool {
    forall|i: int, j: int| 0 <= i < j < entries.len() ==> (#[trigger] entries[i]).0@ != (#[trigger] entries[j]).0@
}

impl Value {
    /// Every object in the tree has unique keys.
    pub open spec fn wf(&self) -> bool
        decreases self,
    {
        match self {
            Value::Object(es) => keys_unique(es@) && forall|i: int| 0 <= i < es@.len() ==> (#[trigger] es@[i]).1.wf(),
            Value::Array(vs) => forall|i: int| 0 <= i < vs@.len() ==> (#[trigger] vs@[i]).wf(),
            _ => true,
        }
    }
}

} // verus!

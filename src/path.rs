use vstd::prelude::*;
use crate::print::{nat_text, push_nat, push_quoted, quoted};
use crate::text::{chars_of, string_of};

verus! {

/// One addressing step, as a plain value.
pub enum Step {
    Key(Seq<char>),
    Index(nat),
}

/// One addressing step: an object key or an array index.
#[derive(Debug, Clone, PartialEq, Eq, Hash)]
pub enum JsonIndexer {
    ObjInd(String),
    ArrInd(usize),
}

pub open spec fn step_of(i: JsonIndexer) -> Step {
    match i {
        JsonIndexer::ObjInd(s) => Step::Key(s@),
        JsonIndexer::ArrInd(n) => Step::Index(n as nat),
    }
}

impl JsonIndexer {
    /// A copy of this step.
    pub fn copied(&self) -> (r: JsonIndexer)
        ensures
            step_of(r) == step_of(*self),
    {
        match self {
            JsonIndexer::ObjInd(s) => JsonIndexer::ObjInd(s.clone()),
            JsonIndexer::ArrInd(n) => JsonIndexer::ArrInd(*n),
        }
    }

    /// Whether two steps address the same place.
    pub fn same(&self, other: &JsonIndexer) -> (r: bool)
        ensures
            r == (step_of(*self) == step_of(*other)),
    {
        match (self, other) {
            (JsonIndexer::ObjInd(a), JsonIndexer::ObjInd(b)) => *a == *b,
            (JsonIndexer::ArrInd(a), JsonIndexer::ArrInd(b)) => a == b,
            _ => false,
        }
    }
}

/// How a path is written: steps joined by `>`, keys as string literals,
/// indices in decimal.
pub open spec fn step_text(s: Step) -> Seq<char> {
    match s {
        Step::Key(k) => quoted(k),
        Step::Index(n) => nat_text(n),
    }
}

pub open spec fn path_text(p: Seq<Step>) -> Seq<char>
    decreases p.len(),
{
    if p.len() == 0 {
        seq![]
    } else if p.len() == 1 {
        step_text(p[0])
    } else {
        path_text(p.drop_last()) + seq!['>'] + step_text(p.last())
    }
}

/// A location in a value: the steps from the root, in order. The empty path
/// is the root.
#[derive(Debug, Clone, PartialEq, Eq, Hash)]
pub struct JsonPath {
    path: Vec<JsonIndexer>,
}

impl View for JsonPath {
    type V = Seq<Step>;

    closed spec fn view(&self) -> Seq<Step> {
        Seq::new(self.path@.len(), |i: int| step_of(self.path@[i]))
    }
}

impl JsonPath {
    /// The root.
    pub fn new() -> (r: JsonPath)
        ensures
            r@ == Seq::<Step>::empty(),
    {
        let r = JsonPath { path: Vec::new() };
        assert(r@ =~= Seq::<Step>::empty());
        r
    }

    /// A path of the given steps.
    pub fn from_steps(steps: Vec<JsonIndexer>) -> (r: JsonPath)
        ensures
            r@ == Seq::new(steps@.len(), |i: int| step_of(steps@[i])),
    {
        JsonPath { path: steps }
    }

    /// A copy of this path.
    pub fn copied(&self) -> (r: JsonPath)
        ensures
            r@ == self@,
    {
        let mut path: Vec<JsonIndexer> = Vec::new();
        let mut i: usize = 0;
        while i < self.path.len()
            invariant
                i <= self.path@.len(),
                path@.len() == i,
                forall|k: int| 0 <= k < i ==> step_of(#[trigger] path@[k]) == step_of(self.path@[k]),
            decreases self.path@.len() - i,
        {
            path.push(self.path[i].copied());
            i = i + 1;
        }
        let r = JsonPath { path };
        assert(r@ =~= self@);
        r
    }

    /// Appends a step.
    pub fn push(&mut self, indexer: JsonIndexer)
        ensures
            final(self)@ == old(self)@.push(step_of(indexer)),
    {
        self.path.push(indexer);
        assert(self@ =~= old(self)@.push(step_of(indexer)));
    }

    /// Removes and returns the last step.
    pub fn pop(&mut self) -> (r: Option<JsonIndexer>)
        ensures
            old(self)@.len() == 0 ==> r is None && final(self)@ == old(self)@,
            old(self)@.len() > 0 ==> (r matches Some(i) && step_of(i) == old(self)@.last()
                && final(self)@ == old(self)@.drop_last()),
    {
        let r = self.path.pop();
        assert(self@ =~= if old(self)@.len() == 0 { old(self)@ } else { old(self)@.drop_last() });
        r
    }

    /// The step at `index`.
    pub fn get(&self, index: usize) -> (r: Option<&JsonIndexer>)
        ensures
            index < self@.len() ==> (r matches Some(i) && step_of(*i) == self@[index as int]),
            index >= self@.len() ==> r is None,
    {
        if index < self.path.len() {
            Some(&self.path[index])
        } else {
            None
        }
    }

    /// The last step.
    pub fn last(&self) -> (r: Option<&JsonIndexer>)
        ensures
            self@.len() > 0 ==> (r matches Some(i) && step_of(*i) == self@.last()),
            self@.len() == 0 ==> r is None,
    {
        if self.path.len() > 0 {
            Some(&self.path[self.path.len() - 1])
        } else {
            None
        }
    }

    /// The steps, in order.
    pub fn steps(&self) -> (r: Vec<JsonIndexer>)
        ensures
            Seq::new(r@.len(), |i: int| step_of(r@[i])) == self@,
    {
        let c = self.copied();
        let r = c.path;
        assert(Seq::new(r@.len(), |i: int| step_of(r@[i])) =~= c@);
        r
    }

    /// Number of steps.
    pub fn depth(&self) -> (r: usize)
        ensures
            r == self@.len(),
    {
        self.path.len()
    }

    /// The path of the first `n` steps.
    pub fn prefix(&self, n: usize) -> (r: JsonPath)
        requires
            n <= self@.len(),
        ensures
            r@ == self@.subrange(0, n as int),
    {
        let mut path: Vec<JsonIndexer> = Vec::new();
        let mut i: usize = 0;
        while i < n
            invariant
                n <= self.path@.len(),
                i <= n,
                path@.len() == i,
                forall|k: int| 0 <= k < i ==> step_of(#[trigger] path@[k]) == step_of(self.path@[k]),
            decreases n - i,
        {
            path.push(self.path[i].copied());
            i = i + 1;
        }
        let r = JsonPath { path };
        assert(r@ =~= self@.subrange(0, n as int));
        r
    }

    /// The path without its first `n` steps.
    pub fn suffix_from(&self, n: usize) -> (r: JsonPath)
        requires
            n <= self@.len(),
        ensures
            r@ == self@.subrange(n as int, self@.len() as int),
    {
        let mut path: Vec<JsonIndexer> = Vec::new();
        let mut i: usize = n;
        while i < self.path.len()
            invariant
                n <= i <= self.path@.len(),
                path@.len() == i - n,
                forall|k: int| 0 <= k < i - n ==> step_of(#[trigger] path@[k]) == step_of(self.path@[k + n]),
            decreases self.path@.len() - i,
        {
            path.push(self.path[i].copied());
            i = i + 1;
        }
        let r = JsonPath { path };
        assert(r@ =~= self@.subrange(n as int, self@.len() as int));
        r
    }

    /// The parent path and the last step.
    pub fn split_last(&self) -> (r: Option<(JsonPath, JsonIndexer)>)
        ensures
            self@.len() == 0 ==> r is None,
            self@.len() > 0 ==> (r matches Some((p, i)) && p@ == self@.drop_last() && step_of(i) == self@.last()),
    {
        let n = self.path.len();
        if n == 0 {
            None
        } else {
            Some((self.prefix(n - 1), self.path[n - 1].copied()))
        }
    }

    /// Whether `prefix` is a prefix of this path.
    pub fn starts_with(&self, prefix: &JsonPath) -> (r: bool)
        ensures
            r == (prefix@.len() <= self@.len() && self@.subrange(0, prefix@.len() as int) == prefix@),
    {
        let n = prefix.path.len();
        if n > self.path.len() {
            return false;
        }
        let mut i: usize = 0;
        while i < n
            invariant
                n == prefix.path@.len(),
                n <= self.path@.len(),
                i <= n,
                forall|k: int| 0 <= k < i ==> self@[k] == prefix@[k],
            decreases n - i,
        {
            if !self.path[i].same(&prefix.path[i]) {
                assert(self@.subrange(0, n as int)[i as int] != prefix@[i as int]);
                return false;
            }
            i = i + 1;
        }
        assert(self@.subrange(0, n as int) =~= prefix@);
        true
    }

    /// Whether `suffix` is a suffix of this path.
    pub fn ends_with(&self, suffix: &JsonPath) -> (r: bool)
        ensures
            r == (suffix@.len() <= self@.len() && self@.subrange(self@.len() - suffix@.len(), self@.len() as int)
                == suffix@),
    {
        let n = suffix.path.len();
        let m = self.path.len();
        if n > m {
            return false;
        }
        let mut i: usize = 0;
        while i < n
            invariant
                n == suffix.path@.len(),
                m == self.path@.len(),
                n <= m,
                i <= n,
                forall|k: int| 0 <= k < i ==> self@[m - n + k] == suffix@[k],
            decreases n - i,
        {
            if !self.path[m - n + i].same(&suffix.path[i]) {
                assert(self@.subrange(m - n, m as int)[i as int] != suffix@[i as int]);
                return false;
            }
            i = i + 1;
        }
        assert(self@.subrange(m - n, m as int) =~= suffix@);
        true
    }

    /// The rest of this path after `prefix`, if it starts with it.
    pub fn strip_prefix(&self, prefix: &JsonPath) -> (r: Option<JsonPath>)
        ensures
            (prefix@.len() <= self@.len() && self@.subrange(0, prefix@.len() as int) == prefix@) ==> (r matches Some(p)
                && p@ == self@.subrange(prefix@.len() as int, self@.len() as int)),
            !(prefix@.len() <= self@.len() && self@.subrange(0, prefix@.len() as int) == prefix@) ==> r is None,
    {
        if self.starts_with(prefix) {
            Some(self.suffix_from(prefix.path.len()))
        } else {
            None
        }
    }

    /// This path without `suffix`, if it ends with it.
    pub fn strip_suffix(&self, suffix: &JsonPath) -> (r: Option<JsonPath>)
        ensures
            (suffix@.len() <= self@.len() && self@.subrange(self@.len() - suffix@.len(), self@.len() as int)
                == suffix@) ==> (r matches Some(p) && p@ == self@.subrange(0, self@.len() - suffix@.len())),
            !(suffix@.len() <= self@.len() && self@.subrange(self@.len() - suffix@.len(), self@.len() as int)
                == suffix@) ==> r is None,
    {
        if self.ends_with(suffix) {
            Some(self.prefix(self.path.len() - suffix.path.len()))
        } else {
            None
        }
    }

    /// The lowest common ancestor: the longest common prefix of `a` and `b`.
    pub fn lca(a: &JsonPath, b: &JsonPath) -> (r: JsonPath)
        ensures
            r@.len() <= a@.len(),
            r@.len() <= b@.len(),
            r@ == a@.subrange(0, r@.len() as int),
            r@ == b@.subrange(0, r@.len() as int),
            r@.len() < a@.len() && r@.len() < b@.len() ==> a@[r@.len() as int] != b@[r@.len() as int],
    {
        let mut i: usize = 0;
        while i < a.path.len() && i < b.path.len() && a.path[i].same(&b.path[i])
            invariant
                i <= a@.len(),
                i <= b@.len(),
                a@.len() == a.path@.len(),
                b@.len() == b.path@.len(),
                forall|k: int| 0 <= k < i ==> a@[k] == b@[k],
            decreases a.path@.len() - i,
        {
            i = i + 1;
        }
        let r = a.prefix(i);
        assert(r@ =~= b@.subrange(0, i as int));
        r
    }

    /// The path without its last step; none for the root.
    pub fn parent(&self) -> (r: Option<JsonPath>)
        ensures
            self@.len() == 0 ==> r is None,
            self@.len() > 0 ==> (r matches Some(p) && p@ == self@.drop_last()),
    {
        match self.split_last() {
            Some((p, _)) => Some(p),
            None => None,
        }
    }

    /// This path and each of its ancestors, up to the root, nearest first.
    pub fn ancestors(&self) -> (r: Vec<JsonPath>)
        ensures
            r@.len() == self@.len() + 1,
            forall|i: int| 0 <= i < r@.len() ==> (#[trigger] r@[i])@ == self@.subrange(0, self@.len() - i),
    {
        let n = self.path.len();
        let mut r: Vec<JsonPath> = Vec::new();
        let mut k: usize = n;
        while k > 0
            invariant
                n == self@.len(),
                k <= n,
                r@.len() == n - k,
                forall|j: int| 0 <= j < n - k ==> (#[trigger] r@[j])@ == self@.subrange(0, n - j),
            decreases k,
        {
            r.push(self.prefix(k));
            k = k - 1;
        }
        r.push(self.prefix(0));
        r
    }

    /// This path followed by `path`.
    pub fn join(&self, path: &JsonPath) -> (r: JsonPath)
        ensures
            r@ == self@ + path@,
    {
        let mut r = self.copied();
        let mut i: usize = 0;
        while i < path.path.len()
            invariant
                i <= path@.len(),
                path@.len() == path.path@.len(),
                r@ == self@ + path@.subrange(0, i as int),
            decreases path.path@.len() - i,
        {
            r.push(path.path[i].copied());
            i = i + 1;
            assert(r@ =~= self@ + path@.subrange(0, i as int));
        }
        assert(path@.subrange(0, i as int) =~= path@);
        r
    }

    /// The text of the path: steps joined by `>`, keys quoted.
    pub fn to_text(&self) -> (r: String)
        ensures
            r@ == path_text(self@),
    {
        let mut out: Vec<char> = Vec::new();
        let mut i: usize = 0;
        while i < self.path.len()
            invariant
                i <= self@.len(),
                self@.len() == self.path@.len(),
                out@ == path_text(self@.subrange(0, i as int)),
            decreases self.path@.len() - i,
        {
            let ghost before = out@;
            if i > 0 {
                out.push('>');
            }
            match &self.path[i] {
                JsonIndexer::ObjInd(k) => {
                    let ks = chars_of(k.as_str());
                    push_quoted(&mut out, &ks);
                },
                JsonIndexer::ArrInd(n) => push_nat(&mut out, *n as u64),
            }
            let ghost next = self@.subrange(0, i + 1int);
            assert(next.drop_last() =~= self@.subrange(0, i as int));
            i = i + 1;
            assert(out@ =~= path_text(self@.subrange(0, i as int)));
        }
        assert(self@.subrange(0, i as int) =~= self@);
        string_of(&out)
    }
}

} // verus!

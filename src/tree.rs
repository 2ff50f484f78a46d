//! The ordered attribute tree: a text leaf, or an ordered list of
//! `(key, value)` entries in which keys may repeat and order is significant.

use vstd::prelude::*;

use crate::text::str_eq;

verus! {

/// A node of the attribute tree.
#[derive(Debug, PartialEq)]
pub enum Value {
    /// A text leaf (an attribute value).
    Leaf(String),
    /// An element: its attributes and children, in document order.
    Element(AttrMap),
}

/// An ordered association list; duplicate keys are allowed and the entry
/// order is the serialization order.
#[derive(Debug, PartialEq)]
pub struct AttrMap {
    pub entries: Vec<(String, Value)>,
}

/// The mathematical model of a tree value: text leaves and ordered
/// sequences of `(key, subtree)` pairs.
pub enum TreeView {
    Text(Seq<char>),
    Node(Seq<(Seq<char>, TreeView)>),
}

/// The model of a sequence of entries.
pub open spec fn entries_view(s: Seq<(String, Value)>) -> Seq<(Seq<char>, TreeView)>
    decreases s,
{
    if s.len() == 0 {
        Seq::empty()
    } else {
        entries_view(s.drop_last()).push((s.last().0@, value_view(s.last().1)))
    }
}

/// Entry-wise description of `entries_view`.
pub broadcast proof fn lemma_entries_view(s: Seq<(String, Value)>)
    ensures
        #[trigger] entries_view(s).len() == s.len(),
        forall|i: int|
            0 <= i < s.len() ==> #[trigger] entries_view(s)[i] == (s[i].0@, value_view(s[i].1)),
    decreases s.len(),
{
    if s.len() > 0 {
        lemma_entries_view(s.drop_last());
    }
}

/// The model of a value.
pub open spec fn value_view(v: Value) -> TreeView
    decreases v,
{
    match v {
        Value::Leaf(s) => TreeView::Text(s@),
        Value::Element(m) => TreeView::Node(entries_view(m.entries@)),
    }
}

impl View for Value {
    type V = TreeView;

    open spec fn view(&self) -> TreeView {
        value_view(*self)
    }
}

impl View for AttrMap {
    type V = Seq<(Seq<char>, TreeView)>;

    open spec fn view(&self) -> Seq<(Seq<char>, TreeView)> {
        entries_view(self.entries@)
    }
}

/// `i` is the first position of an entry whose key is `k`.
pub open spec fn is_first_index(s: Seq<(Seq<char>, TreeView)>, k: Seq<char>, i: int) -> bool {
    &&& 0 <= i < s.len()
    &&& s[i].0 == k
    &&& forall|j: int| 0 <= j < i ==> (#[trigger] s[j]).0 != k
}

/// No entry of `s` has the key `k`.
pub open spec fn has_no_key(s: Seq<(Seq<char>, TreeView)>, k: Seq<char>) -> bool {
    forall|j: int| 0 <= j < s.len() ==> (#[trigger] s[j]).0 != k
}

/// Whether two values are the same tree.
pub fn value_eq(a: &Value, b: &Value) -> (r: bool)
    ensures
        r == (a@ == b@),
    decreases a,
{
    match a {
        Value::Leaf(x) => match b {
            Value::Leaf(y) => {
                assert(a@ == TreeView::Text(x@));
                assert(b@ == TreeView::Text(y@));
                *x == *y
            },
            Value::Element(y) => {
                assert(a@ == TreeView::Text(x@));
                assert(b@ == TreeView::Node(y@));
                false
            },
        },
        Value::Element(x) => match b {
            Value::Leaf(y) => {
                assert(a@ == TreeView::Node(x@));
                assert(b@ == TreeView::Text(y@));
                false
            },
            Value::Element(y) => {
                let r = map_eq(x, y);
                proof {
                    if !r {
                        assert(a@ != b@) by {
                            if a@ == b@ {
                                assert(x@ == y@);
                            }
                        }
                    }
                }
                r
            },
        },
    }
}

/// Whether two maps hold the same entries in the same order.
pub fn map_eq(a: &AttrMap, b: &AttrMap) -> (r: bool)
    ensures
        r == (a@ == b@),
    decreases a, 0nat,
{
    broadcast use lemma_entries_view;

    let n = a.entries.len();
    if n != b.entries.len() {
        assert(a@.len() != b@.len());
        return false;
    }
    let mut i: usize = 0;
    while i < n
        invariant
            n == a.entries@.len(),
            n == b.entries@.len(),
            i <= n,
            forall|j: int| 0 <= j < i ==> #[trigger] a@[j] == b@[j],
        decreases n - i,
    {
        let ea = &a.entries[i];
        let eb = &b.entries[i];
        proof {
            lemma_entries_view(a.entries@);
            lemma_entries_view(b.entries@);
        }
        assert(a@[i as int] == (ea.0@, value_view(ea.1)));
        assert(b@[i as int] == (eb.0@, value_view(eb.1)));
        if ea.0 != eb.0 {
            assert(a@[i as int] != b@[i as int]);
            return false;
        }
        assert(decreases_to!(a => a.entries@[i as int].1));
        if !value_eq(&ea.1, &eb.1) {
            assert(a@[i as int] != b@[i as int]);
            return false;
        }
        i += 1;
    }
    proof {
        lemma_entries_view(a.entries@);
        lemma_entries_view(b.entries@);
    }
    assert(a@ =~= b@);
    true
}

impl Value {
    /// The map of an element, or `None` for a text leaf.
    pub fn into_map(self) -> (r: Option<AttrMap>)
        ensures
            self@ matches TreeView::Node(s) ==> r is Some && r->0@ == s,
            self@ is Text ==> r is None,
    {
        match self {
            Value::Element(m) => Some(m),
            Value::Leaf(_) => None,
        }
    }
}

/// A deep copy of a value.
pub fn clone_value(v: &Value) -> (r: Value)
    ensures
        r@ == v@,
    decreases v,
{
    match v {
        Value::Leaf(s) => Value::Leaf(s.clone()),
        Value::Element(m) => Value::Element(clone_map(m)),
    }
}

/// A deep copy of a map.
pub fn clone_map(m: &AttrMap) -> (r: AttrMap)
    ensures
        r@ == m@,
    decreases m, 0nat,
{
    broadcast use lemma_entries_view;

    let mut out: Vec<(String, Value)> = Vec::new();
    let n = m.entries.len();
    let mut i: usize = 0;
    while i < n
        invariant
            n == m.entries@.len(),
            i <= n,
            out@.len() == i,
            forall|j: int|
                0 <= j < i ==> (#[trigger] out@[j]).0@ == m.entries@[j].0@ && value_view(out@[j].1)
                    == value_view(m.entries@[j].1),
        decreases n - i,
    {
        let e = &m.entries[i];
        assert(decreases_to!(m => m.entries@[i as int].1));
        let v = clone_value(&e.1);
        out.push((e.0.clone(), v));
        i += 1;
    }
    assert(entries_view(out@) =~= entries_view(m.entries@));
    AttrMap { entries: out }
}

/// The first position of key `k` in `s`, or `-1` when there is none.
pub open spec fn first_index(s: Seq<(Seq<char>, TreeView)>, k: Seq<char>) -> int
    decreases s.len(),
{
    if s.len() == 0 {
        -1
    } else {
        let p = first_index(s.drop_last(), k);
        if p >= 0 {
            p
        } else if s.last().0 == k {
            s.len() - 1
        } else {
            -1
        }
    }
}

/// `first_index` is the position that `is_first_index` describes.
pub proof fn lemma_first_index(s: Seq<(Seq<char>, TreeView)>, k: Seq<char>)
    ensures
        first_index(s, k) == -1 <==> has_no_key(s, k),
        first_index(s, k) != -1 ==> is_first_index(s, k, first_index(s, k)),
    decreases s.len(),
{
    if s.len() > 0 {
        lemma_first_index(s.drop_last(), k);
        assert(forall|j: int| 0 <= j < s.len() - 1 ==> s.drop_last()[j] == s[j]);
    }
}

impl AttrMap {
    /// An empty map.
    pub fn new() -> (r: AttrMap)
        ensures
            r@ == Seq::<(Seq<char>, TreeView)>::empty(),
    {
        let r = AttrMap { entries: Vec::new() };
        proof {
            lemma_entries_view(r.entries@);
            assert(r@ =~= Seq::<(Seq<char>, TreeView)>::empty());
        }
        r
    }

    /// Number of entries.
    pub fn len(&self) -> (r: usize)
        ensures
            r == self@.len(),
    {
        proof {
            lemma_entries_view(self.entries@);
        }
        self.entries.len()
    }

    /// Position of the first entry with key `key`.
    pub fn find(&self, key: &str) -> (r: Option<usize>)
        ensures
            r is None ==> has_no_key(self@, key@),
            r is Some ==> r->0 == first_index(self@, key@) && is_first_index(
                self@,
                key@,
                r->0 as int,
            ),
            r is None <==> first_index(self@, key@) == -1,
    {
        proof {
            lemma_entries_view(self.entries@);
            lemma_first_index(self@, key@);
        }
        let n = self.entries.len();
        let mut i: usize = 0;
        while i < n
            invariant
                n == self.entries@.len(),
                i <= n,
                forall|j: int| 0 <= j < i ==> (#[trigger] self.entries@[j]).0@ != key@,
            decreases n - i,
        {
            if str_eq(self.entries[i].0.as_str(), key) {
                proof {
                    lemma_entries_view(self.entries@);
                    assert forall|j: int| 0 <= j < i implies (#[trigger] self@[j]).0 != key@ by {
                        assert(self@[j].0 == self.entries@[j].0@);
                    }
                    assert(is_first_index(self@, key@, i as int));
                    lemma_first_index(self@, key@);
                    assert(!has_no_key(self@, key@));
                    let f = first_index(self@, key@);
                    assert(f == i) by {
                        if f < i {
                            assert(self@[f].0 == key@);
                        } else if f > i {
                            assert(self@[i as int].0 == key@);
                        }
                    }
                }
                return Some(i);
            }
            i += 1;
        }
        proof {
            lemma_entries_view(self.entries@);
            lemma_first_index(self@, key@);
            assert forall|j: int| 0 <= j < self@.len() implies (#[trigger] self@[j]).0 != key@ by {
                assert(self@[j].0 == self.entries@[j].0@);
            }
        }
        None
    }

    /// Position of the first entry at or after `start` with key `key`.
    pub fn find_from(&self, key: &str, start: usize) -> (r: Option<usize>)
        requires
            start <= self@.len(),
        ensures
            r is None <==> first_index(self@.subrange(start as int, self@.len() as int), key@)
                == -1,
            r is Some ==> r->0 == start + first_index(
                self@.subrange(start as int, self@.len() as int),
                key@,
            ),
    {
        proof {
            lemma_entries_view(self.entries@);
        }
        let ghost tail = self@.subrange(start as int, self@.len() as int);
        proof {
            lemma_first_index(tail, key@);
        }
        let n = self.entries.len();
        let mut i: usize = start;
        while i < n
            invariant
                n == self.entries@.len(),
                n == self@.len(),
                start <= i <= n,
                tail == self@.subrange(start as int, n as int),
                forall|j: int| start <= j < i ==> (#[trigger] self@[j]).0 != key@,
            decreases n - i,
        {
            if str_eq(self.entries[i].0.as_str(), key) {
                proof {
                    lemma_entries_view(self.entries@);
                    let f = first_index(tail, key@);
                    assert(tail[i - start].0 == key@);
                    lemma_first_index(tail, key@);
                    assert(!has_no_key(tail, key@));
                    assert(f == i - start) by {
                        if f < i - start {
                            assert(tail[f] == self@[start + f]);
                        } else if f > i - start {
                            assert(tail[i - start].0 == key@);
                        }
                    }
                }
                return Some(i);
            }
            proof {
                lemma_entries_view(self.entries@);
            }
            i += 1;
        }
        proof {
            assert forall|j: int| 0 <= j < tail.len() implies (#[trigger] tail[j]).0 != key@ by {
                assert(tail[j] == self@[start + j]);
            }
        }
        None
    }

    /// The value of the first entry with key `key`.
    pub fn get(&self, key: &str) -> (r: Option<&Value>)
        ensures
            r is None <==> has_no_key(self@, key@),
            r is Some ==> r->0@ == self@[first_index(self@, key@)].1,
    {
        proof {
            lemma_entries_view(self.entries@);
            lemma_first_index(self@, key@);
        }
        match self.find(key) {
            Some(i) => Some(&self.entries[i].1),
            None => None,
        }
    }

    /// Removes the first entry with key `key` and returns its value.
    pub fn remove(&mut self, key: &str) -> (r: Option<Value>)
        ensures
            has_no_key(old(self)@, key@) ==> r is None && final(self)@ == old(self)@,
            !has_no_key(old(self)@, key@) ==> r is Some && r->0@ == old(self)@[first_index(
                old(self)@,
                key@,
            )].1 && final(self)@ == old(self)@.remove(first_index(old(self)@, key@)),
    {
        proof {
            lemma_entries_view(self.entries@);
            lemma_first_index(self@, key@);
        }
        match self.find(key) {
            Some(i) => {
                let (_, v) = self.remove_at(i);
                Some(v)
            },
            None => None,
        }
    }

    /// Removes the entry at `index` and returns it.
    pub fn remove_at(&mut self, index: usize) -> (r: (String, Value))
        requires
            index < old(self)@.len(),
        ensures
            (r.0@, r.1@) == old(self)@[index as int],
            final(self)@ == old(self)@.remove(index as int),
    {
        proof {
            lemma_entries_view(self.entries@);
        }
        let ghost before = self.entries@;
        let r = self.entries.remove(index);
        proof {
            lemma_entries_view(self.entries@);
            assert(self@ =~= entries_view(before).remove(index as int));
        }
        r
    }

    /// Inserts an entry at `index`, shifting later entries.
    pub fn insert_at(&mut self, index: usize, key: String, value: Value)
        requires
            index <= old(self)@.len(),
        ensures
            final(self)@ == old(self)@.insert(index as int, (key@, value@)),
    {
        proof {
            lemma_entries_view(self.entries@);
        }
        let ghost before = self.entries@;
        self.entries.insert(index, (key, value));
        proof {
            lemma_entries_view(self.entries@);
            assert(self@ =~= entries_view(before).insert(index as int, (key@, value@)));
        }
    }

    /// Appends an entry at the end, whatever keys are already present.
    pub fn push(&mut self, key: String, value: Value)
        ensures
            final(self)@ == old(self)@.push((key@, value@)),
    {
        proof {
            lemma_entries_view(self.entries@);
        }
        let ghost before = self.entries@;
        self.entries.push((key, value));
        proof {
            lemma_entries_view(self.entries@);
            assert(self@ =~= entries_view(before).push((key@, value@)));
        }
    }

    /// Sets the value of the first entry with key `key`, keeping its
    /// position, or appends a new entry when there is none.
    pub fn insert(&mut self, key: String, value: Value)
        ensures
            has_no_key(old(self)@, key@) ==> final(self)@ == old(self)@.push((key@, value@)),
            !has_no_key(old(self)@, key@) ==> final(self)@ == old(self)@.update(
                first_index(old(self)@, key@),
                (key@, value@),
            ),
    {
        proof {
            lemma_entries_view(self.entries@);
            lemma_first_index(self@, key@);
        }
        match self.find(key.as_str()) {
            Some(i) => {
                let _ = self.remove_at(i);
                self.insert_at(i, key, value);
                proof {
                    assert(self@ =~= old(self)@.update(i as int, (key@, value@)));
                }
            },
            None => {
                self.push(key, value);
            },
        }
    }

    /// Gives the entry at `index` the key `new_key`, keeping its value and
    /// position.
    pub fn rename_at(&mut self, index: usize, new_key: String)
        requires
            index < old(self)@.len(),
        ensures
            final(self)@ == old(self)@.update(index as int, (new_key@, old(self)@[index as int].1)),
    {
        let (_, v) = self.remove_at(index);
        self.insert_at(index, new_key, v);
        proof {
            assert(self@ =~= old(self)@.update(index as int, (new_key@, old(self)@[index as int].1)));
        }
    }

    /// Appends copies of all entries of `other`, in order.
    pub fn append_copy(&mut self, other: &AttrMap)
        ensures
            final(self)@ == old(self)@ + other@,
    {
        let ghost start = self@;
        let n = other.entries.len();
        let mut i: usize = 0;
        while i < n
            invariant
                n == other.entries@.len(),
                i <= n,
                self@ == start + other@.subrange(0, i as int),
            decreases n - i,
        {
            proof {
                lemma_entries_view(other.entries@);
            }
            let e = &other.entries[i];
            let v = clone_value(&e.1);
            self.push(e.0.clone(), v);
            i += 1;
            assert(self@ =~= start + other@.subrange(0, i as int));
        }
        proof {
            lemma_entries_view(other.entries@);
        }
        assert(other@.subrange(0, n as int) =~= other@);
    }

    /// Copies the first entry with key `existing` to a new entry with key
    /// `new_key` placed immediately after it; the copied entry stays.
    pub fn duplicate_key(&mut self, existing: &str, new_key: String)
        ensures
            has_no_key(old(self)@, existing@) ==> final(self)@ == old(self)@,
            !has_no_key(old(self)@, existing@) ==> final(self)@ == old(self)@.insert(
                first_index(old(self)@, existing@) + 1,
                (new_key@, old(self)@[first_index(old(self)@, existing@)].1),
            ),
    {
        proof {
            lemma_entries_view(self.entries@);
        }
        match self.find(existing) {
            Some(i) => {
                let n = self.entries.len();
                assert(i < n);
                let copy = clone_value(&self.entries[i].1);
                self.insert_at(i + 1, new_key, copy);
            },
            None => {},
        }
    }
}

} // verus!

//! PDF objects and dictionaries, as far as the font utilities read them.
//!
//! A `Dictionary` keeps its entries in insertion order with no key repeated;
//! `set` on an existing key replaces the value in place.

use vstd::prelude::*;
use crate::collections::{
    assoc_map, distinct_keys, lemma_assoc_map_contains, lemma_assoc_map_index,
    lemma_assoc_map_update, lemma_assoc_map_len,
};
use crate::text::str_eq;

verus! {

/// An indirect object reference (object number, generation number).
#[derive(Clone, Copy, Debug, PartialEq, Eq)]
pub struct ObjectId {
    pub number: u32,
    pub generation: u16,
}

impl ObjectId {
    /// The reference `number generation R`.
    pub fn new(number: u32, generation: u16) -> (r: ObjectId)
        ensures
            r.number == number,
            r.generation == generation,
    {
        ObjectId { number, generation }
    }
}

/// A PDF object (real numbers and arrays are not represented).
#[derive(Debug, PartialEq)]
pub enum Object {
    Null,
    Boolean(bool),
    Integer(i64),
    Name(String),
    String(String),
    Reference(ObjectId),
    Dictionary(Dictionary),
}

/// A PDF dictionary: names mapped to objects.
#[derive(Debug, PartialEq)]
pub struct Dictionary {
    entries: Vec<(String, Object)>,
}

/// The mathematical value of an object: strings as character sequences,
/// dictionaries as their entry lists.
pub enum ObjectView {
    Null,
    Boolean(bool),
    Integer(i64),
    Name(Seq<char>),
    String(Seq<char>),
    Reference(ObjectId),
    Dictionary(Seq<(Seq<char>, ObjectView)>),
}

/// The value of `o`.
pub closed spec fn object_view(o: Object) -> ObjectView
    decreases o,
{
    match o {
        Object::Null => ObjectView::Null,
        Object::Boolean(b) => ObjectView::Boolean(b),
        Object::Integer(i) => ObjectView::Integer(i),
        Object::Name(s) => ObjectView::Name(s@),
        Object::String(s) => ObjectView::String(s@),
        Object::Reference(id) => ObjectView::Reference(id),
        Object::Dictionary(d) => {
            proof {
                assert(decreases_to!(d => d.entries));
            }
            ObjectView::Dictionary(entries_view_of(d.entries@))
        },
    }
}

/// The values of the entries `e`.
pub closed spec fn entries_view_of(e: Seq<(String, Object)>) -> Seq<(Seq<char>, ObjectView)>
    decreases e,
{
    if e.len() == 0 {
        Seq::empty()
    } else {
        entries_view_of(e.drop_last()).push((e.last().0@, object_view(e.last().1)))
    }
}

proof fn lemma_entries_view_len(e: Seq<(String, Object)>)
    ensures
        entries_view_of(e).len() == e.len(),
    decreases e.len(),
{
    if e.len() > 0 {
        lemma_entries_view_len(e.drop_last());
    }
}

proof fn lemma_entries_view_index(e: Seq<(String, Object)>, i: int)
    requires
        0 <= i < e.len(),
    ensures
        entries_view_of(e)[i] == (e[i].0@, object_view(e[i].1)),
    decreases e.len(),
{
    lemma_entries_view_len(e.drop_last());
    if i < e.len() - 1 {
        lemma_entries_view_index(e.drop_last(), i);
    }
}

proof fn lemma_entries_view_push(e: Seq<(String, Object)>, x: (String, Object))
    ensures
        entries_view_of(e.push(x)) == entries_view_of(e).push((x.0@, object_view(x.1))),
{
    assert(e.push(x).drop_last() =~= e);
}

proof fn lemma_entries_view_update(e: Seq<(String, Object)>, i: int, x: (String, Object))
    requires
        0 <= i < e.len(),
    ensures
        entries_view_of(e.update(i, x)) == entries_view_of(e).update(i, (x.0@, object_view(x.1))),
{
    let e2 = e.update(i, x);
    lemma_entries_view_len(e);
    lemma_entries_view_len(e2);
    assert forall|j: int| 0 <= j < e.len() implies #[trigger] entries_view_of(e2)[j]
        == entries_view_of(e).update(i, (x.0@, object_view(x.1)))[j] by {
        lemma_entries_view_index(e2, j);
        lemma_entries_view_index(e, j);
    }
    assert(entries_view_of(e2) =~= entries_view_of(e).update(i, (x.0@, object_view(x.1))));
}

/// A copy of `s` (calls `String::clone`).
pub fn copy_string(s: &String) -> (r: String)
    ensures
        r == *s,
{
    s.clone()
}

/// A copy of `o`, with the same value.
pub fn copy_object(o: &Object) -> (r: Object)
    ensures
        object_view(r) == object_view(*o),
    decreases o,
{
    match o {
        Object::Null => Object::Null,
        Object::Boolean(b) => Object::Boolean(*b),
        Object::Integer(i) => Object::Integer(*i),
        Object::Name(s) => Object::Name(copy_string(s)),
        Object::String(s) => Object::String(copy_string(s)),
        Object::Reference(id) => Object::Reference(*id),
        Object::Dictionary(d) => {
            let mut out: Vec<(String, Object)> = Vec::new();
            for i in 0..d.entries.len()
                invariant
                    *o == Object::Dictionary(*d),
                    entries_view_of(out@) == entries_view_of(d.entries@.take(i as int)),
            {
                proof {
                    assert(decreases_to!(*o => o->Dictionary_0));
                    assert(decreases_to!(*d => d.entries));
                    assert(decreases_to!(d.entries => d.entries@));
                    assert(decreases_to!(d.entries@ => d.entries@[i as int]));
                    assert(decreases_to!(d.entries@[i as int] => d.entries@[i as int].1));
                }
                let k = copy_string(&d.entries[i].0);
                let v = copy_object(&d.entries[i].1);
                let ghost o0 = out@;
                out.push((k, v));
                proof {
                    lemma_entries_view_push(o0, (k, v));
                    assert(d.entries@.take(i + 1) =~= d.entries@.take(i as int).push(d.entries@[i as int]));
                    lemma_entries_view_push(d.entries@.take(i as int), d.entries@[i as int]);
                }
            }
            assert(d.entries@.take(d.entries.len() as int) =~= d.entries@);
            Object::Dictionary(Dictionary { entries: out })
        },
    }
}

impl Dictionary {
    /// The entries as (name, value) pairs, in insertion order.
    pub closed spec fn entries_view(&self) -> Seq<(Seq<char>, ObjectView)> {
        entries_view_of(self.entries@)
    }

    /// The entries of a dictionary carry distinct names.
    pub open spec fn wf(&self) -> bool {
        distinct_keys(self.entries_view())
    }

    /// The dictionary as a map from names to values.
    pub open spec fn view(&self) -> Map<Seq<char>, ObjectView> {
        assoc_map(self.entries_view())
    }

    /// An empty dictionary.
    pub fn new() -> (d: Dictionary)
        ensures
            d.wf(),
            d.entries_view() == Seq::<(Seq<char>, ObjectView)>::empty(),
            d.view() == Map::<Seq<char>, ObjectView>::empty(),
    {
        let d = Dictionary { entries: Vec::new() };
        assert(d.entries_view() =~= Seq::empty());
        d
    }

    fn find(&self, key: &str) -> (r: Option<usize>)
        ensures
            r matches Some(i) ==> i < self.entries_view().len() && self.entries_view()[i as int].0
                == key@,
            r is None ==> !self.view().contains_key(key@),
    {
        proof {
            lemma_entries_view_len(self.entries@);
        }
        let mut i: usize = 0;
        while i < self.entries.len()
            invariant
                0 <= i <= self.entries@.len(),
                self.entries_view().len() == self.entries@.len(),
                forall|j: int| 0 <= j < i ==> self.entries_view()[j].0 != key@,
            decreases self.entries@.len() - i,
        {
            proof {
                lemma_entries_view_index(self.entries@, i as int);
            }
            if str_eq(self.entries[i].0.as_str(), key) {
                return Some(i);
            }
            i += 1;
        }
        proof {
            lemma_assoc_map_contains(self.entries_view(), key@);
        }
        None
    }

    /// Sets `key` to `value`: replaces the value of an existing entry, or
    /// appends a new entry.
    pub fn set(&mut self, key: &str, value: Object)
        requires
            old(self).wf(),
        ensures
            final(self).wf(),
            final(self).view() == old(self).view().insert(key@, object_view(value)),
            !old(self).view().contains_key(key@) ==> final(self).entries_view() == old(
                self,
            ).entries_view().push((key@, object_view(value))),
    {
        let ghost p0 = self.entries_view();
        let ghost e0 = self.entries@;
        let ghost vv = object_view(value);
        proof {
            lemma_entries_view_len(self.entries@);
        }
        match self.find(key) {
            Some(i) => {
                let k = key.to_owned();
                let ghost x = (k, value);
                self.entries.set(i, (k, value));
                proof {
                    lemma_assoc_map_contains(p0, key@);
                    assert(p0[i as int].0 == key@);
                    lemma_entries_view_update(e0, i as int, x);
                    assert(self.entries_view() =~= p0.update(i as int, (p0[i as int].0, vv)));
                    lemma_assoc_map_update(p0, i as int, vv);
                    assert forall|a: int, b: int| 0 <= a < b < self.entries_view().len() implies
                        #[trigger] self.entries_view()[a].0 != #[trigger] self.entries_view()[b].0 by {
                        assert(self.entries_view()[a].0 == p0[a].0);
                        assert(self.entries_view()[b].0 == p0[b].0);
                    }
                }
            },
            None => {
                let k = key.to_owned();
                let ghost x = (k, value);
                self.entries.push((k, value));
                proof {
                    lemma_entries_view_push(e0, x);
                    let np = self.entries_view();
                    assert(np =~= p0.push((key@, vv)));
                    assert(np.drop_last() =~= p0);
                    assert forall|a: int, b: int| 0 <= a < b < np.len() implies #[trigger] np[a].0
                        != #[trigger] np[b].0 by {
                        if b == p0.len() {
                            lemma_assoc_map_contains(p0, key@);
                            assert(p0[a].0 == np[a].0);
                        } else {
                            assert(np[a] == p0[a]);
                            assert(np[b] == p0[b]);
                        }
                    }
                }
            },
        }
    }

    /// The object stored under `key`, if any.
    pub fn get(&self, key: &str) -> (r: Option<&Object>)
        requires
            self.wf(),
        ensures
            r matches Some(v) ==> self.view().contains_key(key@) && self.view()[key@]
                == object_view(*v),
            r is None ==> !self.view().contains_key(key@),
    {
        match self.find(key) {
            Some(i) => {
                proof {
                    lemma_entries_view_len(self.entries@);
                    lemma_entries_view_index(self.entries@, i as int);
                    lemma_assoc_map_index(self.entries_view(), i as int);
                }
                Some(&self.entries[i].1)
            },
            None => None,
        }
    }

    /// Whether `key` is present.
    pub fn contains_key(&self, key: &str) -> (r: bool)
        ensures
            r == self.view().contains_key(key@),
    {
        match self.find(key) {
            Some(i) => {
                proof {
                    lemma_assoc_map_contains(self.entries_view(), key@);
                    assert(self.entries_view()[i as int].0 == key@);
                }
                true
            },
            None => false,
        }
    }

    /// The number of entries.
    pub fn len(&self) -> (n: usize)
        requires
            self.wf(),
        ensures
            n == self.view().dom().len(),
            n == self.entries_view().len(),
    {
        proof {
            lemma_entries_view_len(self.entries@);
            lemma_assoc_map_len(self.entries_view());
        }
        self.entries.len()
    }

    /// Whether the dictionary has no entries.
    pub fn is_empty(&self) -> (r: bool)
        requires
            self.wf(),
        ensures
            r == (self.view().dom().len() == 0),
    {
        self.len() == 0
    }

    /// The names, in insertion order.
    pub fn keys(&self) -> (r: Vec<String>)
        ensures
            r@.len() == self.entries_view().len(),
            forall|i: int| 0 <= i < r@.len() ==> #[trigger] r@[i]@ == self.entries_view()[i].0,
    {
        proof {
            lemma_entries_view_len(self.entries@);
        }
        let mut r: Vec<String> = Vec::new();
        for i in 0..self.entries.len()
            invariant
                self.entries_view().len() == self.entries@.len(),
                r@.len() == i,
                forall|j: int| 0 <= j < i ==> #[trigger] r@[j]@ == self.entries_view()[j].0,
        {
            proof {
                lemma_entries_view_index(self.entries@, i as int);
            }
            let k = copy_string(&self.entries[i].0);
            r.push(k);
        }
        r
    }

    /// The number of entries (no well-formedness needed).
    pub fn entry_count(&self) -> (n: usize)
        ensures
            n == self.entries_view().len(),
    {
        proof {
            lemma_entries_view_len(self.entries@);
        }
        self.entries.len()
    }

    /// The name of entry `i`.
    pub fn key_at(&self, i: usize) -> (r: &String)
        requires
            i < self.entries_view().len(),
        ensures
            r@ == self.entries_view()[i as int].0,
    {
        proof {
            lemma_entries_view_len(self.entries@);
            lemma_entries_view_index(self.entries@, i as int);
        }
        &self.entries[i].0
    }

    /// The object of entry `i`.
    pub fn value_at(&self, i: usize) -> (r: &Object)
        requires
            i < self.entries_view().len(),
        ensures
            object_view(*r) == self.entries_view()[i as int].1,
    {
        proof {
            lemma_entries_view_len(self.entries@);
            lemma_entries_view_index(self.entries@, i as int);
        }
        &self.entries[i].1
    }
}

/// The value of an object, by variant.
pub proof fn lemma_object_view(o: Object)
    ensures
        match o {
            Object::Null => object_view(o) == ObjectView::Null,
            Object::Boolean(b) => object_view(o) == ObjectView::Boolean(b),
            Object::Integer(i) => object_view(o) == ObjectView::Integer(i),
            Object::Name(s) => object_view(o) == ObjectView::Name(s@),
            Object::String(s) => object_view(o) == ObjectView::String(s@),
            Object::Reference(id) => object_view(o) == ObjectView::Reference(id),
            Object::Dictionary(d) => object_view(o) == ObjectView::Dictionary(d.entries_view()),
        },
{
}

/// In a well-formed dictionary each entry's value is the value of its name.
pub proof fn lemma_dictionary_entry(d: &Dictionary, i: int)
    requires
        d.wf(),
        0 <= i < d.entries_view().len(),
    ensures
        d.view().contains_key(d.entries_view()[i].0),
        d.view()[d.entries_view()[i].0] == d.entries_view()[i].1,
{
    lemma_assoc_map_index(d.entries_view(), i);
}

/// Every name of a dictionary comes from one of its entries.
pub proof fn lemma_dictionary_key(d: &Dictionary, k: Seq<char>)
    ensures
        d.view().contains_key(k) <==> exists|i: int|
            0 <= i < d.entries_view().len() && #[trigger] d.entries_view()[i].0 == k,
{
    lemma_assoc_map_contains(d.entries_view(), k);
}

} // verus!

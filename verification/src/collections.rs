//! Small string-keyed collections with exact mathematical views: a set of
//! names and a name-to-name map. Both keep their entries in insertion order
//! with no key repeated, so that contracts can speak of their contents as a
//! `Set` and a `Map` of character sequences; std's hash collections give no
//! such view for string keys.

use vstd::prelude::*;
use crate::text::{bytes_eq, str_eq};
use vstd::utf8::{encode_utf8, encode_utf8_decode_utf8};

verus! {

/// The map described by an association list: later entries win.
pub open spec fn assoc_map<V>(e: Seq<(Seq<char>, V)>) -> Map<Seq<char>, V>
    decreases e.len(),
{
    if e.len() == 0 {
        Map::empty()
    } else {
        assoc_map(e.drop_last()).insert(e.last().0, e.last().1)
    }
}

/// No key occurs twice in the association list.
pub open spec fn distinct_keys<V>(e: Seq<(Seq<char>, V)>) -> bool {
    forall|i: int, j: int| 0 <= i < j < e.len() ==> #[trigger] e[i].0 != #[trigger] e[j].0
}

/// A key is in the map exactly when some entry carries it.
pub proof fn lemma_assoc_map_contains<V>(e: Seq<(Seq<char>, V)>, k: Seq<char>)
    ensures
        assoc_map(e).contains_key(k) <==> exists|i: int| 0 <= i < e.len() && #[trigger] e[i].0 == k,
    decreases e.len(),
{
    if e.len() > 0 {
        lemma_assoc_map_contains(e.drop_last(), k);
        if assoc_map(e).contains_key(k) && e.last().0 != k {
            let i = choose|i: int| 0 <= i < e.drop_last().len() && #[trigger] e.drop_last()[i].0 == k;
            assert(e[i].0 == k);
        }
        if exists|i: int| 0 <= i < e.len() && #[trigger] e[i].0 == k {
            let i = choose|i: int| 0 <= i < e.len() && #[trigger] e[i].0 == k;
            if i < e.len() - 1 {
                assert(e.drop_last()[i].0 == k);
            }
        }
    }
}

/// With distinct keys, each entry's value is what the map holds for its key.
pub proof fn lemma_assoc_map_index<V>(e: Seq<(Seq<char>, V)>, i: int)
    requires
        distinct_keys(e),
        0 <= i < e.len(),
    ensures
        assoc_map(e).contains_key(e[i].0),
        assoc_map(e)[e[i].0] == e[i].1,
    decreases e.len(),
{
    if i < e.len() - 1 {
        assert(e.drop_last()[i] == e[i]);
        lemma_assoc_map_index(e.drop_last(), i);
        assert(e[i].0 != e[e.len() - 1].0);
    }
}

/// Replacing the value of an existing entry updates the map at its key.
pub proof fn lemma_assoc_map_update<V>(e: Seq<(Seq<char>, V)>, i: int, v: V)
    requires
        distinct_keys(e),
        0 <= i < e.len(),
    ensures
        assoc_map(e.update(i, (e[i].0, v))) =~= assoc_map(e).insert(e[i].0, v),
    decreases e.len(),
{
    let e2 = e.update(i, (e[i].0, v));
    if i == e.len() - 1 {
        assert(e2.drop_last() =~= e.drop_last());
    } else {
        assert(e2.drop_last() =~= e.drop_last().update(i, (e[i].0, v)));
        assert(e.drop_last()[i] == e[i]);
        lemma_assoc_map_update(e.drop_last(), i, v);
        assert(e[i].0 != e.last().0);
    }
}

/// The map of an association list has finitely many keys.
pub proof fn lemma_assoc_map_finite<V>(e: Seq<(Seq<char>, V)>)
    ensures
        assoc_map(e).dom().finite(),
    decreases e.len(),
{
    if e.len() > 0 {
        lemma_assoc_map_finite(e.drop_last());
    }
}

/// The number of keys of a map with distinct keys is its number of entries.
pub proof fn lemma_assoc_map_len<V>(e: Seq<(Seq<char>, V)>)
    requires
        distinct_keys(e),
    ensures
        assoc_map(e).dom().finite(),
        assoc_map(e).dom().len() == e.len(),
    decreases e.len(),
{
    if e.len() > 0 {
        lemma_assoc_map_len(e.drop_last());
        lemma_assoc_map_contains(e.drop_last(), e.last().0);
        assert(!assoc_map(e.drop_last()).contains_key(e.last().0));
    }
}

spec fn names_of(v: Seq<String>) -> Seq<Seq<char>> {
    v.map_values(|s: String| s@)
}

spec fn pairs_of(v: Seq<(String, String)>) -> Seq<(Seq<char>, Seq<char>)> {
    v.map_values(|p: (String, String)| (p.0@, p.1@))
}

/// A finite set of names (the keys already taken, the fonts a stream uses).
pub struct NameSet {
    items: Vec<String>,
}

impl NameSet {
    /// The names, in insertion order.
    pub closed spec fn names(&self) -> Seq<Seq<char>> {
        names_of(self.items@)
    }

    #[verifier::type_invariant]
    closed spec fn inv(&self) -> bool {
        self.names().no_duplicates()
    }

    /// The set of names.
    pub closed spec fn view(&self) -> Set<Seq<char>> {
        self.names().to_set()
    }

    /// An empty set.
    pub fn new() -> (s: NameSet)
        ensures
            s.view() == Set::<Seq<char>>::empty(),
    {
        let s = NameSet { items: Vec::new() };
        assert(s.names().to_set() =~= Set::<Seq<char>>::empty());
        s
    }

    /// Whether `name` is in the set.
    pub fn contains(&self, name: &str) -> (r: bool)
        ensures
            r == self.view().contains(name@),
    {
        let mut i: usize = 0;
        while i < self.items.len()
            invariant
                0 <= i <= self.items@.len(),
                forall|j: int| 0 <= j < i ==> self.names()[j] != name@,
            decreases self.items@.len() - i,
        {
            if str_eq(self.items[i].as_str(), name) {
                proof {
                    assert(self.names()[i as int] == name@);
                }
                return true;
            }
            i += 1;
        }
        proof {
            if self.names().to_set().contains(name@) {
                let j = choose|j: int| 0 <= j < self.names().len() && self.names()[j] == name@;
                assert(self.names()[j] == name@);
            }
        }
        false
    }

    /// Adds `name`; returns whether it was new (like `HashSet::insert`).
    pub fn insert(&mut self, name: String) -> (r: bool)
        ensures
            final(self).view() == old(self).view().insert(name@),
            r == !old(self).view().contains(name@),
    {
        if self.contains(name.as_str()) {
            assert(self.view().insert(name@) =~= self.view());
            return false;
        }
        proof {
            use_type_invariant(&*self);
        }
        let ghost n0 = self.names();
        let ghost nm = name@;
        let mut items: Vec<String> = Vec::new();
        std::mem::swap(&mut items, &mut self.items);
        items.push(name);
        proof {
            assert(names_of(items@) =~= n0.push(nm));
            n0.lemma_push_to_set_commute(nm);
            assert forall|i: int, j: int| 0 <= i < j < names_of(items@).len() implies names_of(
                items@,
            )[i] != names_of(items@)[j] by {
                if j == n0.len() {
                    assert(n0.contains(n0[i]));
                }
            }
        }
        self.items = items;
        true
    }

    /// The number of names.
    pub fn len(&self) -> (n: usize)
        ensures
            n == self.view().len(),
    {
        proof {
            use_type_invariant(self);
            self.names().unique_seq_to_set();
        }
        self.items.len()
    }

    /// The set is finite.
    pub proof fn lemma_finite(&self)
        ensures
            self.view().finite(),
    {
        vstd::seq_lib::seq_to_set_is_finite(self.names());
    }

    /// Whether the set has no names.
    pub fn is_empty(&self) -> (r: bool)
        ensures
            r == (self.view().len() == 0),
    {
        self.len() == 0
    }
}

/// A map from names to names (a font rename map).
pub struct NameMap {
    entries: Vec<(String, String)>,
}

impl NameMap {
    /// The entries as (key, value) character sequences, in insertion order.
    pub closed spec fn pairs(&self) -> Seq<(Seq<char>, Seq<char>)> {
        pairs_of(self.entries@)
    }

    #[verifier::type_invariant]
    closed spec fn inv(&self) -> bool {
        distinct_keys(self.pairs())
    }

    /// The map.
    pub closed spec fn view(&self) -> Map<Seq<char>, Seq<char>> {
        assoc_map(self.pairs())
    }

    /// The map has finitely many keys.
    pub proof fn lemma_finite(&self)
        ensures
            self.view().dom().finite(),
    {
        lemma_assoc_map_finite(self.pairs());
    }

    /// An empty map.
    pub fn new() -> (m: NameMap)
        ensures
            m.view() == Map::<Seq<char>, Seq<char>>::empty(),
    {
        let m = NameMap { entries: Vec::new() };
        assert(m.pairs() =~= Seq::empty());
        m
    }

    /// The index of the entry for `key`, if any.
    fn find(&self, key: &str) -> (r: Option<usize>)
        ensures
            r matches Some(i) ==> i < self.pairs().len() && self.pairs()[i as int].0 == key@,
            r is None ==> !self.view().contains_key(key@),
    {
        let mut i: usize = 0;
        while i < self.entries.len()
            invariant
                0 <= i <= self.entries@.len(),
                forall|j: int| 0 <= j < i ==> self.pairs()[j].0 != key@,
            decreases self.entries@.len() - i,
        {
            if str_eq(self.entries[i].0.as_str(), key) {
                return Some(i);
            }
            i += 1;
        }
        proof {
            lemma_assoc_map_contains(self.pairs(), key@);
        }
        None
    }

    /// The value mapped to `key`, if any.
    pub fn get(&self, key: &str) -> (r: Option<&String>)
        ensures
            r matches Some(v) ==> self.view().contains_key(key@) && self.view()[key@] == v@,
            r is None ==> !self.view().contains_key(key@),
    {
        proof {
            use_type_invariant(self);
        }
        match self.find(key) {
            Some(i) => {
                proof {
                    lemma_assoc_map_index(self.pairs(), i as int);
                }
                Some(&self.entries[i].1)
            },
            None => None,
        }
    }

    /// Whether `key` is mapped.
    pub fn contains_key(&self, key: &str) -> (r: bool)
        ensures
            r == self.view().contains_key(key@),
    {
        self.get(key).is_some()
    }

    /// Maps `key` to `value`, replacing any earlier value.
    pub fn insert(&mut self, key: String, value: String)
        ensures
            final(self).view() == old(self).view().insert(key@, value@),
    {
        proof {
            use_type_invariant(&*self);
        }
        let ghost p0 = self.pairs();
        match self.find(key.as_str()) {
            Some(i) => {
                let ghost v = value@;
                let mut entries: Vec<(String, String)> = Vec::new();
                std::mem::swap(&mut entries, &mut self.entries);
                entries.set(i, (key, value));
                proof {
                    assert(pairs_of(entries@) =~= p0.update(i as int, (p0[i as int].0, v)));
                    lemma_assoc_map_update(p0, i as int, v);
                    assert forall|a: int, b: int| 0 <= a < b < pairs_of(entries@).len() implies
                        #[trigger] pairs_of(entries@)[a].0 != #[trigger] pairs_of(entries@)[b].0 by {
                        assert(pairs_of(entries@)[a].0 == p0[a].0);
                        assert(pairs_of(entries@)[b].0 == p0[b].0);
                    }
                }
                self.entries = entries;
            },
            None => {
                let ghost k = key@;
                let ghost v = value@;
                let mut entries: Vec<(String, String)> = Vec::new();
                std::mem::swap(&mut entries, &mut self.entries);
                entries.push((key, value));
                proof {
                    let np = pairs_of(entries@);
                    assert(np =~= p0.push((k, v)));
                    assert(np.drop_last() =~= p0);
                    assert forall|a: int, b: int| 0 <= a < b < np.len() implies
                        #[trigger] np[a].0 != #[trigger] np[b].0 by {
                        if b == p0.len() {
                            lemma_assoc_map_contains(p0, k);
                            assert(p0[a].0 == np[a].0);
                        } else {
                            assert(np[a] == p0[a]);
                            assert(np[b] == p0[b]);
                        }
                    }
                }
                self.entries = entries;
            },
        }
    }

    /// The number of mapped keys.
    pub fn len(&self) -> (n: usize)
        ensures
            n == self.view().dom().len(),
    {
        proof {
            use_type_invariant(self);
            lemma_assoc_map_len(self.pairs());
        }
        self.entries.len()
    }

    /// Whether no key is mapped.
    pub fn is_empty(&self) -> (r: bool)
        ensures
            r == (self.view().dom().len() == 0),
    {
        self.len() == 0
    }

    /// Whether some key is mapped to `value`.
    pub fn has_value(&self, value: &str) -> (r: bool)
        ensures
            r == exists|k: Seq<char>| #[trigger] self.view().contains_key(k) && self.view()[k] == value@,
    {
        proof {
            use_type_invariant(self);
        }
        let mut i: usize = 0;
        while i < self.entries.len()
            invariant
                0 <= i <= self.entries@.len(),
                distinct_keys(self.pairs()),
                forall|j: int| 0 <= j < i ==> self.pairs()[j].1 != value@,
            decreases self.entries@.len() - i,
        {
            if str_eq(self.entries[i].1.as_str(), value) {
                proof {
                    lemma_assoc_map_index(self.pairs(), i as int);
                    assert(self.view().contains_key(self.pairs()[i as int].0));
                }
                return true;
            }
            i += 1;
        }
        proof {
            assert forall|k: Seq<char>| #[trigger] self.view().contains_key(k) implies self.view()[k]
                != value@ by {
                lemma_assoc_map_contains(self.pairs(), k);
                let j = choose|j: int| 0 <= j < self.pairs().len() && #[trigger] self.pairs()[j].0 == k;
                lemma_assoc_map_index(self.pairs(), j);
            }
        }
        false
    }
}


/// The value of the key whose UTF-8 encoding is `b`, if `m` has one (at most
/// one key has a given encoding).
pub open spec fn lookup_utf8(m: Map<Seq<char>, Seq<char>>, b: Seq<u8>) -> Option<Seq<char>> {
    if exists|k: Seq<char>| m.contains_key(k) && encode_utf8(k) == b {
        Some(m[choose|k: Seq<char>| m.contains_key(k) && encode_utf8(k) == b])
    } else {
        None
    }
}

impl NameMap {
    /// The value of the key whose UTF-8 encoding is `bytes`, if any.
    pub fn get_utf8(&self, bytes: &[u8]) -> (r: Option<&String>)
        ensures
            r matches Some(v) ==> lookup_utf8(self.view(), bytes@) == Some(v@),
            r is None ==> lookup_utf8(self.view(), bytes@) is None,
    {
        proof {
            use_type_invariant(self);
        }
        let mut i: usize = 0;
        while i < self.entries.len()
            invariant
                0 <= i <= self.entries@.len(),
                distinct_keys(self.pairs()),
                forall|j: int| 0 <= j < i ==> encode_utf8(#[trigger] self.pairs()[j].0) != bytes@,
            decreases self.entries@.len() - i,
        {
            let kb = self.entries[i].0.as_str().as_bytes();
            if bytes_eq(kb, bytes) {
                proof {
                    let k = self.pairs()[i as int].0;
                    lemma_assoc_map_index(self.pairs(), i as int);
                    assert(self.view().contains_key(k) && encode_utf8(k) == bytes@);
                    let k2 = choose|k2: Seq<char>| self.view().contains_key(k2) && encode_utf8(k2) == bytes@;
                    encode_utf8_decode_utf8(k);
                    encode_utf8_decode_utf8(k2);
                    assert(k2 == k);
                }
                return Some(&self.entries[i].1);
            }
            i += 1;
        }
        proof {
            if exists|k: Seq<char>| self.view().contains_key(k) && encode_utf8(k) == bytes@ {
                let k = choose|k: Seq<char>| self.view().contains_key(k) && encode_utf8(k) == bytes@;
                lemma_assoc_map_contains(self.pairs(), k);
                let j = choose|j: int| 0 <= j < self.pairs().len() && #[trigger] self.pairs()[j].0 == k;
                assert(encode_utf8(self.pairs()[j].0) != bytes@);
            }
        }
        None
    }
}

} // verus!

//! A map from strings to values that remembers the order of insertion.

use crate::text::same;
use vstd::prelude::*;

verus! {

/// A map keyed by strings. Its entries stand in the order in which their keys
/// were first inserted, and no key occurs twice.
#[derive(Debug)]
pub struct Table<V> {
    entries: Vec<(String, V)>,
}

impl<V> View for Table<V> {
    type V = Map<Seq<char>, V>;

    open spec fn view(&self) -> Map<Seq<char>, V> {
        let keys = self.keys();
        let values = self.values();
        Map::new(|k: Seq<char>| keys.contains(k), |k: Seq<char>| values[keys.index_of(k)])
    }
}

impl<V> Table<V> {
    /// The keys in order.
    pub closed spec fn keys(&self) -> Seq<Seq<char>> {
        self.entries@.map_values(|e: (String, V)| e.0@)
    }

    /// The values, in the order of their keys.
    pub closed spec fn values(&self) -> Seq<V> {
        self.entries@.map_values(|e: (String, V)| e.1)
    }

    #[verifier::type_invariant]
    spec fn distinct_keys(&self) -> bool {
        self.keys().no_duplicates()
    }

    /// The entries are the map, each key once.
    pub open spec fn consistent(&self) -> bool {
        &&& self.keys().no_duplicates()
        &&& self.keys().len() == self.values().len()
        &&& self@.dom().finite()
        &&& self@.len() == self.keys().len()
        &&& forall|i: int|
            0 <= i < self.keys().len() ==> self@.dom().contains(#[trigger] self.keys()[i])
                && self@[self.keys()[i]] == self.values()[i]
    }

    proof fn lemma_entries(&self)
        requires
            self.distinct_keys(),
        ensures
            self.consistent(),
    {
        let keys = self.keys();
        keys.unique_seq_to_set();
        assert(self@.dom() =~= keys.to_set());
        assert forall|i: int| 0 <= i < keys.len() implies self@.dom().contains(#[trigger] keys[i])
            && self@[keys[i]] == self.values()[i] by {
            assert(keys.contains(keys[i]));
            assert(keys[keys.index_of(keys[i])] == keys[i]);
        }
    }

    /// An empty table.
    pub fn new() -> (r: Self)
        ensures
            r@ == Map::<Seq<char>, V>::empty(),
            r.keys().len() == 0,
    {
        let r = Table { entries: Vec::new() };
        assert(r@ =~= Map::<Seq<char>, V>::empty());
        r
    }

    /// The number of entries.
    pub fn len(&self) -> (r: usize)
        ensures
            r == self@.len(),
            r == self.keys().len(),
            self.consistent(),
    {
        proof {
            use_type_invariant(self);
            self.lemma_entries();
        }
        self.entries.len()
    }

    /// The position of `key`.
    fn find(&self, key: &str) -> (r: Option<usize>)
        ensures
            match r {
                None => !self.keys().contains(key@),
                Some(i) => i < self.keys().len() && self.keys()[i as int] == key@,
            },
    {
        let mut i: usize = 0;
        while i < self.entries.len()
            invariant
                i <= self.entries@.len(),
                forall|j: int| 0 <= j < i ==> #[trigger] self.keys()[j] != key@,
            decreases self.entries@.len() - i,
        {
            if same(self.entries[i].0.as_str(), key) {
                return Some(i);
            }
            i += 1;
        }
        None
    }

    /// The value of `key`.
    pub fn get(&self, key: &str) -> (r: Option<&V>)
        ensures
            match r {
                None => !self@.dom().contains(key@),
                Some(v) => self@.dom().contains(key@) && self@[key@] == *v,
            },
    {
        proof {
            use_type_invariant(self);
            self.lemma_entries();
        }
        match self.find(key) {
            None => None,
            Some(i) => {
                assert(self.values()[i as int] == self.entries@[i as int].1);
                Some(&self.entries[i].1)
            },
        }
    }

    /// Whether `key` has a value.
    pub fn contains_key(&self, key: &str) -> (r: bool)
        ensures
            r == self@.dom().contains(key@),
    {
        self.get(key).is_some()
    }

    /// The `i`-th entry.
    pub fn entry(&self, i: usize) -> (r: (&String, &V))
        requires
            i < self.keys().len(),
        ensures
            r.0@ == self.keys()[i as int],
            *r.1 == self.values()[i as int],
            self@.dom().contains(r.0@),
            self@[r.0@] == *r.1,
    {
        proof {
            use_type_invariant(self);
            self.lemma_entries();
        }
        (&self.entries[i].0, &self.entries[i].1)
    }

    /// Gives `key` a value. A key that is already there keeps its place.
    pub fn insert(&mut self, key: String, value: V)
        ensures
            final(self)@ == old(self)@.insert(key@, value),
            final(self).keys() == if old(self)@.dom().contains(key@) {
                old(self).keys()
            } else {
                old(self).keys().push(key@)
            },
    {
        proof {
            use_type_invariant(&*self);
            self.lemma_entries();
        }
        let ghost keys0 = self.keys();
        let ghost values0 = self.values();
        let ghost map0 = self@;
        let found: Option<usize> = self.find(key.as_str());
        let mut entries: Vec<(String, V)> = Vec::new();
        std::mem::swap(&mut entries, &mut self.entries);
        match found {
            None => {
                entries.push((key, value));
                proof {
                    let keys1 = entries@.map_values(|e: (String, V)| e.0@);
                    assert(keys1 =~= keys0.push(key@));
                }
                self.entries = entries;
                assert(self.keys() =~= keys0.push(key@));
                assert(self.values() =~= values0.push(value));
                proof {
                    self.lemma_entries();
                    assert forall|k: Seq<char>| #[trigger]
                        map0.insert(key@, value).dom().contains(k) implies self@.dom().contains(k)
                        && self@[k] == map0.insert(key@, value)[k] by {
                        if k == key@ {
                            assert(self.keys()[keys0.len() as int] == k);
                        } else {
                            let i = keys0.index_of(k);
                            assert(self.keys()[i] == k);
                        }
                    }
                    assert forall|k: Seq<char>| #[trigger] self@.dom().contains(k) implies map0.insert(
                        key@,
                        value,
                    ).dom().contains(k) by {
                        let i = self.keys().index_of(k);
                        if i < keys0.len() {
                            assert(keys0[i] == k);
                        }
                    }
                    assert(self@ =~= map0.insert(key@, value));
                }
            },
            Some(i) => {
                entries[i].1 = value;
                proof {
                    let keys1 = entries@.map_values(|e: (String, V)| e.0@);
                    assert(keys1 =~= keys0);
                }
                self.entries = entries;
                assert(self.keys() =~= keys0);
                assert(self.values() =~= values0.update(i as int, value));
                proof {
                    self.lemma_entries();
                    assert(keys0.contains(keys0[i as int]));
                    assert forall|k: Seq<char>| #[trigger] self@.dom().contains(k) implies self@[k]
                        == map0.insert(key@, value)[k] by {
                        let j = keys0.index_of(k);
                        assert(self.keys()[j] == k);
                    }
                    assert(self@ =~= map0.insert(key@, value));
                }
            },
        }
    }

    /// Takes `key` out of the table. The other entries keep their order.
    pub fn remove(&mut self, key: &str)
        ensures
            final(self)@ == old(self)@.remove(key@),
            final(self).keys() == if old(self)@.dom().contains(key@) {
                old(self).keys().remove(old(self).keys().index_of(key@))
            } else {
                old(self).keys()
            },
    {
        proof {
            use_type_invariant(&*self);
            self.lemma_entries();
        }
        let ghost keys0 = self.keys();
        let ghost values0 = self.values();
        let ghost map0 = self@;
        let found: Option<usize> = self.find(key);
        match found {
            None => {
                assert(self@ =~= map0.remove(key@));
            },
            Some(i) => {
                let mut entries: Vec<(String, V)> = Vec::new();
                std::mem::swap(&mut entries, &mut self.entries);
                let _ = entries.remove(i);
                proof {
                    let keys1 = entries@.map_values(|e: (String, V)| e.0@);
                    assert(keys1 =~= keys0.remove(i as int));
                }
                self.entries = entries;
                proof {
                    self.lemma_entries();
                    assert(keys0.contains(keys0[i as int]));
                    assert(keys0.index_of(key@) == i);
                    assert(self.keys() =~= keys0.remove(i as int));
                    assert(self.values() =~= values0.remove(i as int));
                    assert forall|k: Seq<char>| #[trigger] map0.remove(key@).dom().contains(k) implies self@.dom().contains(
                        k,
                    ) && self@[k] == map0.remove(key@)[k] by {
                        let j = keys0.index_of(k);
                        let j2 = if j < i { j } else { j - 1 };
                        assert(self.keys()[j2] == k);
                    }
                    assert forall|k: Seq<char>| #[trigger] self@.dom().contains(k) implies map0.remove(
                        key@,
                    ).dom().contains(k) by {
                        let j = self.keys().index_of(k);
                        let j2 = if j < i { j } else { j + 1 };
                        assert(keys0[j2] == k);
                    }
                    assert(self@ =~= map0.remove(key@));
                }
            },
        }
    }
}

/// A table holds each of its entries under the entry's name, and nothing under
/// any other name.
proof fn law_entries_are_held<V>(table: Table<V>, i: int, name: Seq<char>)
    requires
        table.distinct_keys(),
    ensures
        0 <= i < table.entries@.len() ==> table@.dom().contains(table.entries@[i].0@)
            && table@[table.entries@[i].0@] == table.entries@[i].1,
        table@.dom().contains(name) <==> exists|j: int|
            0 <= j < table.entries@.len() && (#[trigger] table.entries@[j]).0@ == name,
{
    let keys = table.keys();
    if 0 <= i < table.entries@.len() {
        assert(keys[i] == table.entries@[i].0@);
        assert(keys.contains(keys[i]));
        let at = keys.index_of(keys[i]);
        assert(at == i);
    }
    if keys.contains(name) {
        let j = keys.index_of(name);
        assert(table.entries@[j].0@ == name);
    }
    if exists|j: int| 0 <= j < table.entries@.len() && (#[trigger] table.entries@[j]).0@ == name {
        let j = choose|j: int|
            0 <= j < table.entries@.len() && (#[trigger] table.entries@[j]).0@ == name;
        assert(keys[j] == name);
    }
}

} // verus!

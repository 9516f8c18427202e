//! Keyed collections of the account: a map and a set over identifiers.
//!
//! Both keep their entries in insertion order and never hold a key twice.

use crate::ids::Key;
use vstd::prelude::*;

verus! {

/// A map from identifiers to records, each key held once.
pub struct IdMap<K: Key, V> {
    entries: Vec<(K, V)>,
}

/// A set of identifiers, each held once.
pub struct IdSet<K: Key> {
    items: Vec<K>,
}

impl<K: Key, V> View for IdMap<K, V> {
    type V = Map<K, V>;

    open spec fn view(&self) -> Map<K, V> {
        Map::new(
            |k: K| self.keys().contains(k),
            |k: K| self.entries()[self.keys().index_of(k)].1,
        )
    }
}

impl<K: Key, V> IdMap<K, V> {
    /// The entries in insertion order.
    pub closed spec fn entries(&self) -> Seq<(K, V)> {
        self.entries@
    }

    /// The keys in insertion order.
    pub open spec fn keys(&self) -> Seq<K> {
        self.entries().map_values(|e: (K, V)| e.0)
    }

    /// No key occurs twice.
    #[verifier::type_invariant]
    pub closed spec fn wf(&self) -> bool {
        self.entries@.map_values(|e: (K, V)| e.0).no_duplicates()
    }

    /// Where no key occurs twice, every entry is the map's record for its key.
    pub proof fn lemma_entry(&self, i: int)
        requires
            self.keys().no_duplicates(),
            0 <= i < self.entries().len(),
        ensures
            self@.contains_key(self.entries()[i].0),
            self@[self.entries()[i].0] == self.entries()[i].1,
    {
        let k = self.entries()[i].0;
        assert(self.keys()[i] == k);
        assert(self.keys().contains(k));
        let j = self.keys().index_of(k);
        assert(self.keys()[j] == k);
    }

    pub fn new() -> (m: Self)
        ensures
            m@ == Map::<K, V>::empty(),
            m.entries() == Seq::<(K, V)>::empty(),
    {
        let m = IdMap { entries: Vec::new() };
        assert(m@ =~= Map::<K, V>::empty());
        m
    }

    pub fn len(&self) -> (n: usize)
        ensures
            n == self.entries().len(),
    {
        self.entries.len()
    }

    /// The key of the `i`-th entry.
    pub fn key_at(&self, i: usize) -> (k: K)
        requires
            i < self.entries().len(),
        ensures
            k == self.entries()[i as int].0,
    {
        self.entries[i].0
    }

    /// The record of the `i`-th entry.
    pub fn value_at(&self, i: usize) -> (v: &V)
        requires
            i < self.entries().len(),
        ensures
            *v == self.entries()[i as int].1,
    {
        &self.entries[i].1
    }

    /// The position of `key` among the entries: that of its first, and
    /// only, entry.
    pub fn position(&self, key: &K) -> (p: Option<usize>)
        ensures
            match p {
                Some(i) => i < self.entries().len() && self.entries()[i as int].0 == *key
                    && forall|j: int| 0 <= j < i ==> self.entries()[j].0 != *key,
                None => !self.keys().contains(*key),
            },
    {
        let mut i: usize = 0;
        while i < self.entries.len()
            invariant
                i <= self.entries@.len(),
                forall|j: int| 0 <= j < i ==> self.entries@[j].0 != *key,
            decreases self.entries@.len() - i,
        {
            if self.entries[i].0.same(key) {
                return Some(i);
            }
            i += 1;
        }
        assert(!self.keys().contains(*key)) by {
            if self.keys().contains(*key) {
                let j = self.keys().index_of(*key);
                assert(self.keys()[j] == self.entries()[j].0);
            }
        }
        None
    }

    pub fn contains_key(&self, key: &K) -> (r: bool)
        ensures
            r == self@.contains_key(*key),
    {
        let p = self.position(key);
        proof {
            if let Some(i) = p {
                assert(self.keys()[i as int] == *key);
            }
        }
        p.is_some()
    }

    /// Recalls that no key occurs twice; costs nothing at run time.
    pub fn distinct_keys(&self)
        ensures
            self.keys().no_duplicates(),
    {
        proof {
            use_type_invariant(self);
        }
    }

    pub fn get(&self, key: &K) -> (r: Option<&V>)
        ensures
            match r {
                Some(v) => self@.contains_key(*key) && *v == self@[*key],
                None => !self@.contains_key(*key),
            },
    {
        match self.position(key) {
            Some(i) => {
                proof {
                    use_type_invariant(self);
                    self.lemma_entry(i as int);
                }
                Some(&self.entries[i].1)
            },
            None => None,
        }
    }

    /// Sets the record of `key`, replacing the one it had.
    pub fn insert(&mut self, key: K, value: V)
        ensures
            final(self)@ == old(self)@.insert(key, value),
            match old(self).keys().contains(key) {
                true => final(self).entries() == old(self).entries().update(
                    old(self).keys().index_of(key),
                    (key, value),
                ),
                false => final(self).entries() == old(self).entries().push((key, value)),
            },
    {
        let ghost before = *self;
        proof {
            use_type_invariant(&*self);
        }
        let position = self.position(&key);
        let mut entries: Vec<(K, V)> = Vec::new();
        core::mem::swap(&mut entries, &mut self.entries);
        match position {
            Some(i) => {
                proof {
                    assert(before.keys()[i as int] == key);
                    assert(before.keys().contains(key));
                    let j = before.keys().index_of(key);
                    assert(before.keys()[j] == key);
                    assert(j == i);
                }
                entries.set(i, (key, value));
                proof {
                    assert(entries@.map_values(|e: (K, V)| e.0) =~= before.keys());
                }
                self.entries = entries;
                proof {
                    assert(self.keys() =~= before.keys());
                    assert forall|k: K| #[trigger] self@.contains_key(k) implies self@[k]
                        == before@.insert(key, value)[k] by {
                        let j = self.keys().index_of(k);
                        assert(self.keys()[j] == k);
                    }
                    assert(self@ =~= before@.insert(key, value));
                }
            },
            None => {
                entries.push((key, value));
                proof {
                    assert(entries@.map_values(|e: (K, V)| e.0) =~= before.keys().push(key));
                }
                self.entries = entries;
                proof {
                    assert(self.keys() =~= before.keys().push(key));
                    assert forall|k: K| #[trigger] self@.contains_key(k) implies before@.insert(
                        key,
                        value,
                    ).contains_key(k) by {
                        let j = self.keys().index_of(k);
                        assert(self.keys()[j] == k);
                        if j < before.keys().len() {
                            assert(before.keys()[j] == k);
                        }
                    }
                    assert forall|k: K| #[trigger]
                        before@.insert(key, value).contains_key(k) implies self@.contains_key(
                        k,
                    ) by {
                        if k == key {
                            assert(self.keys()[before.keys().len() as int] == key);
                        } else {
                            let j = before.keys().index_of(k);
                            assert(before.keys()[j] == k);
                            assert(self.keys()[j] == k);
                        }
                    }
                    assert forall|k: K| #[trigger] self@.contains_key(k) implies self@[k]
                        == before@.insert(key, value)[k] by {
                        let j = self.keys().index_of(k);
                        assert(self.keys()[j] == k);
                        if k == key {
                            assert(self.keys()[before.keys().len() as int] == key);
                        } else {
                            assert(before.keys()[j] == k);
                            let j0 = before.keys().index_of(k);
                            assert(before.keys()[j0] == k);
                        }
                    }
                    assert(self@ =~= before@.insert(key, value));
                }
            },
        }
    }

    /// Removes `key` and its record, if it is there.
    pub fn remove(&mut self, key: &K)
        ensures
            final(self)@ == old(self)@.remove(*key),
            match old(self).keys().contains(*key) {
                true => final(self).entries() == old(self).entries().remove(
                    old(self).keys().index_of(*key),
                ),
                false => final(self).entries() == old(self).entries(),
            },
    {
        let ghost before = *self;
        proof {
            use_type_invariant(&*self);
        }
        match self.position(key) {
            Some(i) => {
                proof {
                    assert(before.keys()[i as int] == *key);
                    let j = before.keys().index_of(*key);
                    assert(before.keys()[j] == *key);
                }
                let mut entries: Vec<(K, V)> = Vec::new();
                core::mem::swap(&mut entries, &mut self.entries);
                entries.remove(i);
                proof {
                    assert(entries@.map_values(|e: (K, V)| e.0) =~= before.keys().remove(i as int));
                }
                self.entries = entries;
                proof {
                    assert(self.keys() =~= before.keys().remove(i as int));
                    assert forall|k: K| #[trigger] self@.contains_key(k) implies before@.remove(
                        *key,
                    ).contains_key(k) && self@[k] == before@[k] by {
                        let j = self.keys().index_of(k);
                        assert(self.keys()[j] == k);
                        let j0 = if j < i { j } else { j + 1 };
                        assert(before.keys()[j0] == k);
                        let j1 = before.keys().index_of(k);
                        assert(before.keys()[j1] == k);
                    }
                    assert forall|k: K| #[trigger]
                        before@.remove(*key).contains_key(k) implies self@.contains_key(k) by {
                        let j = before.keys().index_of(k);
                        assert(before.keys()[j] == k);
                        let j0 = if j < i { j } else { j - 1 };
                        assert(self.keys()[j0] == k);
                    }
                    assert(self@ =~= before@.remove(*key));
                }
            },
            None => {
                assert(self@ =~= before@.remove(*key));
            },
        }
    }
}

impl<K: Key> View for IdSet<K> {
    type V = Set<K>;

    open spec fn view(&self) -> Set<K> {
        self.items().to_set()
    }
}

impl<K: Key> IdSet<K> {
    /// The members in insertion order.
    pub closed spec fn items(&self) -> Seq<K> {
        self.items@
    }

    /// No member occurs twice.
    #[verifier::type_invariant]
    pub closed spec fn wf(&self) -> bool {
        self.items@.no_duplicates()
    }

    pub fn new() -> (s: Self)
        ensures
            s@ == Set::<K>::empty(),
            s.items() == Seq::<K>::empty(),
    {
        let s = IdSet { items: Vec::new() };
        assert(s@ =~= Set::<K>::empty());
        s
    }

    pub fn len(&self) -> (n: usize)
        ensures
            n == self.items().len(),
    {
        self.items.len()
    }

    /// The `i`-th member.
    pub fn item_at(&self, i: usize) -> (k: K)
        requires
            i < self.items().len(),
        ensures
            k == self.items()[i as int],
    {
        self.items[i]
    }

    fn position(&self, key: &K) -> (p: Option<usize>)
        ensures
            match p {
                Some(i) => i < self.items().len() && self.items()[i as int] == *key,
                None => !self.items().contains(*key),
            },
    {
        let mut i: usize = 0;
        while i < self.items.len()
            invariant
                i <= self.items@.len(),
                forall|j: int| 0 <= j < i ==> self.items@[j] != *key,
            decreases self.items@.len() - i,
        {
            if self.items[i].same(key) {
                return Some(i);
            }
            i += 1;
        }
        None
    }

    pub fn contains(&self, key: &K) -> (r: bool)
        ensures
            r == self@.contains(*key),
    {
        self.position(key).is_some()
    }

    /// Adds `key`, unless it is a member already.
    pub fn insert(&mut self, key: K)
        ensures
            final(self)@ == old(self)@.insert(key),
            match old(self)@.contains(key) {
                true => final(self).items() == old(self).items(),
                false => final(self).items() == old(self).items().push(key),
            },
    {
        let ghost before = *self;
        proof {
            use_type_invariant(&*self);
        }
        match self.position(&key) {
            Some(_) => {
                assert(self@ =~= before@.insert(key));
            },
            None => {
                let mut items: Vec<K> = Vec::new();
                core::mem::swap(&mut items, &mut self.items);
                items.push(key);
                self.items = items;
                proof {
                    assert forall|k: K| #[trigger] self@.contains(k) implies before@.insert(
                        key,
                    ).contains(k) by {
                        let j = self.items().index_of(k);
                        assert(self.items()[j] == k);
                        if j < before.items().len() {
                            assert(before.items()[j] == k);
                        }
                    }
                    assert forall|k: K| #[trigger]
                        before@.insert(key).contains(k) implies self@.contains(k) by {
                        if k == key {
                            assert(self.items()[before.items().len() as int] == key);
                        } else {
                            let j = before.items().index_of(k);
                            assert(self.items()[j] == k);
                        }
                    }
                    assert(self@ =~= before@.insert(key));
                }
            },
        }
    }

    /// Removes `key`, if it is a member.
    pub fn remove(&mut self, key: &K)
        ensures
            final(self)@ == old(self)@.remove(*key),
            match old(self)@.contains(*key) {
                true => final(self).items() == old(self).items().remove(
                    old(self).items().index_of(*key),
                ),
                false => final(self).items() == old(self).items(),
            },
    {
        let ghost before = *self;
        proof {
            use_type_invariant(&*self);
        }
        match self.position(key) {
            Some(i) => {
                proof {
                    let j = before.items().index_of(*key);
                    assert(before.items()[j] == *key);
                }
                let mut items: Vec<K> = Vec::new();
                core::mem::swap(&mut items, &mut self.items);
                items.remove(i);
                self.items = items;
                proof {
                    assert forall|k: K| #[trigger] self@.contains(k) implies before@.remove(
                        *key,
                    ).contains(k) by {
                        let j = self.items().index_of(k);
                        assert(self.items()[j] == k);
                        let j0 = if j < i { j } else { j + 1 };
                        assert(before.items()[j0] == k);
                    }
                    assert forall|k: K| #[trigger]
                        before@.remove(*key).contains(k) implies self@.contains(k) by {
                        let j = before.items().index_of(k);
                        assert(before.items()[j] == k);
                        let j0 = if j < i { j } else { j - 1 };
                        assert(self.items()[j0] == k);
                    }
                    assert(self@ =~= before@.remove(*key));
                }
            },
            None => {
                assert(self@ =~= before@.remove(*key));
            },
        }
    }
}

} // verus!

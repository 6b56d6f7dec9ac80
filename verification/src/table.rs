//! A keyed table with constant-time lookup and index-based enumeration.

use std::collections::HashMap;
use vstd::prelude::*;

verus! {

/// A finite map from `u128` keys to values.
///
/// Lookups go through a hash index; the keys are also kept in a dense
/// sequence so that the contents can be enumerated by position.
///
/// The index is the standard library's `HashMap` with its default hasher.
/// `bevy::utils::HashMap` is the same map with the hasher of `ahash`; the
/// specification of the map is known to hold for the default hasher and for
/// integer keys, which is why every table is keyed by integers and hashes
/// with the default.
pub struct Table<V> {
    keys: Vec<u128>,
    vals: Vec<V>,
    slots: HashMap<u128, usize>,
}

impl<V> View for Table<V> {
    type V = Map<u128, V>;

    closed spec fn view(&self) -> Map<u128, V> {
        Map::new(
            |k: u128| self.slots@.contains_key(k),
            |k: u128| self.vals@[self.slots@[k] as int],
        )
    }
}

impl<V> Table<V> {
    /// The index and the dense sequences describe the same contents.
    pub closed spec fn wf(&self) -> bool {
        &&& self.keys@.len() == self.vals@.len()
        &&& forall|i: int|
            0 <= i < self.keys@.len() ==> self.slots@.contains_key(#[trigger] self.keys@[i])
                && self.slots@[self.keys@[i]] == i
        &&& forall|k: u128| #[trigger]
            self.slots@.contains_key(k) ==> 0 <= self.slots@[k] < self.keys@.len()
                && self.keys@[self.slots@[k] as int] == k
    }

    /// The keys in enumeration order.
    pub closed spec fn order(&self) -> Seq<u128> {
        self.keys@
    }

    /// The enumeration order lists every key of the table exactly once.
    pub proof fn lemma_order(&self)
        requires
            self.wf(),
        ensures
            self.order().no_duplicates(),
            forall|k: u128| self@.contains_key(k) <==> self.order().contains(k),
            forall|i: int| 0 <= i < self.order().len() ==> self@.contains_key(#[trigger] self.order()[i]),
    {
        assert forall|k: u128| self@.contains_key(k) implies self.order().contains(k) by {
            assert(self.keys@[self.slots@[k] as int] == k);
        }
    }

    pub fn new() -> (t: Self)
        ensures
            t.wf(),
            t@ == Map::<u128, V>::empty(),
            t.order() == Seq::<u128>::empty(),
    {
        let t = Table { keys: Vec::new(), vals: Vec::new(), slots: HashMap::new() };
        assert(t@ =~= Map::<u128, V>::empty());
        t
    }

    pub fn len(&self) -> (n: usize)
        requires
            self.wf(),
        ensures
            n == self.order().len(),
    {
        self.keys.len()
    }

    pub fn contains(&self, key: u128) -> (r: bool)
        requires
            self.wf(),
        ensures
            r == self@.contains_key(key),
    {
        self.slots.contains_key(&key)
    }

    pub fn get(&self, key: u128) -> (r: Option<&V>)
        requires
            self.wf(),
        ensures
            match r {
                Some(v) => self@.contains_key(key) && *v == self@[key],
                None => !self@.contains_key(key),
            },
    {
        match self.slots.get(&key) {
            Some(i) => Some(&self.vals[*i]),
            None => None,
        }
    }

    /// The key at a position of the enumeration.
    pub fn key_at(&self, i: usize) -> (k: u128)
        requires
            self.wf(),
            i < self.order().len(),
        ensures
            k == self.order()[i as int],
            self@.contains_key(k),
    {
        self.keys[i]
    }

    /// The value at a position of the enumeration.
    pub fn value_at(&self, i: usize) -> (v: &V)
        requires
            self.wf(),
            i < self.order().len(),
        ensures
            self@.contains_key(self.order()[i as int]),
            *v == self@[self.order()[i as int]],
    {
        &self.vals[i]
    }

    /// Binds `key` to `value`. A new key goes to the end of the enumeration;
    /// a key already present keeps its position.
    pub fn insert(&mut self, key: u128, value: V) -> (prev: Option<V>)
        requires
            old(self).wf(),
        ensures
            final(self).wf(),
            final(self)@ == old(self)@.insert(key, value),
            match prev {
                Some(v) => old(self)@.contains_key(key) && v == old(self)@[key]
                    && final(self).order() == old(self).order(),
                None => !old(self)@.contains_key(key) && final(self).order() == old(
                    self,
                ).order().push(key),
            },
    {
        let found = match self.slots.get(&key) {
            Some(i) => Some(*i),
            None => None,
        };
        match found {
            Some(i) => {
                let mut value = value;
                self.vals.set_and_swap(i, &mut value);
                assert(self@ =~= old(self)@.insert(key, self.vals@[i as int]));
                Some(value)
            },
            None => {
                let n = self.keys.len();
                self.keys.push(key);
                self.vals.push(value);
                self.slots.insert(key, n);
                assert(self@ =~= old(self)@.insert(key, value));
                None
            },
        }
    }

    /// Removes `key`. The last key of the enumeration takes its position.
    pub fn remove(&mut self, key: u128) -> (prev: Option<V>)
        requires
            old(self).wf(),
        ensures
            final(self).wf(),
            final(self)@ == old(self)@.remove(key),
            match prev {
                Some(v) => old(self)@.contains_key(key) && v == old(self)@[key],
                None => !old(self)@.contains_key(key) && final(self).order() == old(self).order(),
            },
    {
        let found = match self.slots.get(&key) {
            Some(i) => Some(*i),
            None => None,
        };
        match found {
            Some(i) => {
                let last = self.keys.len() - 1;
                let moved = self.keys[last];
                self.keys.swap_remove(i);
                let v = self.vals.swap_remove(i);
                self.slots.remove(&key);
                if i != last {
                    self.slots.insert(moved, i);
                }
                assert(self@ =~= old(self)@.remove(key));
                Some(v)
            },
            None => {
                assert(self@ =~= old(self)@.remove(key));
                None
            },
        }
    }
}

} // verus!

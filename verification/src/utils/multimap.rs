//! A map from keys to sets of values.

use vstd::prelude::*;
use std::collections::{HashMap, HashSet};
use std::hash::Hash;
use vstd::std_specs::hash::obeys_key_model;
use vstd::std_specs::iter::IteratorSpec;

verus! {

broadcast use vstd::std_specs::hash::group_hash_axioms;

/// A map from each key to the set of values inserted under it.
#[derive(Debug)]
pub struct UniqueMultiHashMap<K: Hash + PartialEq + Eq, V: Hash + PartialEq + Eq> {
    collections: HashMap<K, HashSet<V>>,
}

/// The key and value types behave as hash keys should (deterministic hash
/// and equality consistent with identity); every primitive integer type does.
pub open spec fn multimap_keys_obey<K, V>() -> bool {
    obeys_key_model::<K>() && obeys_key_model::<V>()
}

/// `m` with `value` added to the set under `key`.
pub open spec fn with_value<K, V>(m: Map<K, Set<V>>, key: K, value: V) -> Map<K, Set<V>> {
    m.insert(key, if m.contains_key(key) { m[key].insert(value) } else { set![value] })
}

/// After `value` is added under `key`, the set under `key` holds it and every
/// value it held before, and every other key keeps its set.
pub proof fn lemma_get_after_insert<K, V>(m: Map<K, Set<V>>, key: K, value: V, other: K)
    ensures
        with_value(m, key, value).contains_key(key),
        with_value(m, key, value)[key].contains(value),
        m.contains_key(key) ==> m[key].subset_of(with_value(m, key, value)[key]),
        other != key ==> with_value(m, key, value).contains_key(other) == m.contains_key(other),
        other != key && m.contains_key(other) ==> with_value(m, key, value)[other] == m[other],
{
}

impl<K: Hash + PartialEq + Eq, V: Hash + PartialEq + Eq> View for UniqueMultiHashMap<K, V> {
    type V = Map<K, Set<V>>;

    closed spec fn view(&self) -> Map<K, Set<V>> {
        self.collections@.map_values(|s: HashSet<V>| s@)
    }
}

impl<K: Hash + PartialEq + Eq, V: Hash + PartialEq + Eq> UniqueMultiHashMap<K, V> {
    /// An empty multimap.
    pub fn new() -> (r: Self)
        ensures
            r@ == Map::<K, Set<V>>::empty(),
    {
        let r = Self { collections: HashMap::new() };
        assert(r@ =~= Map::<K, Set<V>>::empty());
        r
    }

    /// Adds `value` to the set under `key`.
    pub fn insert(&mut self, key: K, value: V)
        ensures
            multimap_keys_obey::<K, V>() ==> final(self)@ == with_value(old(self)@, key, value),
    {
        let ghost old_map = self.collections@;
        match self.collections.remove(&key) {
            Some(mut bucket) => {
                bucket.insert(value);
                self.collections.insert(key, bucket);
            },
            None => {
                let mut bucket = HashSet::new();
                bucket.insert(value);
                self.collections.insert(key, bucket);
            },
        }
        proof {
            if multimap_keys_obey::<K, V>() {
                assert(self@ =~= with_value(old(self)@, key, value));
            }
        }
    }

    /// The set of values under `key`, if any.
    pub fn get(&self, key: &K) -> (r: Option<&HashSet<V>>)
        ensures
            multimap_keys_obey::<K, V>() ==> match r {
                Some(s) => self@.contains_key(*key) && s@ == self@[*key],
                None => !self@.contains_key(*key),
            },
    {
        self.collections.get(key)
    }

    /// An iterator over the keys and their sets of values.
    pub fn iter(&self) -> (r: std::collections::hash_map::Iter<'_, K, HashSet<V>>)
        ensures
            multimap_keys_obey::<K, V>() ==> {
                let items = r.remaining();
                &&& items.len() == self@.dom().len()
                &&& forall|i: int| 0 <= i < items.len() ==> self@.contains_key(*#[trigger] items[i].0) && self@[*items[i].0] == items[i].1@
                &&& forall|k: K| #[trigger] self@.contains_key(k) ==> exists|i: int| 0 <= i < items.len() && *items[i].0 == k
            },
    {
        let r = self.collections.iter();
        proof {
            if multimap_keys_obey::<K, V>() {
                assert(self@.dom() =~= self.collections@.dom());
                let items = r.remaining();
                assert forall|k: K| #[trigger] self@.contains_key(k) implies exists|i: int| 0 <= i < items.len() && *items[i].0 == k by {
                    assert(self.collections@.contains_key(k));
                    assert(items.contains((&k, &self.collections@[k])));
                }
            }
        }
        r
    }

    /// Number of keys.
    pub fn len(&self) -> (r: usize)
        ensures
            multimap_keys_obey::<K, V>() ==> r == self@.dom().len(),
    {
        proof { assert(self@.dom() =~= self.collections@.dom()); }
        self.collections.len()
    }
}

} // verus!

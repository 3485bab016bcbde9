//! A view into a single entry of an [`AATreeMap`], which may be vacant or
//! occupied.

use super::kv::{lemma_entry_order, lemma_entry_strict_order, lemma_same_place};
use super::{AATreeMap, KeyValue};
use crate::order::{
    holds, lemma_merged_ascending, lemma_merged_holds, lemma_place, merged, place, strict_order,
};
use vstd::prelude::*;

verus! {

/// An entry of a map that is there, with its value open to change.
pub struct OccupiedEntry<'a, K, V> {
    pub entry: &'a mut KeyValue<K, V>,
}

/// A key that a map does not hold, ready to be inserted.
pub struct VacantEntry<'a, K, V> {
    pub key: K,
    pub map: &'a mut AATreeMap<K, V>,
}

/// The entry of a key in a map.
pub enum Entry<'a, K, V> {
    Vacant(VacantEntry<'a, K, V>),
    Occupied(OccupiedEntry<'a, K, V>),
}

impl<'a, K, V> OccupiedEntry<'a, K, V> {
    /// The key of the entry.
    pub fn key(&self) -> (key: &K)
        ensures
            *key == old(self.entry).key,
    {
        &self.entry.key
    }

    /// The value of the entry.
    pub fn get(&self) -> (value: &V)
        ensures
            *value == old(self.entry).value,
    {
        &self.entry.value
    }

    /// The value of the entry, for change. The key stays.
    pub fn get_mut(&mut self) -> (value: &mut V)
        ensures
            *value == old(self).entry.value,
            final(self).entry.value == *final(value),
            final(self).entry.key == old(self).entry.key,
            *final(final(self).entry) == *final(old(self).entry),
    {
        &mut self.entry.value
    }

    /// The value of the entry, for change, for as long as the map is
    /// borrowed. The key stays.
    pub fn into_mut(self) -> (value: &'a mut V)
        ensures
            *value == old(self.entry).value,
            final(self.entry).value == *final(value),
            final(self.entry).key == old(self.entry).key,
    {
        &mut self.entry.value
    }

    /// Put `value` in place of the value of the entry and return the old
    /// one.
    pub fn insert(&mut self, value: V) -> (replaced: V)
        ensures
            replaced == old(self).entry.value,
            final(self).entry.value == value,
            final(self).entry.key == old(self).entry.key,
            *final(final(self).entry) == *final(old(self).entry),
    {
        let mut value = value;
        std::mem::swap(&mut self.entry.value, &mut value);
        value
    }
}

impl<'a, K, V> VacantEntry<'a, K, V> {
    /// The key that would be inserted.
    pub fn key(&self) -> (key: &K)
        ensures
            *key == self.key,
    {
        &self.key
    }

    /// Take the key back.
    pub fn into_key(self) -> (key: K)
        ensures
            key == self.key,
            *final(self.map) == *old(self.map),
    {
        self.key
    }
}

impl<'a, K: PartialOrd + Clone, V> VacantEntry<'a, K, V> {
    /// Insert the key with `value` into the map and return the value for
    /// change.
    ///
    /// The key is cloned for the lookup that follows the insertion, so a
    /// clone of a key must be that key.
    pub fn insert(self, value: V) -> (stored: &'a mut V)
        requires
            strict_order::<K>(),
            forall|a: K, b: K| cloned(a, b) ==> a == b,
            old(self.map).wf(),
            old(self.map)@.len() < usize::MAX,
        ensures
            *stored == value,
            final(self.map).wf(),
            ({
                let entry = KeyValue { key: self.key, value };
                let put = merged(old(self.map)@, entry, true);
                let i = place(put, self.key);
                &&& 0 <= i < put.len()
                &&& put[i] == entry
                &&& final(self.map)@ == put.update(
                    i,
                    KeyValue { key: self.key, value: *final(stored) },
                )
            }),
    {
        proof {
            lemma_entry_strict_order::<K, V>();
            lemma_entry_order::<K, V>();
            let entry = KeyValue { key: self.key, value };
            let put = merged(old(self.map)@, entry, true);
            lemma_merged_holds(old(self.map)@, entry, true);
            assert(holds(put, self.key));
            lemma_place(put, self.key);
            lemma_place(put, entry);
            lemma_merged_ascending(old(self.map)@, entry, true);
            lemma_same_place(put, entry, self.key);
        }
        let key = self.key.clone();
        assert(cloned(self.key, key));
        self.map.insert(key, value);
        self.map.get_mut(&self.key).unwrap()
    }
}

impl<'a, K, V> Entry<'a, K, V> {
    /// The key of the entry.
    pub fn key(&self) -> (key: &K)
        ensures
            self is Vacant ==> *key == self->Vacant_0.key,
            self is Occupied ==> *key == old(self->Occupied_0.entry).key,
    {
        match self {
            Entry::Vacant(entry) => entry.key(),
            Entry::Occupied(entry) => entry.key(),
        }
    }
}

impl<'a, K: PartialOrd + Clone, V> Entry<'a, K, V> {
    /// The value of the entry for change, after `default` has been inserted
    /// if the entry was vacant.
    pub fn or_insert(self, default: V) -> (value: &'a mut V)
        requires
            strict_order::<K>(),
            forall|a: K, b: K| cloned(a, b) ==> a == b,
            self is Vacant ==> old(self->Vacant_0.map).wf() && old(self->Vacant_0.map)@.len()
                < usize::MAX,
        ensures
            self is Vacant ==> ({
                let key = self->Vacant_0.key;
                let entry = KeyValue { key, value: default };
                let put = merged(old(self->Vacant_0.map)@, entry, true);
                let i = place(put, key);
                &&& *value == default
                &&& final(self->Vacant_0.map).wf()
                &&& 0 <= i < put.len()
                &&& put[i] == entry
                &&& final(self->Vacant_0.map)@ == put.update(
                    i,
                    KeyValue { key, value: *final(value) },
                )
            }),
            self is Occupied ==> ({
                &&& *value == old(self->Occupied_0.entry).value
                &&& final(self->Occupied_0.entry).value == *final(value)
                &&& final(self->Occupied_0.entry).key == old(self->Occupied_0.entry).key
            }),
    {
        match self {
            Entry::Occupied(entry) => entry.into_mut(),
            Entry::Vacant(entry) => entry.insert(default),
        }
    }
}

impl<'a, K: PartialOrd + Clone, V> Entry<'a, K, V> {
    /// The value of the entry for change, after the result of `default` has
    /// been inserted if the entry was vacant. `default` is not called for an
    /// occupied entry.
    pub fn or_insert_with<F>(self, default: F) -> (value: &'a mut V) where F: FnOnce() -> V
        requires
            strict_order::<K>(),
            forall|a: K, b: K| cloned(a, b) ==> a == b,
            self is Vacant ==> call_requires(default, ()),
            self is Vacant ==> old(self->Vacant_0.map).wf() && old(self->Vacant_0.map)@.len()
                < usize::MAX,
        ensures
            self is Vacant ==> ({
                let key = self->Vacant_0.key;
                let entry = KeyValue { key, value: *value };
                let put = merged(old(self->Vacant_0.map)@, entry, true);
                let i = place(put, key);
                &&& call_ensures(default, (), *value)
                &&& final(self->Vacant_0.map).wf()
                &&& 0 <= i < put.len()
                &&& put[i] == entry
                &&& final(self->Vacant_0.map)@ == put.update(
                    i,
                    KeyValue { key, value: *final(value) },
                )
            }),
            self is Occupied ==> ({
                &&& *value == old(self->Occupied_0.entry).value
                &&& final(self->Occupied_0.entry).value == *final(value)
                &&& final(self->Occupied_0.entry).key == old(self->Occupied_0.entry).key
            }),
    {
        match self {
            Entry::Occupied(entry) => entry.into_mut(),
            Entry::Vacant(entry) => {
                let value = default();
                entry.insert(value)
            },
        }
    }

    /// The value of the entry for change, after the result of `default` on
    /// the key has been inserted if the entry was vacant. `default` is not
    /// called for an occupied entry.
    pub fn or_insert_with_key<F>(self, default: F) -> (value: &'a mut V) where
        F: FnOnce(&K) -> V,

        requires
            strict_order::<K>(),
            forall|a: K, b: K| cloned(a, b) ==> a == b,
            self is Vacant ==> call_requires(default, (&self->Vacant_0.key,)),
            self is Vacant ==> old(self->Vacant_0.map).wf() && old(self->Vacant_0.map)@.len()
                < usize::MAX,
        ensures
            self is Vacant ==> ({
                let key = self->Vacant_0.key;
                let entry = KeyValue { key, value: *value };
                let put = merged(old(self->Vacant_0.map)@, entry, true);
                let i = place(put, key);
                &&& call_ensures(default, (&key,), *value)
                &&& final(self->Vacant_0.map).wf()
                &&& 0 <= i < put.len()
                &&& put[i] == entry
                &&& final(self->Vacant_0.map)@ == put.update(
                    i,
                    KeyValue { key, value: *final(value) },
                )
            }),
            self is Occupied ==> ({
                &&& *value == old(self->Occupied_0.entry).value
                &&& final(self->Occupied_0.entry).value == *final(value)
                &&& final(self->Occupied_0.entry).key == old(self->Occupied_0.entry).key
            }),
    {
        match self {
            Entry::Occupied(entry) => entry.into_mut(),
            Entry::Vacant(entry) => {
                let value = default(entry.key());
                entry.insert(value)
            },
        }
    }
}

impl<'a, K: PartialOrd + Clone, V: Default> Entry<'a, K, V> {
    /// The value of the entry for change, after the default value has been
    /// inserted if the entry was vacant.
    pub fn or_default(self) -> (value: &'a mut V)
        requires
            strict_order::<K>(),
            forall|a: K, b: K| cloned(a, b) ==> a == b,
            self is Vacant ==> call_requires(V::default, ()),
            self is Vacant ==> old(self->Vacant_0.map).wf() && old(self->Vacant_0.map)@.len()
                < usize::MAX,
        ensures
            self is Vacant ==> ({
                let key = self->Vacant_0.key;
                let entry = KeyValue { key, value: *value };
                let put = merged(old(self->Vacant_0.map)@, entry, true);
                let i = place(put, key);
                &&& call_ensures(V::default, (), *value)
                &&& final(self->Vacant_0.map).wf()
                &&& 0 <= i < put.len()
                &&& put[i] == entry
                &&& final(self->Vacant_0.map)@ == put.update(
                    i,
                    KeyValue { key, value: *final(value) },
                )
            }),
            self is Occupied ==> ({
                &&& *value == old(self->Occupied_0.entry).value
                &&& final(self->Occupied_0.entry).value == *final(value)
                &&& final(self->Occupied_0.entry).key == old(self->Occupied_0.entry).key
            }),
    {
        self.or_insert_with(V::default)
    }
}

impl<'a, K, V> Entry<'a, K, V> {
    /// Let `f` change the value of an occupied entry; a vacant entry is
    /// handed back as it is.
    ///
    /// `f` is called once on the value of an occupied entry, and what it
    /// leaves there is the value of the entry that is handed back. The key
    /// stays, and the entry still stands for the same place in the map.
    pub fn and_modify<F>(self, f: F) -> (entry: Self) where F: FnOnce(&mut V)
        requires
            self is Occupied ==> forall|value: &mut V| call_requires(f, (value,)),
        ensures
            self is Vacant ==> {
                &&& entry is Vacant
                &&& entry->Vacant_0.key == self->Vacant_0.key
                &&& *entry->Vacant_0.map == *old(self->Vacant_0.map)
                &&& *final(entry->Vacant_0.map) == *final(self->Vacant_0.map)
            },
            self is Occupied ==> {
                &&& entry is Occupied
                &&& entry->Occupied_0.entry.key == old(self->Occupied_0.entry).key
                &&& *final(entry->Occupied_0.entry) == *final(self->Occupied_0.entry)
                &&& exists|given: &mut V|
                    {
                        &&& #[trigger] call_ensures(f, (given,), ())
                        &&& *given == old(self->Occupied_0.entry).value
                        &&& *final(given) == entry->Occupied_0.entry.value
                    }
            },
    {
        let mut this = self;
        match &mut this {
            Entry::Occupied(entry) => {
                f(entry.get_mut());
            },
            Entry::Vacant(_) => {},
        }
        this
    }
}

} // verus!

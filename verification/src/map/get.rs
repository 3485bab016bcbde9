//! Access to the entries of an [`AATreeMap`].

use super::entry::{Entry, OccupiedEntry, VacantEntry};
use super::kv::{lemma_entry_strict_order, lemma_value_changed};
use super::{AATreeMap, KeyValue};
use crate::node::traverse::{
    lemma_descent_at_or_after, lemma_descent_at_or_before, lemma_descent_find,
    lemma_descent_first, lemma_descent_last, TraverseStep,
};
use crate::node::{lemma_occupied, lemma_with_content_at};
use crate::order::{
    above, below, find, first_not_below, holds, last_not_above, place, place_not_above,
    place_not_below, strict_order,
};
use vstd::prelude::*;

verus! {

impl<K: PartialOrd, V> AATreeMap<K, V> {
    /// The entry of the given key.
    pub fn kv<'a>(&'a self, key: &'a K) -> (found: Option<&'a KeyValue<K, V>>)
        requires
            strict_order::<K>(),
            self.wf(),
        ensures
            found == match find(self@, *key) {
                Some(entry) => Some(&entry),
                None => None,
            },
    {
        proof {
            lemma_entry_strict_order::<K, V>();
        }
        let down = |content: &'a KeyValue<K, V>| -> (step: TraverseStep<&'a KeyValue<K, V>>)
            ensures
                step == if above(*content, *key) {
                    TraverseStep::<&'a KeyValue<K, V>>::Left
                } else if below(*content, *key) {
                    TraverseStep::Right
                } else {
                    TraverseStep::Value(Some(content))
                },
            {
                if *content > *key {
                    TraverseStep::Left
                } else if *content < *key {
                    TraverseStep::Right
                } else {
                    TraverseStep::Value(Some(content))
                }
            };
        let up = |content: &'a KeyValue<K, V>, sub: Option<&'a KeyValue<K, V>>| -> (result: Option<
            &'a KeyValue<K, V>,
        >)
            ensures
                result == sub,
            { sub };
        let found = self.root.traverse(down, up);
        proof {
            lemma_descent_find(&self.root, *key, down, up, found, |t: &'a KeyValue<K, V>| t);
        }
        found
    }

    /// Returns a reference to the value corresponding to the key.
    pub fn get<'a>(&'a self, key: &'a K) -> (found: Option<&'a V>)
        requires
            strict_order::<K>(),
            self.wf(),
        ensures
            found == match find(self@, *key) {
                Some(entry) => Some(&entry.value),
                None => None,
            },
    {
        match self.kv(key) {
            None => None,
            Some(entry) => Some(&entry.value),
        }
    }

    /// Returns a reference to the key and value corresponding to the key.
    pub fn get_key_value<'a>(&'a self, key: &'a K) -> (found: Option<(&'a K, &'a V)>)
        requires
            strict_order::<K>(),
            self.wf(),
        ensures
            found == match find(self@, *key) {
                Some(entry) => Some((&entry.key, &entry.value)),
                None => None,
            },
    {
        match self.kv(key) {
            None => None,
            Some(entry) => Some(entry.as_tuple()),
        }
    }

    /// Returns the entry with the smallest key.
    pub fn smallest<'a>(&'a self) -> (first: Option<&'a KeyValue<K, V>>)
        ensures
            first == if self@.len() == 0 {
                None
            } else {
                Some(&self@.first())
            },
    {
        let down = |content: &'a KeyValue<K, V>| -> (step: TraverseStep<&'a KeyValue<K, V>>)
            ensures
                step is Left,
            { TraverseStep::Left };
        let up = |content: &'a KeyValue<K, V>, sub: Option<&'a KeyValue<K, V>>| -> (result: Option<
            &'a KeyValue<K, V>,
        >)
            ensures
                result == if sub is Some {
                    sub
                } else {
                    Some(content)
                },
            {
                match sub {
                    Some(found) => Some(found),
                    None => Some(content),
                }
            };
        let first = self.root.traverse(down, up);
        proof {
            lemma_descent_first(&self.root, down, up, first, |t: &'a KeyValue<K, V>| t);
        }
        first
    }

    /// Returns the entry with the largest key.
    pub fn largest<'a>(&'a self) -> (last: Option<&'a KeyValue<K, V>>)
        ensures
            last == if self@.len() == 0 {
                None
            } else {
                Some(&self@.last())
            },
    {
        let down = |content: &'a KeyValue<K, V>| -> (step: TraverseStep<&'a KeyValue<K, V>>)
            ensures
                step is Right,
            { TraverseStep::Right };
        let up = |content: &'a KeyValue<K, V>, sub: Option<&'a KeyValue<K, V>>| -> (result: Option<
            &'a KeyValue<K, V>,
        >)
            ensures
                result == if sub is Some {
                    sub
                } else {
                    Some(content)
                },
            {
                match sub {
                    Some(found) => Some(found),
                    None => Some(content),
                }
            };
        let last = self.root.traverse(down, up);
        proof {
            lemma_descent_last(&self.root, down, up, last, |t: &'a KeyValue<K, V>| t);
        }
        last
    }

    /// Returns a reference to the first entry (that is, with the smallest
    /// key) in the map.
    pub fn first_key_value<'a>(&'a self) -> (first: Option<(&'a K, &'a V)>)
        ensures
            first == if self@.len() == 0 {
                None
            } else {
                Some((&self@.first().key, &self@.first().value))
            },
    {
        let down = |content: &'a KeyValue<K, V>| -> (step: TraverseStep<(&'a K, &'a V)>)
            ensures
                step is Left,
            { TraverseStep::Left };
        let up = |content: &'a KeyValue<K, V>, sub: Option<(&'a K, &'a V)>| -> (result: Option<
            (&'a K, &'a V),
        >)
            ensures
                result == if sub is Some {
                    sub
                } else {
                    Some((&content.key, &content.value))
                },
            {
                match sub {
                    Some(found) => Some(found),
                    None => Some(content.as_tuple()),
                }
            };
        let first = self.root.traverse(down, up);
        proof {
            lemma_descent_first(
                &self.root,
                down,
                up,
                first,
                |t: &'a KeyValue<K, V>| (&t.key, &t.value),
            );
        }
        first
    }

    /// Returns a reference to the last entry (that is, with the largest key)
    /// in the map.
    pub fn last_key_value<'a>(&'a self) -> (last: Option<(&'a K, &'a V)>)
        ensures
            last == if self@.len() == 0 {
                None
            } else {
                Some((&self@.last().key, &self@.last().value))
            },
    {
        let down = |content: &'a KeyValue<K, V>| -> (step: TraverseStep<(&'a K, &'a V)>)
            ensures
                step is Right,
            { TraverseStep::Right };
        let up = |content: &'a KeyValue<K, V>, sub: Option<(&'a K, &'a V)>| -> (result: Option<
            (&'a K, &'a V),
        >)
            ensures
                result == if sub is Some {
                    sub
                } else {
                    Some((&content.key, &content.value))
                },
            {
                match sub {
                    Some(found) => Some(found),
                    None => Some(content.as_tuple()),
                }
            };
        let last = self.root.traverse(down, up);
        proof {
            lemma_descent_last(
                &self.root,
                down,
                up,
                last,
                |t: &'a KeyValue<K, V>| (&t.key, &t.value),
            );
        }
        last
    }

    /// Returns and removes the first entry (that is, with the smallest key)
    /// in the map.
    pub fn pop_first(&mut self) -> (first: Option<(K, V)>)
        requires
            old(self).wf(),
        ensures
            final(self).wf(),
            match first {
                None => old(self)@.len() == 0 && final(self)@ == old(self)@,
                Some(pair) => old(self)@.len() > 0 && pair == old(self)@.first().pair()
                    && final(self)@ == old(self)@.drop_first(),
            },
    {
        match self.root.remove_successor() {
            None => None,
            Some(entry) => {
                self.len -= 1;
                Some(entry.into_tuple())
            },
        }
    }

    /// Returns and removes the last entry (that is, with the largest key) in
    /// the map.
    pub fn pop_last(&mut self) -> (last: Option<(K, V)>)
        requires
            old(self).wf(),
        ensures
            final(self).wf(),
            match last {
                None => old(self)@.len() == 0 && final(self)@ == old(self)@,
                Some(pair) => old(self)@.len() > 0 && pair == old(self)@.last().pair()
                    && final(self)@ == old(self)@.drop_last(),
            },
    {
        match self.root.remove_predecessor() {
            None => None,
            Some(entry) => {
                self.len -= 1;
                Some(entry.into_tuple())
            },
        }
    }

    /// Returns and removes the last entry (that is, with the largest key) in
    /// the map.
    pub fn pop_largest(&mut self) -> (last: Option<(K, V)>)
        requires
            old(self).wf(),
        ensures
            final(self).wf(),
            match last {
                None => old(self)@.len() == 0 && final(self)@ == old(self)@,
                Some(pair) => old(self)@.len() > 0 && pair == old(self)@.last().pair()
                    && final(self)@ == old(self)@.drop_last(),
            },
    {
        self.pop_last()
    }

    /// Returns the first entry with a key that is not below `k`.
    pub fn smallest_geq_than<'a>(&'a self, k: &'a K) -> (found: Option<&'a KeyValue<K, V>>)
        requires
            strict_order::<K>(),
            self.wf(),
        ensures
            found == match first_not_below(self@, *k) {
                Some(entry) => Some(&entry),
                None => None,
            },
    {
        proof {
            lemma_entry_strict_order::<K, V>();
        }
        let down = |content: &'a KeyValue<K, V>| -> (step: TraverseStep<&'a KeyValue<K, V>>)
            ensures
                step == if above(*content, *k) {
                    TraverseStep::<&'a KeyValue<K, V>>::Left
                } else if below(*content, *k) {
                    TraverseStep::Right
                } else {
                    TraverseStep::Value(Some(content))
                },
            {
                if *content > *k {
                    TraverseStep::Left
                } else if *content < *k {
                    TraverseStep::Right
                } else {
                    TraverseStep::Value(Some(content))
                }
            };
        let up = |content: &'a KeyValue<K, V>, sub: Option<&'a KeyValue<K, V>>| -> (result: Option<
            &'a KeyValue<K, V>,
        >)
            ensures
                result == if sub is None && above(*content, *k) {
                    Some(content)
                } else {
                    sub
                },
            {
                match sub {
                    None => if *content > *k {
                        Some(content)
                    } else {
                        None
                    },
                    Some(found) => Some(found),
                }
            };
        let found = self.root.traverse(down, up);
        proof {
            lemma_descent_at_or_after(
                &self.root,
                *k,
                down,
                up,
                found,
                |t: &'a KeyValue<K, V>| t,
            );
        }
        found
    }

    /// Returns the last entry with a key that is not above `k`.
    pub fn largest_leq_than<'a>(&'a self, k: &'a K) -> (found: Option<&'a KeyValue<K, V>>)
        requires
            strict_order::<K>(),
            self.wf(),
        ensures
            found == match last_not_above(self@, *k) {
                Some(entry) => Some(&entry),
                None => None,
            },
    {
        proof {
            lemma_entry_strict_order::<K, V>();
        }
        let down = |content: &'a KeyValue<K, V>| -> (step: TraverseStep<&'a KeyValue<K, V>>)
            ensures
                step == if above(*content, *k) {
                    TraverseStep::<&'a KeyValue<K, V>>::Left
                } else if below(*content, *k) {
                    TraverseStep::Right
                } else {
                    TraverseStep::Value(Some(content))
                },
            {
                if *content > *k {
                    TraverseStep::Left
                } else if *content < *k {
                    TraverseStep::Right
                } else {
                    TraverseStep::Value(Some(content))
                }
            };
        let up = |content: &'a KeyValue<K, V>, sub: Option<&'a KeyValue<K, V>>| -> (result: Option<
            &'a KeyValue<K, V>,
        >)
            ensures
                result == if sub is None && below(*content, *k) {
                    Some(content)
                } else {
                    sub
                },
            {
                match sub {
                    None => if *content < *k {
                        Some(content)
                    } else {
                        None
                    },
                    Some(found) => Some(found),
                }
            };
        let found = self.root.traverse(down, up);
        proof {
            lemma_descent_at_or_before(
                &self.root,
                *k,
                down,
                up,
                found,
                |t: &'a KeyValue<K, V>| t,
            );
        }
        found
    }

    /// Returns a reference to the first entry with a key that is not below
    /// `k`.
    pub fn first_key_value_at_or_after<'a>(&'a self, k: &'a K) -> (found: Option<(&'a K, &'a V)>)
        requires
            strict_order::<K>(),
            self.wf(),
        ensures
            found == match first_not_below(self@, *k) {
                Some(entry) => Some((&entry.key, &entry.value)),
                None => None,
            },
    {
        match self.smallest_geq_than(k) {
            None => None,
            Some(entry) => Some(entry.as_tuple()),
        }
    }

    /// Returns a reference to the last entry with a key that is not above
    /// `k`.
    pub fn last_key_value_at_or_before<'a>(&'a self, k: &'a K) -> (found: Option<(&'a K, &'a V)>)
        requires
            strict_order::<K>(),
            self.wf(),
        ensures
            found == match last_not_above(self@, *k) {
                Some(entry) => Some((&entry.key, &entry.value)),
                None => None,
            },
    {
        match self.largest_leq_than(k) {
            None => None,
            Some(entry) => Some(entry.as_tuple()),
        }
    }
}

impl<K: PartialOrd, V> AATreeMap<K, V> {
    /// The entry of the given key, for change. The map stays valid as long
    /// as the key that is written orders as the key that was there.
    pub fn kv_mut<'a>(&'a mut self, key: &K) -> (found: Option<&'a mut KeyValue<K, V>>)
        requires
            strict_order::<K>(),
            old(self).wf(),
        ensures
            match found {
                None => !holds(old(self)@, *key) && final(self)@ == old(self)@ && final(self).wf(),
                Some(entry) => {
                    let i = place(old(self)@, *key);
                    &&& 0 <= i < old(self)@.len()
                    &&& *entry == old(self)@[i]
                    &&& final(self)@ == old(self)@.update(i, *final(entry))
                    &&& final(self).balanced()
                },
            },
    {
        proof {
            lemma_entry_strict_order::<K, V>();
        }
        match self.root.traverse_mut() {
            None => None,
            Some(cursor) => {
                match cursor.into_found(key) {
                    None => None,
                    Some(entry) => {
                        proof {
                            lemma_with_content_at(
                                old(self).root,
                                place(old(self)@, *key),
                                *final(entry),
                            );
                        }
                        Some(entry)
                    },
                }
            },
        }
    }

    /// Returns a mutable reference to the value corresponding to the key.
    pub fn get_mut<'a>(&'a mut self, key: &K) -> (found: Option<&'a mut V>)
        requires
            strict_order::<K>(),
            old(self).wf(),
        ensures
            final(self).wf(),
            match found {
                None => !holds(old(self)@, *key) && final(self)@ == old(self)@,
                Some(value) => {
                    let i = place(old(self)@, *key);
                    &&& 0 <= i < old(self)@.len()
                    &&& *value == old(self)@[i].value
                    &&& final(self)@ == old(self)@.update(
                        i,
                        KeyValue { key: old(self)@[i].key, value: *final(value) },
                    )
                },
            },
    {
        match self.kv_mut(key) {
            None => None,
            Some(entry) => {
                let value = &mut entry.value;
                Some(value)
            },
        }
    }

    /// Gets the given key's corresponding entry, allowing for in-place
    /// manipulation of the entry as well as inserting an entry with that key
    /// if it does not exist yet.
    pub fn entry<'a>(&'a mut self, key: K) -> (entry: Entry<'a, K, V>)
        requires
            strict_order::<K>(),
            old(self).wf(),
        ensures
            match entry {
                Entry::Vacant(vacant) => {
                    &&& !holds(old(self)@, key)
                    &&& vacant.key == key
                    &&& *vacant.map == *old(self)
                    &&& *final(self) == *final(vacant.map)
                },
                Entry::Occupied(occupied) => {
                    let i = place(old(self)@, key);
                    &&& 0 <= i < old(self)@.len()
                    &&& *occupied.entry == old(self)@[i]
                    &&& final(self)@ == old(self)@.update(i, *final(occupied.entry))
                    &&& final(self).balanced()
                },
            },
    {
        if self.contains_key(&key) {
            let found = self.kv_mut(&key);
            Entry::Occupied(OccupiedEntry { entry: found.unwrap() })
        } else {
            Entry::Vacant(VacantEntry { key, map: self })
        }
    }

    /// Gets the first entry (that is, with the smallest key) in the map,
    /// allowing for in-place manipulation of the entry.
    pub fn first_entry<'a>(&'a mut self) -> (first: Option<OccupiedEntry<'a, K, V>>)
        requires
            old(self).balanced(),
        ensures
            match first {
                None => old(self)@.len() == 0 && final(self)@ == old(self)@
                    && final(self).balanced(),
                Some(occupied) => {
                    &&& old(self)@.len() > 0
                    &&& *occupied.entry == old(self)@.first()
                    &&& final(self)@ == old(self)@.update(0, *final(occupied.entry))
                    &&& final(self).balanced()
                },
            },
    {
        proof {
            lemma_occupied(self.root);
        }
        match self.root.traverse_mut() {
            None => None,
            Some(cursor) => {
                let entry = cursor.into_first();
                proof {
                    lemma_with_content_at(old(self).root, 0, *final(entry));
                }
                Some(OccupiedEntry { entry })
            },
        }
    }

    /// Gets the last entry (that is, with the largest key) in the map,
    /// allowing for in-place manipulation of the entry.
    pub fn last_entry<'a>(&'a mut self) -> (last: Option<OccupiedEntry<'a, K, V>>)
        requires
            old(self).balanced(),
        ensures
            match last {
                None => old(self)@.len() == 0 && final(self)@ == old(self)@
                    && final(self).balanced(),
                Some(occupied) => {
                    &&& old(self)@.len() > 0
                    &&& *occupied.entry == old(self)@.last()
                    &&& final(self)@ == old(self)@.update(
                        old(self)@.len() - 1,
                        *final(occupied.entry),
                    )
                    &&& final(self).balanced()
                },
            },
    {
        proof {
            lemma_occupied(self.root);
        }
        match self.root.traverse_mut() {
            None => None,
            Some(cursor) => {
                let entry = cursor.into_last();
                proof {
                    lemma_with_content_at(
                        old(self).root,
                        old(self)@.len() - 1,
                        *final(entry),
                    );
                }
                Some(OccupiedEntry { entry })
            },
        }
    }

    /// Returns the first entry with a key that is not below `k`, with its
    /// value for change.
    pub fn first_key_value_mut_at_or_after<'a>(&'a mut self, k: &K) -> (found: Option<
        (&'a K, &'a mut V),
    >)
        requires
            strict_order::<K>(),
            old(self).wf(),
        ensures
            final(self).wf(),
            match found {
                None => first_not_below(old(self)@, *k) is None && final(self)@ == old(self)@,
                Some((key, value)) => {
                    let i = place_not_below(old(self)@, *k);
                    &&& 0 <= i < old(self)@.len()
                    &&& first_not_below(old(self)@, *k) == Some(old(self)@[i])
                    &&& *key == old(self)@[i].key
                    &&& *value == old(self)@[i].value
                    &&& final(self)@ == old(self)@.update(
                        i,
                        KeyValue { key: *key, value: *final(value) },
                    )
                },
            },
    {
        proof {
            lemma_entry_strict_order::<K, V>();
        }
        match self.root.traverse_mut() {
            None => None,
            Some(cursor) => match cursor.into_at_or_after(k) {
                None => None,
                Some(entry) => {
                    proof {
                        let i = place_not_below(old(self)@, *k);
                        lemma_with_content_at(old(self).root, i, *final(entry));
                    }
                    let (key, value) = entry.as_tuple_mut();
                    proof {
                        lemma_value_changed(
                            old(self)@,
                            place_not_below(old(self)@, *k),
                            *final(value),
                        );
                    }
                    Some((key, value))
                },
            },
        }
    }

    /// Returns the last entry with a key that is not above `k`, with its
    /// value for change.
    pub fn last_key_value_mut_at_or_before<'a>(&'a mut self, k: &K) -> (found: Option<
        (&'a K, &'a mut V),
    >)
        requires
            strict_order::<K>(),
            old(self).wf(),
        ensures
            final(self).wf(),
            match found {
                None => last_not_above(old(self)@, *k) is None && final(self)@ == old(self)@,
                Some((key, value)) => {
                    let i = place_not_above(old(self)@, *k);
                    &&& 0 <= i < old(self)@.len()
                    &&& last_not_above(old(self)@, *k) == Some(old(self)@[i])
                    &&& *key == old(self)@[i].key
                    &&& *value == old(self)@[i].value
                    &&& final(self)@ == old(self)@.update(
                        i,
                        KeyValue { key: *key, value: *final(value) },
                    )
                },
            },
    {
        proof {
            lemma_entry_strict_order::<K, V>();
        }
        match self.root.traverse_mut() {
            None => None,
            Some(cursor) => match cursor.into_at_or_before(k) {
                None => None,
                Some(entry) => {
                    proof {
                        let i = place_not_above(old(self)@, *k);
                        lemma_with_content_at(old(self).root, i, *final(entry));
                    }
                    let (key, value) = entry.as_tuple_mut();
                    proof {
                        lemma_value_changed(
                            old(self)@,
                            place_not_above(old(self)@, *k),
                            *final(value),
                        );
                    }
                    Some((key, value))
                },
            },
        }
    }
}

} // verus!

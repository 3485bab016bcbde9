//! A sorted map on an AA tree.

pub mod entry;
pub mod get;
pub mod kv;

use crate::iter::{AAIntoIter, AAIter};
use crate::node::{lemma_level_small, lemma_shape, AANode};
use crate::order::{
    ascending, find, holds, lemma_lookup_len, lemma_merged_len, merged, merged_all, met,
    strict_order, without,
};
pub use entry::{Entry, OccupiedEntry, VacantEntry};
pub use kv::KeyValue;
use kv::lemma_entry_strict_order;
use vstd::prelude::*;

verus! {

/// A map based on an AA tree. Its view is the sequence of its entries in
/// ascending order of their keys.
pub struct AATreeMap<K, V> {
    pub(crate) root: AANode<KeyValue<K, V>>,
    pub(crate) len: usize,
}

impl<K, V> View for AATreeMap<K, V> {
    type V = Seq<KeyValue<K, V>>;

    open spec fn view(&self) -> Seq<KeyValue<K, V>> {
        self.tree()@
    }
}

impl<K: Clone, V: Clone> Clone for AATreeMap<K, V> {
    /// A map whose entries are clones of the entries of this map, each in
    /// its place.
    fn clone(&self) -> (copy: Self)
        ensures
            self.balanced() ==> copy.balanced(),
            copy@.len() == self@.len(),
            forall|i: int| 0 <= i < self@.len() ==> cloned(self@[i], #[trigger] copy@[i]),
    {
        let root = self.root.clone();
        proof {
            lemma_shape(self.root);
            lemma_shape(root);
        }
        Self { root, len: self.len }
    }
}

impl<K, V> Default for AATreeMap<K, V> {
    fn default() -> (map: Self)
        ensures
            map@ == Seq::<KeyValue<K, V>>::empty(),
            map.balanced(),
    {
        Self::new()
    }
}

impl<K, V> AATreeMap<K, V> {
    /// The tree that holds the entries.
    pub closed spec fn tree(self) -> AANode<KeyValue<K, V>> {
        self.root
    }

    /// The tree keeps the level rules of an AA tree, and the count is the
    /// number of entries.
    pub closed spec fn balanced(self) -> bool {
        self.root.balanced() && self.len == self.root@.len()
    }

    /// Construct a new, empty AA-Tree based map.
    pub fn new() -> (map: Self)
        ensures
            map@ == Seq::<KeyValue<K, V>>::empty(),
            map.balanced(),
    {
        Self { root: AANode::new(), len: 0 }
    }

    /// Returns the number of elements in the map.
    pub fn len(&self) -> (len: usize)
        requires
            self.balanced(),
        ensures
            len == self@.len(),
    {
        self.len
    }

    /// Returns `true` if the map contains no elements.
    pub fn is_empty(&self) -> (empty: bool)
        requires
            self.balanced(),
        ensures
            empty == (self@.len() == 0),
    {
        self.len == 0
    }

    /// Creates a walker over this map that visits all entries with the keys
    /// in ascending order.
    pub fn iter<'a>(&'a self) -> (iter: AAIter<'a, KeyValue<K, V>, (&'a K, &'a V)>)
        requires
            self.balanced(),
        ensures
            iter.wf(),
            iter.remaining() == self@,
    {
        AAIter::new(&self.root, self.len)
    }

    /// Turns this map into a walker that hands out all entries with the
    /// keys in ascending order.
    pub fn into_iter(self) -> (iter: AAIntoIter<KeyValue<K, V>, (K, V)>)
        requires
            self.balanced(),
        ensures
            iter.wf(),
            iter.remaining() == self@,
    {
        AAIntoIter::new(self.root, self.len)
    }

    /// All the keys, in sorted order.
    pub fn keys<'a>(&'a self) -> (keys: Vec<&'a K>)
        requires
            self.balanced(),
        ensures
            keys@.len() == self@.len(),
            forall|i: int| 0 <= i < keys@.len() ==> *#[trigger] keys@[i] == self@[i].key,
    {
        let mut keys: Vec<&'a K> = Vec::new();
        let mut iter = self.iter();
        loop
            invariant
                iter.wf(),
                keys@.len() + iter.remaining().len() == self@.len(),
                iter.remaining() == self@.skip(keys@.len() as int),
                forall|i: int| 0 <= i < keys@.len() ==> *#[trigger] keys@[i] == self@[i].key,
            ensures
                keys@.len() == self@.len(),
                forall|i: int| 0 <= i < keys@.len() ==> *#[trigger] keys@[i] == self@[i].key,
            decreases iter.remaining().len(),
        {
            match iter.next() {
                None => {
                    break ;
                },
                Some((key, _)) => {
                    keys.push(key);
                },
            }
        }
        keys
    }

    /// All the values, in order by key.
    pub fn values<'a>(&'a self) -> (values: Vec<&'a V>)
        requires
            self.balanced(),
        ensures
            values@.len() == self@.len(),
            forall|i: int| 0 <= i < values@.len() ==> *#[trigger] values@[i] == self@[i].value,
    {
        let mut values: Vec<&'a V> = Vec::new();
        let mut iter = self.iter();
        loop
            invariant
                iter.wf(),
                values@.len() + iter.remaining().len() == self@.len(),
                iter.remaining() == self@.skip(values@.len() as int),
                forall|i: int|
                    0 <= i < values@.len() ==> *#[trigger] values@[i] == self@[i].value,
            ensures
                values@.len() == self@.len(),
                forall|i: int|
                    0 <= i < values@.len() ==> *#[trigger] values@[i] == self@[i].value,
            decreases iter.remaining().len(),
        {
            match iter.next() {
                None => {
                    break ;
                },
                Some((_, value)) => {
                    values.push(value);
                },
            }
        }
        values
    }

    /// All the keys, in sorted order. The map cannot be used after calling
    /// this.
    pub fn into_keys(self) -> (keys: Vec<K>)
        requires
            self.balanced(),
        ensures
            keys@.len() == self@.len(),
            forall|i: int| 0 <= i < keys@.len() ==> #[trigger] keys@[i] == self@[i].key,
    {
        let mut keys: Vec<K> = Vec::new();
        let mut iter = self.into_iter();
        loop
            invariant
                iter.wf(),
                keys@.len() + iter.remaining().len() == self@.len(),
                iter.remaining() == self@.skip(keys@.len() as int),
                forall|i: int| 0 <= i < keys@.len() ==> #[trigger] keys@[i] == self@[i].key,
            ensures
                keys@.len() == self@.len(),
                forall|i: int| 0 <= i < keys@.len() ==> #[trigger] keys@[i] == self@[i].key,
            decreases iter.remaining().len(),
        {
            match iter.next() {
                None => {
                    break ;
                },
                Some((key, _)) => {
                    keys.push(key);
                },
            }
        }
        keys
    }

    /// All the values, in order by key. The map cannot be used after
    /// calling this.
    pub fn into_values(self) -> (values: Vec<V>)
        requires
            self.balanced(),
        ensures
            values@.len() == self@.len(),
            forall|i: int| 0 <= i < values@.len() ==> #[trigger] values@[i] == self@[i].value,
    {
        let mut values: Vec<V> = Vec::new();
        let mut iter = self.into_iter();
        loop
            invariant
                iter.wf(),
                values@.len() + iter.remaining().len() == self@.len(),
                iter.remaining() == self@.skip(values@.len() as int),
                forall|i: int|
                    0 <= i < values@.len() ==> #[trigger] values@[i] == self@[i].value,
            ensures
                values@.len() == self@.len(),
                forall|i: int|
                    0 <= i < values@.len() ==> #[trigger] values@[i] == self@[i].value,
            decreases iter.remaining().len(),
        {
            match iter.next() {
                None => {
                    break ;
                },
                Some((_, value)) => {
                    values.push(value);
                },
            }
        }
        values
    }

    /// Clears the map, removing all elements.
    pub fn clear(&mut self)
        ensures
            final(self)@ == Seq::<KeyValue<K, V>>::empty(),
            final(self).balanced(),
    {
        self.root = AANode::new();
        self.len = 0;
    }
}

impl<K: PartialOrd, V> AATreeMap<K, V> {
    /// The map is valid: its keys ascend strictly, the tree keeps the level
    /// rules, and the count is right.
    pub open spec fn wf(self) -> bool {
        self.balanced() && ascending(self@)
    }

    /// Insert a new element into the map, or overwrite an existing element
    /// with an equivalent key. If a value was overwritten, the old value
    /// will be returned.
    pub fn insert(&mut self, key: K, value: V) -> (replaced: Option<V>)
        requires
            strict_order::<K>(),
            old(self).wf(),
            old(self)@.len() < usize::MAX,
        ensures
            final(self).wf(),
            final(self)@ == merged(old(self)@, KeyValue { key, value }, true),
            replaced == match met(old(self)@, KeyValue { key, value }) {
                Some(entry) => Some(entry.value),
                None => None,
            },
            final(self)@.len() == old(self)@.len() + if replaced is None {
                1int
            } else {
                0int
            },
    {
        proof {
            lemma_entry_strict_order::<K, V>();
            lemma_level_small(self.root);
            lemma_merged_len(self@, KeyValue { key, value }, true);
        }
        let replaced = self.root.insert_or_replace(KeyValue { key, value });
        match replaced {
            None => {
                self.len += 1;
                None
            },
            Some(entry) => Some(entry.value),
        }
    }

    /// Moves all elements from `other` into `self`, leaving `other` empty.
    /// The entries of `other` are inserted in ascending order of their keys;
    /// where `self` holds an equivalent key, the entry of `other` takes its
    /// place.
    pub fn append(&mut self, other: &mut Self)
        requires
            strict_order::<K>(),
            old(self).wf(),
            old(other).wf(),
            old(self)@.len() + old(other)@.len() <= usize::MAX,
        ensures
            final(self).wf(),
            final(other).wf(),
            final(other)@ == Seq::<KeyValue<K, V>>::empty(),
            final(self)@ == merged_all(old(self)@, old(other)@, true),
    {
        loop
            invariant
                strict_order::<K>(),
                self.wf(),
                other.wf(),
                self@.len() + other@.len() <= usize::MAX,
                merged_all(self@, other@, true) == merged_all(old(self)@, old(other)@, true),
            ensures
                self.wf(),
                other.wf(),
                other@.len() == 0,
                self@ == merged_all(old(self)@, old(other)@, true),
            decreases other@.len(),
        {
            match other.pop_first() {
                None => {
                    break ;
                },
                Some((key, value)) => {
                    self.insert(key, value);
                },
            }
        }
    }

    /// Check if a key is contained within this map.
    pub fn contains_key<'a>(&'a self, k: &'a K) -> (found: bool)
        requires
            strict_order::<K>(),
            self.wf(),
        ensures
            found == holds(self@, *k),
    {
        proof {
            lemma_lookup_len(self@, *k);
        }
        self.kv(k).is_some()
    }

    /// Remove a key from the map if it exists, and return the value that was
    /// previously stored in the map for that key.
    pub fn remove(&mut self, k: &K) -> (removed: Option<V>)
        requires
            strict_order::<K>(),
            old(self).wf(),
        ensures
            final(self).wf(),
            final(self)@ == without(old(self)@, *k),
            removed == match find(old(self)@, *k) {
                Some(entry) => Some(entry.value),
                None => None,
            },
    {
        match self.remove_entry(k) {
            None => None,
            Some((_, value)) => Some(value),
        }
    }

    /// Remove a key from the map if it exists, and return the key and the
    /// value that was previously stored in the map for that key.
    pub fn remove_entry(&mut self, k: &K) -> (removed: Option<(K, V)>)
        requires
            strict_order::<K>(),
            old(self).wf(),
        ensures
            final(self).wf(),
            final(self)@ == without(old(self)@, *k),
            removed == match find(old(self)@, *k) {
                Some(entry) => Some(entry.pair()),
                None => None,
            },
    {
        proof {
            lemma_entry_strict_order::<K, V>();
            lemma_lookup_len(self@, *k);
        }
        match self.root.remove(k) {
            None => None,
            Some(entry) => {
                self.len -= 1;
                Some(entry.into_tuple())
            },
        }
    }
}

} // verus!

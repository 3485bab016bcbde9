//! The entry type of the map: a key with its value, ordered by the key alone.

use crate::iter::IterContent;
use crate::order::{
    above, ascending, below, comparable, place, probe_order, same, strict_order,
};
use core::cmp::Ordering;
use vstd::prelude::*;
use vstd::std_specs::cmp::{PartialEqSpec, PartialEqSpecImpl, PartialOrdSpec, PartialOrdSpecImpl};

verus! {

/// An entry in an [`AATreeMap`](crate::AATreeMap). Equality and ordering
/// look at the key only.
#[derive(Clone, Copy, Debug)]
pub struct KeyValue<K, V> {
    pub key: K,
    pub value: V,
}

impl<K, V> KeyValue<K, V> {
    /// The pair of this entry.
    pub open spec fn pair(self) -> (K, V) {
        (self.key, self.value)
    }

    /// References to key and value.
    pub fn as_tuple(&self) -> (pair: (&K, &V))
        ensures
            pair == (&self.key, &self.value),
    {
        (&self.key, &self.value)
    }

    /// A reference to the key, and the value for change.
    pub fn as_tuple_mut(&mut self) -> (pair: (&K, &mut V))
        ensures
            *pair.0 == old(self).key,
            *pair.1 == old(self).value,
            final(self).key == old(self).key,
            final(self).value == *final(pair.1),
    {
        (&self.key, &mut self.value)
    }

    /// Key and value.
    pub fn into_tuple(self) -> (pair: (K, V))
        ensures
            pair == self.pair(),
    {
        (self.key, self.value)
    }
}

impl<K, V> IterContent<(K, V)> for KeyValue<K, V> {
    open spec fn item(self) -> (K, V) {
        self.pair()
    }

    fn content(self) -> (item: (K, V)) {
        self.into_tuple()
    }
}

impl<'a, K, V> IterContent<(&'a K, &'a V)> for &'a KeyValue<K, V> {
    open spec fn item(self) -> (&'a K, &'a V) {
        (&self.key, &self.value)
    }

    fn content(self) -> (item: (&'a K, &'a V)) {
        self.as_tuple()
    }
}

impl<K: PartialEq, V> PartialEq for KeyValue<K, V> {
    fn eq(&self, other: &Self) -> (equal: bool) {
        self.key.eq(&other.key)
    }
}

impl<K: PartialEq, V> PartialEqSpecImpl for KeyValue<K, V> {
    open spec fn obeys_eq_spec() -> bool {
        K::obeys_eq_spec()
    }

    open spec fn eq_spec(&self, other: &Self) -> bool {
        self.key.eq_spec(&other.key)
    }
}

impl<K: PartialEq, V> PartialEq<K> for KeyValue<K, V> {
    fn eq(&self, other: &K) -> (equal: bool) {
        self.key.eq(other)
    }
}

impl<K: PartialEq, V> PartialEqSpecImpl<K> for KeyValue<K, V> {
    open spec fn obeys_eq_spec() -> bool {
        K::obeys_eq_spec()
    }

    open spec fn eq_spec(&self, other: &K) -> bool {
        self.key.eq_spec(other)
    }
}

impl<K: PartialOrd, V> PartialOrd for KeyValue<K, V> {
    fn partial_cmp(&self, other: &Self) -> (order: Option<Ordering>) {
        self.key.partial_cmp(&other.key)
    }
}

impl<K: PartialOrd, V> PartialOrdSpecImpl for KeyValue<K, V> {
    open spec fn obeys_partial_cmp_spec() -> bool {
        K::obeys_partial_cmp_spec()
    }

    open spec fn partial_cmp_spec(&self, other: &Self) -> Option<Ordering> {
        self.key.partial_cmp_spec(&other.key)
    }
}

impl<K: PartialOrd, V> PartialOrd<K> for KeyValue<K, V> {
    fn partial_cmp(&self, other: &K) -> (order: Option<Ordering>) {
        self.key.partial_cmp(other)
    }
}

impl<K: PartialOrd, V> PartialOrdSpecImpl<K> for KeyValue<K, V> {
    open spec fn obeys_partial_cmp_spec() -> bool {
        K::obeys_partial_cmp_spec()
    }

    open spec fn partial_cmp_spec(&self, other: &K) -> Option<Ordering> {
        self.key.partial_cmp_spec(other)
    }
}

/// Entries compare as their keys do, with each other and with a key.
pub proof fn lemma_entry_order<K: PartialOrd, V>()
    ensures
        forall|a: KeyValue<K, V>, b: KeyValue<K, V>|
            #![trigger below(a, b)]
            below(a, b) == below(a.key, b.key),
        forall|a: KeyValue<K, V>, b: KeyValue<K, V>|
            #![trigger above(a, b)]
            above(a, b) == above(a.key, b.key),
        forall|a: KeyValue<K, V>, k: K| #![trigger below(a, k)] below(a, k) == below(a.key, k),
        forall|a: KeyValue<K, V>, k: K| #![trigger above(a, k)] above(a, k) == above(a.key, k),
        comparable::<KeyValue<K, V>, KeyValue<K, V>>() == comparable::<K, K>(),
        comparable::<KeyValue<K, V>, K>() == comparable::<K, K>(),
{
}

/// Where the keys are in a strict order, so are the entries, and a key can
/// be looked up among them.
pub proof fn lemma_entry_strict_order<K: PartialOrd, V>()
    requires
        strict_order::<K>(),
    ensures
        strict_order::<KeyValue<K, V>>(),
        probe_order::<KeyValue<K, V>, K>(),
{
    lemma_entry_order::<K, V>();
    assert forall|a: KeyValue<K, V>, b: KeyValue<K, V>, c: KeyValue<K, V>|
        #![trigger below(a, b), below(a, c)]
        #![trigger below(a, b), below(c, b)]
        below(a, b) implies below(a, c) || below(c, b) by {
        assert(below(a.key, b.key));
        assert(below(a.key, c.key) || below(c.key, b.key));
    }
    assert forall|a: KeyValue<K, V>, b: KeyValue<K, V>, q: K|
        #![trigger below::<KeyValue<K, V>, KeyValue<K, V>>(a, b), below::<KeyValue<K, V>, K>(a, q)]
        #![trigger below::<KeyValue<K, V>, KeyValue<K, V>>(a, b), above::<KeyValue<K, V>, K>(b, q)]
        below::<KeyValue<K, V>, KeyValue<K, V>>(a, b) implies below::<KeyValue<K, V>, K>(a, q)
        || above::<KeyValue<K, V>, K>(b, q) by {
        assert(below(a.key, b.key));
        assert(below(a.key, q) || below(q, b.key));
        assert(above(b.key, q) == below(q, b.key));
    }
}

/// A new value under an old key leaves ascending entries ascending.
pub proof fn lemma_value_changed<K: PartialOrd, V>(s: Seq<KeyValue<K, V>>, i: int, value: V)
    requires
        ascending(s),
        0 <= i < s.len(),
    ensures
        ascending(s.update(i, KeyValue { key: s[i].key, value })),
{
    lemma_entry_order::<K, V>();
    let t = s.update(i, KeyValue { key: s[i].key, value });
    assert forall|a: int, b: int| 0 <= a < b < t.len() implies below(
        #[trigger] t[a],
        #[trigger] t[b],
    ) by {
        assert(below(s[a], s[b]));
        assert(t[a].key == s[a].key && t[b].key == s[b].key);
    }
}

/// In ascending entries, the place of an entry is the place of its key, and
/// an entry with that key stands there only once.
pub proof fn lemma_same_place<K: PartialOrd, V>(
    s: Seq<KeyValue<K, V>>,
    entry: KeyValue<K, V>,
    key: K,
)
    requires
        strict_order::<K>(),
        ascending(s),
        entry.key == key,
    ensures
        place(s, key) == place(s, entry),
        forall|i: int| 0 <= i < s.len() && same(s[i], entry) ==> i == place(s, key),
    decreases s.len(),
{
    lemma_entry_order::<K, V>();
    lemma_entry_strict_order::<K, V>();
    if s.len() > 0 {
        let t = s.drop_first();
        assert forall|a: int, b: int| 0 <= a < b < t.len() implies below(
            #[trigger] t[a],
            #[trigger] t[b],
        ) by {
            assert(t[a] == s[a + 1] && t[b] == s[b + 1]);
        }
        lemma_same_place(t, entry, key);
        assert forall|i: int| 0 <= i < s.len() && same(s[i], entry) implies i
            == place(s, key) by {
            if i > 0 {
                assert(t[i - 1] == s[i]);
                if same(s[0], key) {
                    assert(below(s[0], s[i]));
                    assert(below(s[0], entry) || below(entry, s[i]));
                    assert(above(s[i], entry) == below(entry, s[i]));
                }
            }
        }
    }
}

} // verus!

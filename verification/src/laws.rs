//! Laws of the collections, stated over the sequences that the contracts of
//! the trees, sets and maps speak of.

use crate::map::kv::{lemma_entry_strict_order, lemma_same_place};
use crate::map::KeyValue;
use crate::node::{lemma_occupied, AANode};
use crate::order::{
    above, ascending, below, find, holds, lemma_ascending_parts, lemma_lookup_absent,
    lemma_lookup_len, lemma_lookup_present,
    lemma_merged_ascending, lemma_merged_holds, lemma_merged_len, lemma_merged_members,
    lemma_place, lemma_without_ascending, merged, merged_all, met, place, same, strict_order,
    without,
};
use vstd::prelude::*;

verus! {

/// `s` without the elements equivalent to the probes of `probes`, removed
/// one after the other, from the first probe to the last.
pub open spec fn without_all<T: PartialOrd>(s: Seq<T>, probes: Seq<T>) -> Seq<T>
    decreases probes.len(),
{
    if probes.len() == 0 {
        s
    } else {
        without_all(without(s, probes[0]), probes.drop_first())
    }
}

/// Two values take the same place in the order: each is below and above
/// exactly what the other is.
pub open spec fn alike<T: PartialOrd>(x: T, y: T) -> bool {
    forall|z: T|
        #![trigger below(x, z)]
        #![trigger below(z, x)]
        #![trigger below(y, z)]
        #![trigger below(z, y)]
        #![trigger above(x, z)]
        #![trigger above(y, z)]
        below(x, z) == below(y, z) && below(z, x) == below(z, y) && above(x, z) == above(y, z)
}

/// Entries of one key are alike.
pub proof fn lemma_entries_alike<K: PartialOrd, V>(a: KeyValue<K, V>, b: KeyValue<K, V>)
    requires
        a.key == b.key,
    ensures
        alike(a, b),
{
}

/// Every sequence of insertions into an ascending sequence leaves it
/// ascending: inserting keys in any order and then reading the collection
/// in order yields strictly ascending keys.
pub proof fn lemma_merged_all_ascending<T: PartialOrd>(s: Seq<T>, items: Seq<T>, replace: bool)
    requires
        strict_order::<T>(),
        ascending(s),
    ensures
        ascending(merged_all(s, items, replace)),
    decreases items.len(),
{
    if items.len() > 0 {
        lemma_merged_ascending(s, items[0], replace);
        lemma_merged_all_ascending(merged(s, items[0], replace), items.drop_first(), replace);
    }
}

/// What a sequence of insertions leaves holds every inserted item, and
/// nothing that is not equivalent to an inserted item or to an element that
/// was there before.
pub proof fn lemma_merged_all_holds<T: PartialOrd>(s: Seq<T>, items: Seq<T>, replace: bool)
    requires
        strict_order::<T>(),
    ensures
        forall|j: int|
            0 <= j < items.len() ==> holds(merged_all(s, items, replace), #[trigger] items[j]),
        forall|i: int| 0 <= i < s.len() ==> holds(merged_all(s, items, replace), #[trigger] s[i]),
        forall|k: int|
            0 <= k < merged_all(s, items, replace).len() ==> s.contains(
                #[trigger] merged_all(s, items, replace)[k],
            ) || items.contains(merged_all(s, items, replace)[k]),
    decreases items.len(),
{
    let all = merged_all(s, items, replace);
    if items.len() == 0 {
        assert forall|i: int| 0 <= i < s.len() implies holds(all, #[trigger] s[i]) by {
            assert(!below(s[i], s[i]));
            assert(above(s[i], s[i]) == below(s[i], s[i]));
            assert(same(all[i], s[i]));
        }
    } else {
        let x = items[0];
        let m = merged(s, x, replace);
        let rest = items.drop_first();
        lemma_merged_all_holds(m, rest, replace);
        lemma_merged_members(s, x, replace);
        let at = lemma_merged_holds(s, x, replace);
        assert forall|j: int| 0 <= j < items.len() implies holds(all, #[trigger] items[j]) by {
            if j == 0 {
                lemma_held_alike(all, m[at], x);
            } else {
                assert(rest[j - 1] == items[j]);
            }
        }
        assert forall|i: int| 0 <= i < s.len() implies holds(all, #[trigger] s[i]) by {
            lemma_merged_keeps(s, x, replace, i);
            let k = choose|k: int| 0 <= k < m.len() && same(#[trigger] m[k], s[i]);
            lemma_held_alike(all, m[k], s[i]);
        }
        assert forall|k: int| 0 <= k < all.len() implies s.contains(#[trigger] all[k])
            || items.contains(all[k]) by {
            if m.contains(all[k]) {
                let i = choose|i: int| 0 <= i < m.len() && m[i] == all[k];
                if m[i] == x {
                    assert(items[0] == x);
                }
            } else {
                let j = choose|j: int| 0 <= j < rest.len() && rest[j] == all[k];
                assert(items[j + 1] == rest[j]);
            }
        }
    }
}

/// A sequence that holds an element equivalent to `a` holds one equivalent
/// to everything that `a` is equivalent to.
pub proof fn lemma_held_alike<T: PartialOrd>(s: Seq<T>, a: T, b: T)
    requires
        strict_order::<T>(),
        holds(s, a),
        same(a, b),
    ensures
        holds(s, b),
{
    let i = choose|i: int| 0 <= i < s.len() && same(#[trigger] s[i], a);
    lemma_same_transitive(s[i], a, b);
}

/// Equivalence is symmetric and transitive in a strict order.
pub proof fn lemma_same_transitive<T: PartialOrd>(a: T, b: T, c: T)
    requires
        strict_order::<T>(),
        same(a, b),
        same(b, c),
    ensures
        same(a, c),
        same(b, a),
{
    assert(above(a, b) == below(b, a));
    assert(above(b, c) == below(c, b));
    assert(above(a, c) == below(c, a));
    assert(above(b, a) == below(a, b));
    if below(a, c) {
        assert(below(a, b) || below(b, c));
    }
    if below(c, a) {
        assert(below(c, b) || below(b, a));
    }
}

/// Merging keeps an element equivalent to each element that was there.
pub proof fn lemma_merged_keeps<T: PartialOrd>(s: Seq<T>, x: T, replace: bool, i: int)
    requires
        strict_order::<T>(),
        0 <= i < s.len(),
    ensures
        holds(merged(s, x, replace), s[i]),
    decreases s.len(),
{
    let m = merged(s, x, replace);
    assert(!below(s[i], s[i]));
    assert(above(s[i], s[i]) == below(s[i], s[i]));
    if below(x, s[0]) {
        assert(m[i + 1] == s[i]);
        assert(same(m[i + 1], s[i]));
    } else if above(x, s[0]) {
        if i == 0 {
            assert(m[0] == s[0]);
            assert(same(m[0], s[i]));
        } else {
            let t = s.drop_first();
            assert(t[i - 1] == s[i]);
            lemma_merged_keeps(t, x, replace, i - 1);
            let mt = merged(t, x, replace);
            let k = choose|k: int| 0 <= k < mt.len() && same(#[trigger] mt[k], t[i - 1]);
            assert(m[k + 1] == mt[k]);
            assert(same(m[k + 1], s[i]));
        }
    } else if replace {
        if i == 0 {
            assert(m[0] == x);
            assert(above(x, s[0]) == below(s[0], x));
            assert(above(s[0], x) == below(x, s[0]));
            assert(same(m[0], s[0]));
        } else {
            assert(m[i] == s[i]);
            assert(same(m[i], s[i]));
        }
    } else {
        assert(same(m[i], s[i]));
    }
}

/// Inserting every item of a sequence into an empty collection and then
/// removing every one of them leaves the collection empty.
pub proof fn lemma_insert_then_remove_all<T: PartialOrd>(items: Seq<T>)
    requires
        strict_order::<T>(),
    ensures
        ascending(merged_all(Seq::<T>::empty(), items, false)),
        without_all(merged_all(Seq::<T>::empty(), items, false), items) == Seq::<T>::empty(),
{
    let all = merged_all(Seq::<T>::empty(), items, false);
    lemma_merged_all_ascending(Seq::<T>::empty(), items, false);
    lemma_merged_all_holds(Seq::<T>::empty(), items, false);
    assert forall|k: int| 0 <= k < all.len() implies holds(items, #[trigger] all[k]) by {
        assert(items.contains(all[k]));
        let j = choose|j: int| 0 <= j < items.len() && items[j] == all[k];
        assert(!below(all[k], all[k]));
        assert(above(all[k], all[k]) == below(all[k], all[k]));
        assert(same(items[j], all[k]));
    }
    lemma_without_all_covered(all, items);
}

/// Removing the elements equivalent to the probes empties an ascending
/// sequence in which every element is equivalent to one of the probes.
pub proof fn lemma_without_all_covered<T: PartialOrd>(s: Seq<T>, probes: Seq<T>)
    requires
        strict_order::<T>(),
        ascending(s),
        forall|k: int| 0 <= k < s.len() ==> holds(probes, #[trigger] s[k]),
    ensures
        without_all(s, probes) == Seq::<T>::empty(),
    decreases probes.len(),
{
    if probes.len() == 0 {
        if s.len() > 0 {
            assert(holds(probes, s[0]));
        }
        assert(s =~= Seq::<T>::empty());
    } else {
        let q = probes[0];
        let rest = probes.drop_first();
        let w = without(s, q);
        lemma_without_ascending(s, q);
        lemma_lookup_len(s, q);
        assert forall|k: int| 0 <= k < w.len() implies holds(rest, #[trigger] w[k]) by {
            let i = if holds(s, q) {
                lemma_lookup_present(s, q)
            } else {
                lemma_lookup_absent(s, q);
                s.len() as int
            };
            let k0 = if k < i {
                k
            } else {
                k + 1
            };
            assert(w[k] == s[k0]);
            assert(holds(probes, s[k0]));
            let j = choose|j: int| 0 <= j < probes.len() && same(#[trigger] probes[j], s[k0]);
            if j == 0 {
                lemma_same_transitive(q, s[k0], s[k0]);
                assert(same(s[k0], q));
                assert(holds(s, q));
                lemma_same_transitive(s[i], q, s[k0]);
                if k0 < i {
                    assert(below(s[k0], s[i]));
                    assert(above(s[i], s[k0]) == below(s[k0], s[i]));
                } else {
                    assert(below(s[i], s[k0]));
                }
                assert(false);
            }
            assert(rest[j - 1] == probes[j]);
        }
        lemma_without_all_covered(w, rest);
    }
}

/// Inserting a value a second time changes nothing, and the second
/// insertion meets the value that the first one left: a set reports that
/// nothing was inserted, a map hands back what is stored and stores the new
/// entry in its place.
pub proof fn lemma_merged_twice<T: PartialOrd>(s: Seq<T>, x: T, y: T, replace: bool)
    requires
        strict_order::<T>(),
        alike(x, y),
    ensures
        met(merged(s, x, replace), y) == Some(
            if replace || met(s, x) is None {
                x
            } else {
                met(s, x)->0
            },
        ),
        merged(merged(s, x, replace), y, false) == merged(s, x, replace),
        merged(merged(s, x, replace), y, true).len() == merged(s, x, replace).len(),
        replace ==> merged(merged(s, x, true), y, true) == merged(s, y, true),
    decreases s.len(),
{
    assert(!below(x, x));
    assert(above(x, x) == below(x, x));
    assert(!below(y, x) && !above(y, x));
    let m = merged(s, x, replace);
    if s.len() == 0 {
        assert(m =~= seq![x]);
        assert(m.drop_first() =~= Seq::<T>::empty());
    } else if below(x, s[0]) {
        assert(m[0] == x);
        assert(m.drop_first() =~= s);
    } else if above(x, s[0]) {
        assert(m[0] == s[0]);
        assert(m.drop_first() =~= merged(s.drop_first(), x, replace));
        lemma_merged_twice(s.drop_first(), x, y, replace);
        assert(above(y, s[0]));
    } else if replace {
        assert(m[0] == x);
        assert(m.drop_first() =~= s.drop_first());
    } else {
        assert(!below(y, s[0]) && !above(y, s[0]));
    }
    lemma_merged_len(m, y, true);
}

/// Re-inserting a key into a map returns the value that was stored for it,
/// stores the new value, and leaves the number of entries as it was.
pub proof fn lemma_map_replaces<K: PartialOrd, V>(
    s: Seq<KeyValue<K, V>>,
    key: K,
    first: V,
    second: V,
)
    requires
        strict_order::<K>(),
        ascending(s),
    ensures
        ({
            let once = merged(s, KeyValue { key, value: first }, true);
            let twice = merged(once, KeyValue { key, value: second }, true);
            &&& met(once, KeyValue { key, value: second }) == Some(KeyValue { key, value: first })
            &&& twice.len() == once.len()
            &&& find(twice, key) == Some(KeyValue { key, value: second })
            &&& ascending(twice)
        }),
{
    let a = KeyValue { key, value: first };
    let b = KeyValue { key, value: second };
    lemma_entry_strict_order::<K, V>();
    lemma_entries_alike(a, b);
    lemma_merged_twice(s, a, b, true);
    let once = merged(s, a, true);
    let twice = merged(once, b, true);
    lemma_merged_ascending(s, a, true);
    lemma_merged_ascending(once, b, true);
    lemma_merged_holds(once, b, true);
    lemma_same_place(twice, b, key);
    lemma_place(twice, key);
}

/// Inserting the elements of a strictly ascending sequence one by one, in
/// ascending order, gives the sequence itself: the content that building a
/// tree from the sorted data in one pass gives.
pub proof fn lemma_bulk_is_insertion<T: PartialOrd>(before: Seq<T>, data: Seq<T>, replace: bool)
    requires
        strict_order::<T>(),
        ascending(before + data),
    ensures
        merged_all(before, data, replace) == before + data,
    decreases data.len(),
{
    if data.len() == 0 {
        assert(before + data =~= before);
    } else {
        let x = data[0];
        assert forall|i: int| 0 <= i < before.len() implies above(x, #[trigger] before[i]) by {
            assert((before + data)[i] == before[i]);
            assert((before + data)[before.len() as int] == x);
            assert(below(before[i], x));
        }
        lemma_merged_behind(before, x, replace);
        assert(before.push(x) + data.drop_first() =~= before + data);
        lemma_bulk_is_insertion(before.push(x), data.drop_first(), replace);
    }
}

/// A value above all of a sequence is merged in behind it.
pub proof fn lemma_merged_behind<T: PartialOrd>(s: Seq<T>, x: T, replace: bool)
    requires
        forall|i: int| 0 <= i < s.len() ==> above(x, #[trigger] s[i]),
    ensures
        merged(s, x, replace) == s.push(x),
    decreases s.len(),
{
    if s.len() > 0 {
        let t = s.drop_first();
        assert forall|i: int| 0 <= i < t.len() implies above(x, #[trigger] t[i]) by {
            assert(t[i] == s[i + 1]);
        }
        lemma_merged_behind(t, x, replace);
        assert(above(x, s[0]));
        assert(seq![s[0]] + t.push(x) =~= s.push(x));
    } else {
        assert(seq![x] =~= s.push(x));
    }
}

impl<T: PartialOrd> AANode<T> {
    /// The rules that a valid AA tree keeps at every node: the payloads of
    /// the left subtree are below the payload of the node and those of the
    /// right subtree above it; the empty tree has level 0; a left child is
    /// below the level of its parent, a right child not above it, and a
    /// right grandchild below it; a leaf has level 1. Both subtrees are valid
    /// again.
    pub proof fn lemma_wf_rules(self)
        requires
            self.wf(),
        ensures
            self.0 is None ==> self.lvl() == 0,
            self.0 is Some ==> self.lvl() >= 1,
            self.0 is Some ==> self.left().lvl() < self.lvl(),
            self.0 is Some ==> self.right().lvl() <= self.lvl(),
            self.0 is Some ==> self.right().right().lvl() < self.lvl(),
            self.0 is Some && self.left().0 is None && self.right().0 is None ==> self.lvl() == 1,
            self.left().wf(),
            self.right().wf(),
            forall|i: int|
                0 <= i < self.left()@.len() ==> below(
                    #[trigger] self.left()@[i],
                    self.0->0.content,
                ),
            forall|i: int|
                0 <= i < self.right()@.len() ==> below(
                    self.0->0.content,
                    #[trigger] self.right()@[i],
                ),
    {
        match self.0 {
            None => {
                assert(self.left()@ =~= Seq::<T>::empty());
            },
            Some(node) => {
                lemma_ascending_parts(
                    node.left_child@,
                    node.content,
                    node.right_child@,
                );
            },
        }
    }

    /// Turning left goes to a payload that is strictly below, and the first
    /// payload of the tree is where turning left ends; turning right goes to
    /// a payload that is strictly above, and the last payload of the tree is
    /// where turning right ends. The first payload is below all others and
    /// the last above all others.
    pub proof fn lemma_turns(self)
        requires
            strict_order::<T>(),
            self.ordered(),
            self.0 is Some,
        ensures
            self.left().0 is Some ==> below(self.left().0->0.content, self.0->0.content)
                && self.left().ordered() && self.left()@.first() == self@.first(),
            self.left().0 is None ==> self.0->0.content == self@.first(),
            self.right().0 is Some ==> below(self.0->0.content, self.right().0->0.content)
                && self.right().ordered() && self.right()@.last() == self@.last(),
            self.right().0 is None ==> self.0->0.content == self@.last(),
            forall|i: int| 0 < i < self@.len() ==> below(self@.first(), #[trigger] self@[i]),
            forall|i: int| 0 <= i < self@.len() - 1 ==> below(#[trigger] self@[i], self@.last()),
    {
        let node = self.0->0;
        let l = node.left_child@;
        let r = node.right_child@;
        lemma_ascending_parts(l, node.content, r);
        lemma_occupied(self);
        lemma_occupied(node.left_child);
        lemma_occupied(node.right_child);
        assert(self@ == l.push(node.content) + r);
        if node.left_child.0 is Some {
            assert(l[node.left_child.left()@.len() as int] == node.left_child.0->0.content);
            assert(self@[0] == l[0]);
        } else {
            assert(self@[0] == node.content);
        }
        if node.right_child.0 is Some {
            assert(r[node.right_child.left()@.len() as int] == node.right_child.0->0.content);
            assert(self@.last() == r.last());
        } else {
            assert(self@.last() == node.content);
        }
    }
}

} // verus!

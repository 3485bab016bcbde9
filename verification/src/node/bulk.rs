//! Building a tree from sorted data in one pass, without any rebalancing.

use super::{AANode, Node};
use crate::order::ascending;
use vstd::arithmetic::power2::{lemma2_to64, lemma_pow2_strictly_increases, lemma_pow2_unfold, pow2};
use vstd::prelude::*;
use vstd::std_specs::iter::IteratorSpec;

verus! {

/// The level of the root of a tree built from `n` sorted payloads: one above
/// that of its left subtree, which is built from the `(n - 1) / 2` payloads
/// before the middle one.
pub open spec fn bulk_level(n: nat) -> nat
    decreases n,
{
    if n == 0 {
        0
    } else {
        bulk_level(((n - 1) / 2) as nat) + 1
    }
}

/// More payloads never give a lower root.
pub proof fn lemma_bulk_level_monotonic(a: nat, b: nat)
    requires
        a <= b,
    ensures
        bulk_level(a) <= bulk_level(b),
    decreases b,
{
    if a > 0 {
        lemma_bulk_level_monotonic(((a - 1) / 2) as nat, ((b - 1) / 2) as nat);
    }
}

/// A root on level `k` stands over at least `2^k - 1` payloads.
pub proof fn lemma_bulk_level_bound(n: nat)
    ensures
        pow2(bulk_level(n)) <= n + 1,
    decreases n,
{
    if n == 0 {
        lemma2_to64();
    } else {
        lemma_bulk_level_bound(((n - 1) / 2) as nat);
        lemma_pow2_unfold(bulk_level(n));
    }
}

/// What is built from a number of payloads that fits the machine word sits
/// on level 64 at most.
pub proof fn lemma_bulk_level_small(n: nat)
    requires
        n <= usize::MAX,
    ensures
        bulk_level(n) <= 64,
{
    lemma_bulk_level_bound(n);
    lemma2_to64();
    if bulk_level(n) > 64 {
        lemma_pow2_strictly_increases(64, bulk_level(n));
    }
}

/// The level rules hold at a root built over the middle of `n >= 2`
/// payloads.
proof fn lemma_bulk_level_step(n: nat)
    requires
        n >= 2,
    ensures
        ({
            let left = ((n - 1) / 2) as nat;
            let right = (n - left - 1) as nat;
            let far = (right - (right - 1) / 2 - 1) as nat;
            &&& bulk_level(n) == bulk_level(left) + 1
            &&& bulk_level(left) <= bulk_level(right) <= bulk_level(left) + 1
            &&& right >= 1
            &&& bulk_level(far) <= bulk_level(left)
        }),
{
    let left = ((n - 1) / 2) as nat;
    let right = (n - left - 1) as nat;
    let far = (right - (right - 1) / 2 - 1) as nat;
    lemma_bulk_level_monotonic(left, right);
    lemma_bulk_level_monotonic(far, left);
}

impl<T> AANode<T> {
    /// The tree that is built from `data`: its middle payload, the one at
    /// place `(n - 1) / 2` of `n`, over the trees that are built from what
    /// stands before it and from what stands behind it, one level above the
    /// left one.
    pub open spec fn built(data: Seq<T>) -> Self
        decreases data.len(),
    {
        if data.len() == 0 {
            AANode(None)
        } else {
            let middle = (data.len() - 1) / 2;
            let left = Self::built(data.take(middle));
            let right = Self::built(data.skip(middle + 1));
            AANode(
                Some(
                    Box::new(
                        Node {
                            level: (left.lvl() + 1) as u8,
                            content: data[middle],
                            left_child: left,
                            right_child: right,
                        },
                    ),
                ),
            )
        }
    }
}

impl<T: PartialOrd> AANode<T> {
    /// Create a tree from data that is sorted and holds no two equivalent
    /// payloads. The middle payload becomes the root, what stands before it
    /// the left subtree and what stands behind it the right subtree, each
    /// built the same way.
    ///
    /// Data that is not sorted gives a tree that keeps the level rules but is
    /// no search tree.
    pub fn from_sorted_data(data: Vec<T>) -> (tree: Self)
        ensures
            tree == Self::built(data@),
            tree@ == data@,
            tree.balanced(),
            tree.lvl() == bulk_level(data@.len()),
            ascending(data@) ==> tree.wf(),
    {
        let len = data.len();
        let mut iter = data.into_iter();
        let tree = Self::from_sorted_data_impl(&mut iter, len);
        proof {
            assert(data@.take(len as int) =~= data@);
        }
        tree
    }

}

impl<T> AANode<T> {
    /// Build a tree from the next `len` items of `data`.
    pub fn from_sorted_data_impl<I>(data: &mut I, len: usize) -> (tree: Self) where
        I: Iterator<Item = T>,

        requires
            IteratorSpec::obeys_prophetic_iter_laws(old(data)),
            len <= IteratorSpec::remaining(old(data)).len(),
        ensures
            IteratorSpec::obeys_prophetic_iter_laws(final(data)),
            IteratorSpec::remaining(final(data)) == IteratorSpec::remaining(old(data)).skip(
                len as int,
            ),
            tree == Self::built(IteratorSpec::remaining(old(data)).take(len as int)),
            tree@ == IteratorSpec::remaining(old(data)).take(len as int),
            tree.balanced(),
            tree.lvl() == bulk_level(len as nat),
            len > 0 ==> tree.right().lvl() == bulk_level((len - (len - 1) / 2 - 1) as nat),
        decreases len,
    {
        let ghost items = IteratorSpec::remaining(data);
        if len == 0 {
            proof {
                assert(items.skip(0) =~= items);
                assert(items.take(0) =~= Seq::<T>::empty());
            }
            let tree = AANode::new();
            assert(tree@ =~= Seq::<T>::empty());
            assert(tree.balanced());
            tree
        } else if len == 1 {
            let content = data.next().unwrap();
            proof {
                assert(items.skip(1) =~= items.drop_first());
                assert(items.take(1) =~= Seq::<T>::empty().push(items[0]));
                assert(bulk_level(1) == 1) by {
                    assert(bulk_level(0) == 0);
                }
            }
            let tree = AANode::from(content);
            proof {
                let one = items.take(1);
                assert(one.take(0) =~= Seq::<T>::empty());
                assert(one.skip(1) =~= Seq::<T>::empty());
                assert(Self::built(Seq::<T>::empty()) == AANode::<T>(None));
                assert(tree == Self::built(one));
            }
            assert(tree.0 is Some);
            assert(tree.left().0 is None && tree.right().0 is None);
            assert(tree.left()@ =~= Seq::<T>::empty());
            assert(tree@ =~= Seq::<T>::empty().push(content));
            assert(tree.left().balanced() && tree.right().balanced());
            assert(tree.right().right().lvl() == 0);
            assert(tree.balanced());
            tree
        } else {
            let root_idx = (len - 1) / 2;
            proof {
                lemma_bulk_level_step(len as nat);
                lemma_bulk_level_small(root_idx as nat);
            }
            let left_child = Self::from_sorted_data_impl(data, root_idx);
            let content = data.next().unwrap();
            let right_child = Self::from_sorted_data_impl(data, len - root_idx - 1);
            let level = left_child.level() + 1;
            let ghost left = left_child;
            let ghost right = right_child;
            let tree = AANode(Some(Box::new(Node { level, content, left_child, right_child })));
            proof {
                let k = root_idx as int;
                let rest = items.skip(k);
                assert(left@ == items.take(k));
                assert(content == rest[0]);
                assert(right@ == rest.drop_first().take(len - k - 1));
                assert(rest.drop_first().skip(len - k - 1) =~= items.skip(len as int));
                assert(items.take(k).push(items[k]) + rest.drop_first().take(len - k - 1)
                    =~= items.take(len as int));
                assert(tree@ == left@.push(content) + right@);
                let n = (len - k - 1) as nat;
                assert(right.lvl() == bulk_level(n));
                assert(right.right().lvl() == bulk_level((n - (n - 1) / 2 - 1) as nat));
                assert(tree.left() == left && tree.right() == right);
                assert(tree.balanced());
                let all = items.take(len as int);
                assert(all.take(k) =~= items.take(k));
                assert(all.skip(k + 1) =~= rest.drop_first().take(len - k - 1));
                assert(all[k] == content);
                assert(tree == Self::built(all));
            }
            tree
        }
    }
}

} // verus!

//! Insertion: an ordinary search-tree insert, repaired on the way back up.

use super::{lemma_shape, lemma_skewed_view, lemma_splitted_view, AANode};
use crate::order::{
    above, below, lemma_ascending_parts, lemma_merged_ascending, lemma_merged_here,
    lemma_merged_left, lemma_merged_right, merged, met, strict_order,
};
use vstd::prelude::*;

verus! {

impl<T> AANode<T> {
    /// What insertion does to the levels: the tree is balanced again, and its
    /// root is on the level it had, or one higher; it only rises from a root
    /// that had a right child on its own level, and then to a root that has
    /// none.
    pub open spec fn grown_from(self, before: Self) -> bool {
        &&& self.balanced()
        &&& (self.lvl() == before.lvl() || {
            &&& self.lvl() == before.lvl() + 1
            &&& self.right().lvl() < self.lvl()
            &&& !(before.right().lvl() < before.lvl())
        })
    }

    /// The tree between the plain insert and its repair: a new leaf, or the
    /// old root over one child that has grown.
    pub open spec fn unsettled_from(self, before: Self) -> bool {
        match before.0 {
            None => self.0 is Some && self.lvl() == 1 && self.left().0 is None
                && self.right().0 is None,
            Some(node) => {
                &&& self.0 is Some
                &&& self.lvl() == node.level
                &&& {
                    ||| (self.right() == node.right_child && self.left().grown_from(
                        node.left_child,
                    ))
                    ||| (self.left() == node.left_child && self.right().grown_from(
                        node.right_child,
                    ))
                }
            },
        }
    }
}

impl<T: PartialOrd> AANode<T> {
    /// Whether the search for `x` from the root ends at a payload: it turns
    /// left where `x` is below the payload of a node and right where `x` is
    /// above it.
    pub open spec fn reaches(self, x: T) -> bool
        decreases self,
    {
        match self.0 {
            None => false,
            Some(node) => if below(x, node.content) {
                node.left_child.reaches(x)
            } else if above(x, node.content) {
                node.right_child.reaches(x)
            } else {
                true
            },
        }
    }

    /// The tree after the plain search-tree insert of `x`, before its root is
    /// repaired: `x` is inserted into the subtree that the search turns to,
    /// or becomes a new leaf; a payload at which the search ends gives way to
    /// `x` if `replace` is set and stays otherwise.
    pub open spec fn planted(self, x: T, replace: bool) -> Self
        decreases self, 0nat,
    {
        match self.0 {
            None => Self::leaf(x),
            Some(node) => if below(x, node.content) {
                self.with_left(node.left_child.inserted(x, replace))
            } else if above(x, node.content) {
                self.with_right(node.right_child.inserted(x, replace))
            } else if replace {
                self.with_content(x)
            } else {
                self
            },
        }
    }

    /// The tree after the insertion of `x`: the plain insert, followed by
    /// `skew` and `split` at every node on the way back up from a new leaf.
    /// Where the search ends at a payload, no node is repaired.
    pub open spec fn inserted(self, x: T, replace: bool) -> Self
        decreases self, 1nat,
    {
        if self.reaches(x) {
            self.planted(x, replace)
        } else {
            self.planted(x, replace).skewed().splitted()
        }
    }
}

/// `skew` followed by `split` repairs a tree in which one child has grown.
pub proof fn lemma_settle<T>(before: AANode<T>, mid: AANode<T>)
    requires
        before.balanced(),
        before.lvl() < u8::MAX,
        mid.unsettled_from(before),
    ensures
        mid.skewed().splits() ==> mid.skewed().right().lvl() < u8::MAX,
        mid.skewed().splitted().grown_from(before),
{
    reveal_with_fuel(AANode::balanced, 4);
}

impl<T: PartialOrd> AANode<T> {
    /// Insert `content` into the tree. If the tree holds an equivalent
    /// payload already, nothing changes and `false` is returned.
    ///
    /// The root must be below the highest level that a node can hold; a
    /// tree that high would have more than 2^254 payloads.
    pub fn insert(&mut self, content: T) -> (inserted: bool)
        requires
            strict_order::<T>(),
            old(self).wf(),
            old(self).lvl() < u8::MAX,
        ensures
            *final(self) == old(self).inserted(content, false),
            inserted == !old(self).reaches(content),
            final(self).wf(),
            final(self)@ == merged(old(self)@, content, false),
            inserted == (met(old(self)@, content) is None),
            !inserted ==> *final(self) == *old(self),
            final(self).grown_from(*old(self)),
        decreases *old(self), 1nat,
    {
        let inserted = self.bst_insert(content);
        if inserted {
            proof {
                lemma_settle(*old(self), *self);
                lemma_skewed_view(*self);
                lemma_splitted_view(self.skewed());
            }
            let node = self.take();
            *self = node.skew().split();
        }
        inserted
    }

    /// Insert into the search tree without repairing this node.
    fn bst_insert(&mut self, new: T) -> (inserted: bool)
        requires
            strict_order::<T>(),
            old(self).wf(),
            old(self).lvl() < u8::MAX,
        ensures
            *final(self) == old(self).planted(new, false),
            inserted == !old(self).reaches(new),
            final(self).ordered(),
            final(self)@ == merged(old(self)@, new, false),
            inserted == (met(old(self)@, new) is None),
            inserted ==> final(self).unsettled_from(*old(self)),
            !inserted ==> *final(self) == *old(self),
        decreases *old(self), 0nat,
    {
        proof {
            lemma_merged_ascending(self@, new, false);
        }
        match &mut self.0 {
            None => {
                *self = AANode::from(new);
                true
            },
            Some(node) => {
                proof {
                    let l = node.left_child@;
                    let r = node.right_child@;
                    lemma_ascending_parts(l, node.content, r);
                    if below(new, node.content) {
                        lemma_merged_left(l, node.content, r, new, false);
                    } else {
                        if above(new, node.content) {
                            lemma_merged_right(l, node.content, r, new, false);
                        } else {
                            lemma_merged_here(l, node.content, r, new, false);
                        }
                    }
                }
                if new < node.content {
                    node.left_child.insert(new)
                } else if new > node.content {
                    node.right_child.insert(new)
                } else {
                    false
                }
            },
        }
    }
}

impl<T: PartialOrd> AANode<T> {
    /// Insert `content` into the tree. If the tree holds an equivalent
    /// payload already, `content` takes its place in the same node and the
    /// old payload is returned.
    ///
    /// The root must be below the highest level that a node can hold; a
    /// tree that high would have more than 2^254 payloads.
    pub fn insert_or_replace(&mut self, content: T) -> (replaced: Option<T>)
        requires
            strict_order::<T>(),
            old(self).wf(),
            old(self).lvl() < u8::MAX,
        ensures
            *final(self) == old(self).inserted(content, true),
            replaced is Some == old(self).reaches(content),
            final(self).wf(),
            final(self)@ == merged(old(self)@, content, true),
            replaced == met(old(self)@, content),
            replaced is Some ==> final(self).shape() == old(self).shape(),
            final(self).grown_from(*old(self)),
        decreases *old(self), 1nat,
    {
        let replaced = self.bst_insert_or_replace(content);
        if replaced.is_none() {
            proof {
                lemma_settle(*old(self), *self);
                lemma_skewed_view(*self);
                lemma_splitted_view(self.skewed());
            }
            let node = self.take();
            *self = node.skew().split();
        } else {
            proof {
                lemma_shape(*old(self));
                lemma_shape(*self);
            }
        }
        replaced
    }

    /// Insert into the search tree, or replace, without repairing this node.
    fn bst_insert_or_replace(&mut self, new: T) -> (replaced: Option<T>)
        requires
            strict_order::<T>(),
            old(self).wf(),
            old(self).lvl() < u8::MAX,
        ensures
            *final(self) == old(self).planted(new, true),
            replaced is Some == old(self).reaches(new),
            final(self).ordered(),
            final(self)@ == merged(old(self)@, new, true),
            replaced == met(old(self)@, new),
            replaced is None ==> final(self).unsettled_from(*old(self)),
            replaced is Some ==> final(self).shape() == old(self).shape(),
        decreases *old(self), 0nat,
    {
        proof {
            lemma_merged_ascending(self@, new, true);
        }
        match &mut self.0 {
            None => {
                *self = AANode::from(new);
                None
            },
            Some(node) => {
                proof {
                    let l = node.left_child@;
                    let r = node.right_child@;
                    lemma_ascending_parts(l, node.content, r);
                    if below(new, node.content) {
                        lemma_merged_left(l, node.content, r, new, true);
                    } else {
                        if above(new, node.content) {
                            lemma_merged_right(l, node.content, r, new, true);
                        } else {
                            lemma_merged_here(l, node.content, r, new, true);
                        }
                    }
                }
                if new < node.content {
                    node.left_child.insert_or_replace(new)
                } else if new > node.content {
                    node.right_child.insert_or_replace(new)
                } else {
                    let mut new = new;
                    std::mem::swap(&mut node.content, &mut new);
                    Some(new)
                }
            },
        }
    }
}

} // verus!

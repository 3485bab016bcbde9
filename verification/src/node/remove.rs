//! Removal: a search-tree delete that splices in the neighbour of an inner
//! node, repaired on the way back up by lowering levels, three `skew`s and
//! two `split`s.

use super::{lemma_skewed_view, lemma_splitted_view, AANode};
use crate::order::{
    above, below, find, lemma_ascending_parts, lemma_lookup_descends, lemma_without_ascending,
    probe_order, without,
};
use vstd::prelude::*;

verus! {

impl<T> AANode<T> {
    /// The level that the children of this tree ask of its root: one above
    /// the lower child.
    pub open spec fn due_level(self) -> nat {
        if self.left().lvl() <= self.right().lvl() {
            self.left().lvl() + 1
        } else {
            self.right().lvl() + 1
        }
    }

    /// The tree after its root has been lowered to the level that its
    /// children ask for, and its right child to that level too if it was
    /// above it. No level is ever raised.
    pub open spec fn lowered(self) -> Self {
        if self.0 is Some && self.due_level() < self.lvl() {
            let due = self.due_level() as u8;
            let right = if due < self.right().lvl() {
                self.right().with_level(due)
            } else {
                self.right()
            };
            self.with_level(due).with_right(right)
        } else {
            self
        }
    }

    /// The tree after the repair that follows a removal below its root:
    /// levels lowered, then `skew` at the root, at its right child and at the
    /// right child of that, then `split` at the root and at its right child.
    pub open spec fn cleaned(self) -> Self {
        let a = self.lowered().skewed();
        let r = a.right().skewed();
        let b = a.with_right(r.with_right(r.right().skewed()));
        let c = b.splitted();
        c.with_right(c.right().splitted())
    }

    /// The repair runs without a level passing the highest that a node can
    /// hold.
    pub open spec fn cleanable(self) -> bool {
        let a = self.lowered().skewed();
        let r = a.right().skewed();
        let b = a.with_right(r.with_right(r.right().skewed()));
        let c = b.splitted();
        &&& self.0 is Some ==> self.due_level() <= u8::MAX
        &&& b.splits() ==> b.right().lvl() < u8::MAX
        &&& c.right().splits() ==> c.right().right().lvl() < u8::MAX
    }

    /// The tree after its first payload has been removed: the node at the end
    /// of the left spine gives way to its right subtree, and every node on
    /// the way back up is repaired.
    pub open spec fn without_first(self) -> Self
        decreases self,
    {
        match self.0 {
            None => self,
            Some(node) => if node.left_child.0 is None {
                node.right_child.cleaned()
            } else {
                self.with_left(node.left_child.without_first()).cleaned()
            },
        }
    }

    /// The tree after its last payload has been removed: the node at the end
    /// of the right spine gives way to its left subtree, and every node on
    /// the way back up is repaired.
    pub open spec fn without_last(self) -> Self
        decreases self,
    {
        match self.0 {
            None => self,
            Some(node) => if node.right_child.0 is None {
                node.left_child.cleaned()
            } else {
                self.with_right(node.right_child.without_last()).cleaned()
            },
        }
    }

    /// The tree after the payload equivalent to `q` has been removed. The
    /// search turns left at payloads above `q` and right at payloads below
    /// it. Where it ends at a node, a node on level 1 gives way to its right
    /// subtree; a node without a left child takes the first payload of its
    /// right subtree, which loses it; any other node takes the last payload
    /// of its left subtree, which loses it. Every node on the way back up is
    /// repaired, whether something was removed or not.
    pub open spec fn removed<Q>(self, q: Q) -> Self where T: PartialOrd<Q>
        decreases self,
    {
        match self.0 {
            None => self,
            Some(node) => if above(node.content, q) {
                self.with_left(node.left_child.removed(q)).cleaned()
            } else if below(node.content, q) {
                self.with_right(node.right_child.removed(q)).cleaned()
            } else if node.level == 1 {
                node.right_child.cleaned()
            } else if node.left_child.lvl() == 0 {
                self.with_content(node.right_child@.first()).with_right(
                    node.right_child.without_first(),
                ).cleaned()
            } else {
                self.with_content(node.left_child@.last()).with_left(
                    node.left_child.without_last(),
                ).cleaned()
            },
        }
    }

    /// What removal does to the levels: the tree is balanced again, and its
    /// root is on the level it had, or one lower; where it stays, a root
    /// that had no right child on its own level has none afterwards.
    pub open spec fn shrunk_from(self, before: Self) -> bool {
        &&& self.balanced()
        &&& {
            ||| self.lvl() + 1 == before.lvl()
            ||| {
                &&& self.lvl() == before.lvl()
                &&& before.right().lvl() < before.lvl() ==> self.right().lvl() < self.lvl()
            }
        }
    }

    /// The tree between a removal below its root and its repair: the old
    /// root over one child that has shrunk.
    pub open spec fn loosened_from(self, before: Self) -> bool {
        &&& before.0 is Some
        &&& self.0 is Some
        &&& self.lvl() == before.lvl()
        &&& {
            ||| (self.right() == before.right() && self.left().shrunk_from(before.left()))
            ||| (self.left() == before.left() && self.right().shrunk_from(before.right()))
        }
    }
}

/// Changing levels or the right subtree does what it says to the view.
proof fn lemma_parts_view<T>(tree: AANode<T>, level: u8, right: AANode<T>)
    ensures
        tree.with_level(level)@ == tree@,
        tree.0 is Some ==> tree.with_right(right)@ == tree.left()@.push(tree.0->0.content)
            + right@,
        tree.0 is Some ==> tree@ == tree.left()@.push(tree.0->0.content) + tree.right()@,
        tree.0 is None ==> tree@ == Seq::<T>::empty(),
{
}

/// Lowering levels keeps the payloads and their order.
pub proof fn lemma_lowered_view<T>(tree: AANode<T>)
    ensures
        tree.lowered()@ == tree@,
{
    if tree.0 is Some && tree.due_level() < tree.lvl() {
        let due = tree.due_level() as u8;
        lemma_parts_view(tree.right(), due, tree.right());
        lemma_parts_view(tree, due, tree.right());
        let right = if due < tree.right().lvl() {
            tree.right().with_level(due)
        } else {
            tree.right()
        };
        lemma_parts_view(tree.with_level(due), due, right);
    }
}

/// `skew` at the right child keeps the payloads and their order.
proof fn lemma_right_rewritten_view<T>(tree: AANode<T>, right: AANode<T>)
    requires
        right@ == tree.right()@,
    ensures
        tree.with_right(right)@ == tree@,
{
}

/// The repair after a removal keeps the payloads and their order.
pub proof fn lemma_cleaned_view<T>(tree: AANode<T>)
    ensures
        tree.cleaned()@ == tree@,
{
    lemma_lowered_view(tree);
    lemma_skewed_view(tree.lowered());
    let a = tree.lowered().skewed();
    lemma_skewed_view(a.right());
    let r = a.right().skewed();
    lemma_skewed_view(r.right());
    lemma_right_rewritten_view(r, r.right().skewed());
    let b = a.with_right(r.with_right(r.right().skewed()));
    lemma_splitted_view(b);
    let c = b.splitted();
    lemma_splitted_view(c.right());
}

/// What the level rules say of the root of a balanced tree and of its right
/// child.
proof fn lemma_balanced_root<T>(tree: AANode<T>)
    requires
        tree.balanced(),
    ensures
        tree.left().balanced(),
        tree.right().balanced(),
        tree.right().right().balanced(),
        tree.right().left().balanced(),
        tree.left().lvl() <= tree.lvl(),
        tree.right().lvl() <= tree.lvl(),
        tree.0 is Some ==> tree.lvl() == tree.left().lvl() + 1,
        tree.0 is Some ==> tree.right().lvl() + 1 >= tree.lvl(),
        tree.0 is Some ==> tree.right().right().lvl() < tree.lvl(),
        !tree.skews(),
        !tree.splits(),
        tree.0 is Some ==> tree.due_level() == tree.lvl(),
        tree.with_right(tree.right()) == tree,
{
    reveal_with_fuel(AANode::balanced, 2);
}

/// The repair leaves a balanced tree as it is.
pub proof fn lemma_cleaned_balanced<T>(tree: AANode<T>)
    requires
        tree.balanced(),
    ensures
        tree.cleanable(),
        tree.cleaned() == tree,
{
    lemma_balanced_root(tree);
    lemma_balanced_root(tree.right());
    lemma_balanced_root(tree.right().right());
    assert(tree.lowered() == tree);
    let a = tree.lowered().skewed();
    assert(a == tree);
    let r = a.right().skewed();
    assert(r == tree.right());
    assert(r.right().skewed() == r.right());
    let b = a.with_right(r.with_right(r.right().skewed()));
    assert(b == tree);
}

/// The repair where the left child has dropped a level under a root whose
/// right child was a level below it.
proof fn lemma_cleaned_left_low<T>(before: AANode<T>, mid: AANode<T>)
    requires
        before.balanced(),
        mid.loosened_from(before),
        mid.right() == before.right(),
        mid.left().balanced(),
        mid.left().lvl() + 1 == before.left().lvl(),
        before.right().lvl() + 1 == before.lvl(),
    ensures
        mid.cleanable(),
        mid.cleaned().shrunk_from(before),
{
    let r = before.right();
    let rr = r.right();
    lemma_balanced_root(before);
    lemma_balanced_root(r);
    lemma_balanced_root(r.left());
    lemma_balanced_root(rr);
    lemma_balanced_root(mid.left());
    let low = mid.lowered();
    assert(low.lvl() + 1 == before.lvl());
    assert(low.right() == r);
    assert(low.left() == mid.left());
    let a = low.skewed();
    assert(a == low);
    assert(r.skewed() == r);
    assert(rr.skewed() == rr);
    assert(r.with_right(rr) == r);
    let b = a.with_right(r.with_right(rr.skewed()));
    assert(b == low);
    let c = b.splitted();
    if rr.lvl() == r.lvl() {
        assert(b.splits());
        assert(c.right() == rr);
        assert(c.left().balanced());
        assert(c.with_right(rr) == c);
        assert(c.balanced());
    } else {
        assert(!b.splits());
        assert(c == low);
        assert(r.splitted() == r);
        assert(low.with_right(r) == low);
        assert(low.balanced());
    }
}

/// The repair where the left child has dropped a level under a root whose
/// right child was on its own level.
proof fn lemma_cleaned_left_level<T>(before: AANode<T>, mid: AANode<T>)
    requires
        before.balanced(),
        mid.loosened_from(before),
        mid.right() == before.right(),
        mid.left().balanced(),
        mid.left().lvl() + 1 == before.left().lvl(),
        before.right().lvl() == before.lvl(),
    ensures
        mid.cleanable(),
        mid.cleaned().shrunk_from(before),
{
    let r = before.right();
    let rl = r.left();
    let rr = r.right();
    let rlr = rl.right();
    lemma_balanced_root(before);
    lemma_balanced_root(r);
    lemma_balanced_root(rl);
    lemma_balanced_root(rr);
    lemma_balanced_root(rlr);
    lemma_balanced_root(mid.left());
    let due = mid.due_level() as u8;
    assert(due + 1 == before.lvl());
    let low = mid.lowered();
    assert(low.lvl() == due);
    assert(low.left() == mid.left());
    let r2 = r.with_level(due);
    assert(low.right() == r2);
    let a = low.skewed();
    assert(a == low);
    assert(r2.skews());
    let r1 = r2.skewed();
    let s0 = r1.right();
    assert(s0.lvl() == due && s0.left() == rlr && s0.right() == rr);
    let s1 = s0.skewed();
    assert(s1.lvl() == due);
    let b = a.with_right(r1.with_right(s1));
    assert(b.right().right() == s1);
    assert(b.splits());
    let c = b.splitted();
    assert(c.right() == s1);
    assert(c.lvl() == before.lvl());
    assert(c.left().lvl() == due && c.left().left() == mid.left() && c.left().right()
        == rl.left());
    assert(c.left().balanced());
    let s2 = s1.splitted();
    if s0.skews() {
        assert(s1.left() == rlr.left());
        assert(s1.right().left() == rlr.right() && s1.right().right() == rr
            && s1.right().lvl() == due);
        assert(s1.splits());
        assert(s2.lvl() == before.lvl());
        assert(s2.right() == rr);
        assert(s2.left().left() == rlr.left() && s2.left().right() == rlr.right()
            && s2.left().lvl() == due);
        assert(s2.left().balanced());
        assert(s2.balanced());
    } else {
        assert(s1 == s0);
        if s0.splits() {
            assert(s2.lvl() == before.lvl());
            assert(s2.right() == rr.right());
            assert(s2.left().left() == rlr && s2.left().right() == rr.left() && s2.left().lvl()
                == due);
            lemma_balanced_root(rr.left());
            assert(s2.left().balanced());
            assert(s2.balanced());
        } else {
            assert(s2 == s0);
            assert(s0.balanced());
        }
    }
    let out = c.with_right(s2);
    assert(out.left() == c.left() && out.right() == s2 && out.lvl() == c.lvl());
    assert(out.balanced());
}

/// The repair where the right child has dropped a level under a root that
/// was a level above it.
proof fn lemma_cleaned_right_low<T>(before: AANode<T>, mid: AANode<T>)
    requires
        before.balanced(),
        mid.loosened_from(before),
        mid.left() == before.left(),
        mid.right().balanced(),
        mid.right().lvl() + 2 == before.lvl(),
    ensures
        mid.cleanable(),
        mid.cleaned().shrunk_from(before),
{
    let l = before.left();
    let lr = l.right();
    let q = mid.right();
    lemma_balanced_root(before);
    lemma_balanced_root(before.right());
    lemma_balanced_root(l);
    lemma_balanced_root(l.left());
    lemma_balanced_root(lr);
    lemma_balanced_root(q);
    let due = mid.due_level() as u8;
    assert(due + 1 == before.lvl());
    let low = mid.lowered();
    assert(low.lvl() == due && low.left() == l && low.right() == q);
    assert(low.skews());
    let a = low.skewed();
    let s0 = a.right();
    assert(a.lvl() == due && a.left() == l.left());
    assert(s0.lvl() == due && s0.left() == lr && s0.right() == q);
    let r1 = s0.skewed();
    if s0.skews() {
        let s2 = r1.right();
        assert(r1.lvl() == due && r1.left() == lr.left());
        assert(s2.lvl() == due && s2.left() == lr.right() && s2.right() == q);
        assert(!s2.skews());
        assert(s2.skewed() == s2);
        assert(r1.with_right(s2) == r1);
        let b = a.with_right(r1);
        assert(b.splits());
        let c = b.splitted();
        assert(c.right() == s2);
        assert(c.lvl() == before.lvl());
        assert(c.left().lvl() == due && c.left().left() == l.left() && c.left().right()
            == lr.left());
        assert(c.left().balanced());
        assert(!s2.splits());
        assert(s2.balanced());
        assert(c.with_right(s2) == c);
        assert(c.balanced());
    } else {
        assert(r1 == s0);
        assert(q.skewed() == q);
        assert(s0.with_right(q) == s0);
        assert(a.with_right(s0) == a);
        assert(!a.splits());
        assert(!s0.splits());
        assert(s0.balanced());
        assert(a.balanced());
    }
}

/// The repair restores the level rules in a tree in which one child has
/// shrunk.
pub proof fn lemma_cleaned_levels<T>(before: AANode<T>, mid: AANode<T>)
    requires
        before.balanced(),
        mid.loosened_from(before),
    ensures
        mid.cleanable(),
        mid.cleaned().shrunk_from(before),
{
    lemma_balanced_root(before);
    lemma_balanced_root(before.right());
    lemma_balanced_root(mid.left());
    lemma_balanced_root(mid.right());
    let lv = before.lvl();
    if mid.right() == before.right() && mid.left().shrunk_from(before.left()) {
        if mid.left().lvl() == before.left().lvl() {
            assert(mid.balanced());
            lemma_cleaned_balanced(mid);
        } else if before.right().lvl() + 1 == lv {
            lemma_cleaned_left_low(before, mid);
        } else {
            lemma_cleaned_left_level(before, mid);
        }
    } else {
        if mid.right().lvl() + 1 == lv || mid.right().lvl() == lv {
            assert(mid.balanced());
            lemma_cleaned_balanced(mid);
        } else {
            lemma_cleaned_right_low(before, mid);
        }
    }
}

impl<T> AANode<T> {
    /// Repair the tree after a removal below its root: lower the levels,
    /// then `skew` three times and `split` twice along the right spine.
    fn remove_cleanup(&mut self)
        requires
            old(self).cleanable(),
        ensures
            *final(self) == old(self).cleaned(),
    {
        match &mut self.0 {
            None => {
                return ;
            },
            Some(node) => {
                let left_level = node.left_child.level();
                let right_level = node.right_child.level();
                let expected = if left_level <= right_level {
                    left_level + 1
                } else {
                    right_level + 1
                };
                if expected < node.level {
                    node.level = expected;
                    if expected < right_level {
                        node.right_child.set_level(expected);
                    }
                }
            },
        }
        let mut node = self.take().skew();
        if node.has_right_child() {
            let mut right_child = match &mut node.0 {
                None => AANode(None),
                Some(n) => n.right_child.take(),
            };
            right_child = right_child.skew();
            if right_child.has_right_child() {
                let right_grandchild = match &mut right_child.0 {
                    None => AANode(None),
                    Some(r) => r.right_child.take(),
                };
                right_child.set_right_child(right_grandchild.skew());
            }
            node.set_right_child(right_child);
        }
        node = node.split();
        if node.has_right_child() {
            let right_child = match &mut node.0 {
                None => AANode(None),
                Some(n) => n.right_child.take(),
            };
            node.set_right_child(right_child.split());
        }
        *self = node;
    }

    /// Remove the first payload of the tree, the successor of whatever
    /// stands before this subtree, and return it.
    pub fn remove_successor(&mut self) -> (first: Option<T>)
        requires
            old(self).balanced(),
        ensures
            *final(self) == old(self).without_first(),
            final(self).shrunk_from(*old(self)),
            match first {
                None => old(self).0 is None && final(self).0 is None,
                Some(payload) => old(self)@.len() > 0 && payload == old(self)@.first()
                    && final(self)@ == old(self)@.drop_first(),
            },
        decreases *old(self),
    {
        match &mut self.0 {
            None => None,
            Some(node) => {
                if node.left_child.is_nil() {
                    let right = node.right_child.take();
                    let this = self.take();
                    *self = right;
                    proof {
                        lemma_balanced_root(*old(self));
                        assert(old(self).left()@ =~= Seq::<T>::empty());
                        assert(old(self)@ =~= seq![old(self).0->0.content] + self@);
                    }
                    self.remove_cleanup();
                    match this.unbox() {
                        None => None,
                        Some(taken) => Some(taken.content),
                    }
                } else {
                    let first = node.left_child.remove_successor();
                    proof {
                        lemma_cleaned_levels(*old(self), *self);
                        lemma_cleaned_view(*self);
                        let c = old(self).0->0.content;
                        assert(old(self)@ =~= old(self).left()@.push(c) + self.right()@);
                    }
                    self.remove_cleanup();
                    first
                }
            },
        }
    }

    /// Remove the last payload of the tree, the predecessor of whatever
    /// stands behind this subtree, and return it.
    pub fn remove_predecessor(&mut self) -> (last: Option<T>)
        requires
            old(self).balanced(),
        ensures
            *final(self) == old(self).without_last(),
            final(self).shrunk_from(*old(self)),
            match last {
                None => old(self).0 is None && final(self).0 is None,
                Some(payload) => old(self)@.len() > 0 && payload == old(self)@.last()
                    && final(self)@ == old(self)@.drop_last(),
            },
        decreases *old(self),
    {
        match &mut self.0 {
            None => None,
            Some(node) => {
                if node.right_child.is_nil() {
                    let left = node.left_child.take();
                    let this = self.take();
                    *self = left;
                    proof {
                        lemma_balanced_root(*old(self));
                        assert(old(self).right()@ =~= Seq::<T>::empty());
                    }
                    self.remove_cleanup();
                    match this.unbox() {
                        None => None,
                        Some(taken) => Some(taken.content),
                    }
                } else {
                    let last = node.right_child.remove_predecessor();
                    proof {
                        lemma_cleaned_levels(*old(self), *self);
                        lemma_cleaned_view(*self);
                        let c = old(self).0->0.content;
                        assert(old(self)@ =~= self.left()@.push(c) + old(self).right()@);
                    }
                    self.remove_cleanup();
                    last
                }
            },
        }
    }

    /// Remove the payload equivalent to `value` from the tree and return
    /// it, or return `None` and leave the tree as it is if there is none.
    pub fn remove<Q>(&mut self, value: &Q) -> (removed: Option<T>) where
        T: PartialOrd<Q> + PartialOrd,

        requires
            probe_order::<T, Q>(),
            old(self).wf(),
        ensures
            *final(self) == old(self).removed(*value),
            final(self).wf(),
            final(self)@ == without(old(self)@, *value),
            removed == find(old(self)@, *value),
            final(self).shrunk_from(*old(self)),
        decreases *old(self),
    {
        proof {
            lemma_without_ascending(self@, *value);
        }
        match &mut self.0 {
            None => None,
            Some(node) => {
                proof {
                    lemma_ascending_parts(node.left_child@, node.content, node.right_child@);
                    lemma_lookup_descends(
                        node.left_child@,
                        node.content,
                        node.right_child@,
                        *value,
                    );
                    lemma_balanced_root(*old(self));
                }
                if node.content > *value {
                    let removed = node.left_child.remove(value);
                    proof {
                        lemma_cleaned_levels(*old(self), *self);
                        lemma_cleaned_view(*self);
                    }
                    self.remove_cleanup();
                    removed
                } else if node.content < *value {
                    let removed = node.right_child.remove(value);
                    proof {
                        lemma_cleaned_levels(*old(self), *self);
                        lemma_cleaned_view(*self);
                    }
                    self.remove_cleanup();
                    removed
                } else if node.level == 1 {
                    let right = node.right_child.take();
                    let this = self.take();
                    *self = right;
                    self.remove_cleanup();
                    match this.unbox() {
                        None => None,
                        Some(taken) => Some(taken.content),
                    }
                } else if node.left_child.level() == 0 {
                    // A valid tree has no node above level 1 without a left
                    // child.
                    assert(false);
                    let mut successor = node.right_child.remove_successor().unwrap();
                    std::mem::swap(&mut node.content, &mut successor);
                    self.remove_cleanup();
                    Some(successor)
                } else {
                    let mut predecessor = node.left_child.remove_predecessor().unwrap();
                    std::mem::swap(&mut node.content, &mut predecessor);
                    proof {
                        lemma_cleaned_levels(*old(self), *self);
                        lemma_cleaned_view(*self);
                        assert(self.left()@.push(self.0->0.content) =~= old(self).left()@);
                    }
                    self.remove_cleanup();
                    Some(predecessor)
                }
            },
        }
    }
}

} // verus!

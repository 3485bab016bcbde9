//! A bare AA tree: the root node behind a plain interface, for uses that
//! need neither a count nor the set or map interface.

use crate::node::traverse::TraverseStep;
use crate::node::AANode;
use crate::order::{find, merged, met, probe_order, strict_order, without};
use vstd::prelude::*;

verus! {

/// What can be stored in an [`AATree`]: every type that can be compared
/// with itself.
pub trait TreeType: PartialOrd {}

impl<T: PartialOrd> TreeType for T {}

/// An AA tree. This stores the root [`AANode`] and hides that operations
/// replace the root.
pub struct AATree<T: TreeType> {
    pub root: AANode<T>,
}

impl<T: TreeType> View for AATree<T> {
    type V = Seq<T>;

    open spec fn view(&self) -> Seq<T> {
        self.root@
    }
}

impl<T: TreeType> Default for AATree<T> {
    fn default() -> (tree: Self)
        ensures
            tree.root.0 is None,
    {
        Self::new()
    }
}

impl<T: TreeType> AATree<T> {
    /// The tree is a valid AA tree.
    pub open spec fn wf(self) -> bool {
        self.root.wf()
    }

    /// Create a new, empty tree.
    pub fn new() -> (tree: Self)
        ensures
            tree.root.0 is None,
    {
        Self { root: AANode::new() }
    }

    /// Add a value to this tree. If the tree holds an equivalent value
    /// already, nothing is inserted and `false` is returned.
    pub fn insert(&mut self, value: T) -> (inserted: bool)
        requires
            strict_order::<T>(),
            old(self).wf(),
            old(self).root.lvl() < u8::MAX,
        ensures
            final(self).root == old(self).root.inserted(value, false),
            final(self).wf(),
            final(self)@ == merged(old(self)@, value, false),
            inserted == (met(old(self)@, value) is None),
            !inserted ==> *final(self) == *old(self),
            final(self).root.grown_from(old(self).root),
    {
        self.root.insert(value)
    }

    /// Remove a value from this tree. If the value was found, it will be
    /// returned.
    pub fn remove(&mut self, value: &T) -> (removed: Option<T>)
        requires
            probe_order::<T, T>(),
            old(self).wf(),
        ensures
            final(self).root == old(self).root.removed(*value),
            final(self).wf(),
            final(self)@ == without(old(self)@, *value),
            removed == find(old(self)@, *value),
            final(self).root.shrunk_from(old(self).root),
    {
        self.root.remove(value)
    }

    /// Traverse the tree looking for a specific value: `down_callback`
    /// steers the descent, `up_callback` combines the results on the way
    /// back up.
    pub fn traverse<'a, F, G, R>(&'a self, down_callback: F, up_callback: G) -> (result: Option<
        R,
    >) where
        F: Fn(&'a T) -> TraverseStep<R> + Copy,
        G: Fn(&'a T, Option<R>) -> Option<R> + Copy,

        requires
            forall|t: &'a T| call_requires(down_callback, (t,)),
            forall|t: &'a T, sub: Option<R>| call_requires(up_callback, (t, sub)),
        ensures
            self.root.traversed(down_callback, up_callback, result),
    {
        self.root.traverse(down_callback, up_callback)
    }
}

} // verus!

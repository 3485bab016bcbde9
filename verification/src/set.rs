//! A sorted set on an AA tree.

use crate::node::traverse::{
    lemma_descent_at_or_after, lemma_descent_at_or_before, lemma_descent_find,
    lemma_descent_first, lemma_descent_last, TraverseStep,
};
use crate::iter::{AAIntoIter, AAIter};
use crate::node::{lemma_level_small, lemma_shape, AANode};
use crate::order::{
    above, ascending, below, find, first_not_below, holds, last_not_above, lemma_lookup_len,
    lemma_merged_len, merged, met, probe_order, strict_order, without,
};
use vstd::prelude::*;

verus! {

/// A set based on an AA tree. Its view is the sequence of its elements in
/// ascending order.
///
/// It is a logic error for an element to be modified in such a way that its
/// ordering relative to any other element changes while it is in the set.
pub struct AATreeSet<T> {
    root: AANode<T>,
    len: usize,
}

impl<T> View for AATreeSet<T> {
    type V = Seq<T>;

    closed spec fn view(&self) -> Seq<T> {
        self.root@
    }
}

impl<T: Clone> Clone for AATreeSet<T> {
    /// A set whose elements are clones of the elements of this set, each in
    /// its place.
    fn clone(&self) -> (copy: Self)
        ensures
            self.balanced() ==> copy.balanced(),
            copy@.len() == self@.len(),
            forall|i: int| 0 <= i < self@.len() ==> cloned(self@[i], #[trigger] copy@[i]),
    {
        let root = self.root.clone();
        proof {
            lemma_shape(self.root);
            lemma_shape(root);
        }
        Self { root, len: self.len }
    }
}

impl<T> Default for AATreeSet<T> {
    fn default() -> (set: Self)
        ensures
            set@ == Seq::<T>::empty(),
            set.balanced(),
    {
        Self::new()
    }
}

impl<T> AATreeSet<T> {
    /// The tree keeps the level rules of an AA tree, and the count is the
    /// number of elements.
    pub closed spec fn balanced(self) -> bool {
        self.root.balanced() && self.len == self.root@.len()
    }

    /// Construct a new, empty AA-Tree based set.
    pub fn new() -> (set: Self)
        ensures
            set@ == Seq::<T>::empty(),
            set.balanced(),
    {
        Self { root: AANode::new(), len: 0 }
    }

    /// Returns the number of elements in the set.
    pub fn len(&self) -> (len: usize)
        requires
            self.balanced(),
        ensures
            len == self@.len(),
    {
        self.len
    }

    /// Returns `true` if the set contains no elements.
    pub fn is_empty(&self) -> (empty: bool)
        requires
            self.balanced(),
        ensures
            empty == (self@.len() == 0),
    {
        self.len == 0
    }

    /// Creates a walker over this set that visits the values in ascending
    /// order.
    pub fn iter<'a>(&'a self) -> (iter: AAIter<'a, T, &'a T>)
        requires
            self.balanced(),
        ensures
            iter.wf(),
            iter.remaining() == self@,
    {
        AAIter::new(&self.root, self.len)
    }

    /// Turns this set into a walker that hands out the values in ascending
    /// order.
    pub fn into_iter(self) -> (iter: AAIntoIter<T, T>)
        requires
            self.balanced(),
        ensures
            iter.wf(),
            iter.remaining() == self@,
    {
        AAIntoIter::new(self.root, self.len)
    }
}

impl<T: PartialOrd> AATreeSet<T> {
    /// The set is valid: its elements ascend strictly, the tree keeps the
    /// level rules, and the count is right.
    pub open spec fn wf(self) -> bool {
        self.balanced() && ascending(self@)
    }

    /// Adds a value to the set.
    ///
    /// If the set did already contain an equivalent value, the entry is not
    /// updated, and `false` is returned.
    pub fn insert(&mut self, value: T) -> (inserted: bool)
        requires
            strict_order::<T>(),
            old(self).wf(),
            old(self)@.len() < usize::MAX,
        ensures
            final(self).wf(),
            final(self)@ == merged(old(self)@, value, false),
            inserted == (met(old(self)@, value) is None),
            final(self)@.len() == old(self)@.len() + if inserted {
                1int
            } else {
                0int
            },
    {
        proof {
            lemma_level_small(self.root);
            lemma_merged_len(self@, value, false);
        }
        let inserted = self.root.insert(value);
        if inserted {
            self.len += 1;
        }
        inserted
    }

    /// Returns the first/smallest element of the set.
    pub fn first<'a>(&'a self) -> (first: Option<&'a T>)
        ensures
            first == if self@.len() == 0 {
                None
            } else {
                Some(&self@.first())
            },
    {
        let down = |content: &'a T| -> (step: TraverseStep<&'a T>)
            ensures
                step is Left,
            { TraverseStep::Left };
        let up = |content: &'a T, sub: Option<&'a T>| -> (result: Option<&'a T>)
            ensures
                result == if sub is Some {
                    sub
                } else {
                    Some(content)
                },
            {
                match sub {
                    Some(found) => Some(found),
                    None => Some(content),
                }
            };
        let first = self.root.traverse(down, up);
        proof {
            lemma_descent_first(&self.root, down, up, first, |t: &'a T| t);
        }
        first
    }

    /// Returns the first/smallest element of the set.
    pub fn smallest<'a>(&'a self) -> (first: Option<&'a T>)
        ensures
            first == if self@.len() == 0 {
                None
            } else {
                Some(&self@.first())
            },
    {
        self.first()
    }

    /// Returns the last/largest element of the set.
    pub fn last<'a>(&'a self) -> (last: Option<&'a T>)
        ensures
            last == if self@.len() == 0 {
                None
            } else {
                Some(&self@.last())
            },
    {
        let down = |content: &'a T| -> (step: TraverseStep<&'a T>)
            ensures
                step is Right,
            { TraverseStep::Right };
        let up = |content: &'a T, sub: Option<&'a T>| -> (result: Option<&'a T>)
            ensures
                result == if sub is Some {
                    sub
                } else {
                    Some(content)
                },
            {
                match sub {
                    Some(found) => Some(found),
                    None => Some(content),
                }
            };
        let last = self.root.traverse(down, up);
        proof {
            lemma_descent_last(&self.root, down, up, last, |t: &'a T| t);
        }
        last
    }

    /// Returns the last/largest element of the set.
    pub fn largest<'a>(&'a self) -> (last: Option<&'a T>)
        ensures
            last == if self@.len() == 0 {
                None
            } else {
                Some(&self@.last())
            },
    {
        self.last()
    }

    /// Remove and return the first/smallest element of the set.
    pub fn pop_first(&mut self) -> (first: Option<T>)
        requires
            old(self).wf(),
        ensures
            final(self).wf(),
            match first {
                None => old(self)@.len() == 0 && final(self)@ == old(self)@,
                Some(value) => old(self)@.len() > 0 && value == old(self)@.first()
                    && final(self)@ == old(self)@.drop_first(),
            },
    {
        let first = self.root.remove_successor();
        if first.is_some() {
            self.len -= 1;
        }
        first
    }

    /// Remove and return the first/smallest element of the set.
    pub fn pop_smallest(&mut self) -> (first: Option<T>)
        requires
            old(self).wf(),
        ensures
            final(self).wf(),
            match first {
                None => old(self)@.len() == 0 && final(self)@ == old(self)@,
                Some(value) => old(self)@.len() > 0 && value == old(self)@.first()
                    && final(self)@ == old(self)@.drop_first(),
            },
    {
        self.pop_first()
    }

    /// Remove and return the last/largest element of the set.
    pub fn pop_last(&mut self) -> (last: Option<T>)
        requires
            old(self).wf(),
        ensures
            final(self).wf(),
            match last {
                None => old(self)@.len() == 0 && final(self)@ == old(self)@,
                Some(value) => old(self)@.len() > 0 && value == old(self)@.last()
                    && final(self)@ == old(self)@.drop_last(),
            },
    {
        let last = self.root.remove_predecessor();
        if last.is_some() {
            self.len -= 1;
        }
        last
    }

    /// Remove and return the last/largest element of the set.
    pub fn pop_largest(&mut self) -> (last: Option<T>)
        requires
            old(self).wf(),
        ensures
            final(self).wf(),
            match last {
                None => old(self)@.len() == 0 && final(self)@ == old(self)@,
                Some(value) => old(self)@.len() > 0 && value == old(self)@.last()
                    && final(self)@ == old(self)@.drop_last(),
            },
    {
        self.pop_last()
    }

    /// Returns `true` if the set contains an element equivalent to the
    /// given value.
    pub fn contains<'a, Q>(&'a self, value: &'a Q) -> (found: bool) where T: PartialOrd<Q>
        requires
            probe_order::<T, Q>(),
            self.wf(),
        ensures
            found == holds(self@, *value),
    {
        let down = |content: &'a T| -> (step: TraverseStep<()>)
            ensures
                step == if above(*content, *value) {
                    TraverseStep::<()>::Left
                } else if below(*content, *value) {
                    TraverseStep::Right
                } else {
                    TraverseStep::Value(Some(()))
                },
            {
                if *content > *value {
                    TraverseStep::Left
                } else if *content < *value {
                    TraverseStep::Right
                } else {
                    TraverseStep::Value(Some(()))
                }
            };
        let up = |content: &'a T, sub: Option<()>| -> (result: Option<()>)
            ensures
                result == sub,
            { sub };
        let found = self.root.traverse(down, up);
        proof {
            lemma_descent_find(&self.root, *value, down, up, found, |t: &'a T| ());
            lemma_lookup_len(self@, *value);
        }
        found.is_some()
    }

    /// Returns the first/smallest element of the set that is not below
    /// `value`.
    pub fn first_at_or_after<'a, Q>(&'a self, value: &'a Q) -> (found: Option<&'a T>) where
        T: PartialOrd<Q>,

        requires
            probe_order::<T, Q>(),
            self.wf(),
        ensures
            found == match first_not_below(self@, *value) {
                Some(element) => Some(&element),
                None => None,
            },
    {
        let down = |content: &'a T| -> (step: TraverseStep<&'a T>)
            ensures
                step == if above(*content, *value) {
                    TraverseStep::<&'a T>::Left
                } else if below(*content, *value) {
                    TraverseStep::Right
                } else {
                    TraverseStep::Value(Some(content))
                },
            {
                if *content > *value {
                    TraverseStep::Left
                } else if *content < *value {
                    TraverseStep::Right
                } else {
                    TraverseStep::Value(Some(content))
                }
            };
        let up = |content: &'a T, sub: Option<&'a T>| -> (result: Option<&'a T>)
            ensures
                result == if sub is None && above(*content, *value) {
                    Some(content)
                } else {
                    sub
                },
            {
                match sub {
                    None => if *content > *value {
                        Some(content)
                    } else {
                        None
                    },
                    Some(found) => Some(found),
                }
            };
        let found = self.root.traverse(down, up);
        proof {
            lemma_descent_at_or_after(&self.root, *value, down, up, found, |t: &'a T| t);
        }
        found
    }

    /// Returns the first/smallest element of the set that is not below
    /// `value`.
    pub fn smallest_geq_than<'a, Q>(&'a self, value: &'a Q) -> (found: Option<&'a T>) where
        T: PartialOrd<Q>,

        requires
            probe_order::<T, Q>(),
            self.wf(),
        ensures
            found == match first_not_below(self@, *value) {
                Some(element) => Some(&element),
                None => None,
            },
    {
        self.first_at_or_after(value)
    }

    /// Returns the last/largest element of the set that is not above
    /// `value`.
    pub fn last_at_or_before<'a, Q>(&'a self, value: &'a Q) -> (found: Option<&'a T>) where
        T: PartialOrd<Q>,

        requires
            probe_order::<T, Q>(),
            self.wf(),
        ensures
            found == match last_not_above(self@, *value) {
                Some(element) => Some(&element),
                None => None,
            },
    {
        let down = |content: &'a T| -> (step: TraverseStep<&'a T>)
            ensures
                step == if above(*content, *value) {
                    TraverseStep::<&'a T>::Left
                } else if below(*content, *value) {
                    TraverseStep::Right
                } else {
                    TraverseStep::Value(Some(content))
                },
            {
                if *content > *value {
                    TraverseStep::Left
                } else if *content < *value {
                    TraverseStep::Right
                } else {
                    TraverseStep::Value(Some(content))
                }
            };
        let up = |content: &'a T, sub: Option<&'a T>| -> (result: Option<&'a T>)
            ensures
                result == if sub is None && below(*content, *value) {
                    Some(content)
                } else {
                    sub
                },
            {
                match sub {
                    None => if *content < *value {
                        Some(content)
                    } else {
                        None
                    },
                    Some(found) => Some(found),
                }
            };
        let found = self.root.traverse(down, up);
        proof {
            lemma_descent_at_or_before(&self.root, *value, down, up, found, |t: &'a T| t);
        }
        found
    }

    /// Returns the last/largest element of the set that is not above
    /// `value`.
    pub fn largest_leq_than<'a, Q>(&'a self, value: &'a Q) -> (found: Option<&'a T>) where
        T: PartialOrd<Q>,

        requires
            probe_order::<T, Q>(),
            self.wf(),
        ensures
            found == match last_not_above(self@, *value) {
                Some(element) => Some(&element),
                None => None,
            },
    {
        self.last_at_or_before(value)
    }

    /// Removes the element equivalent to `x` from the set, and returns
    /// `true` if there was one.
    pub fn remove<Q>(&mut self, x: &Q) -> (removed: bool) where T: PartialOrd<Q>
        requires
            probe_order::<T, Q>(),
            old(self).wf(),
        ensures
            final(self).wf(),
            final(self)@ == without(old(self)@, *x),
            removed == holds(old(self)@, *x),
    {
        proof {
            lemma_lookup_len(self@, *x);
        }
        self.take(x).is_some()
    }

    /// Removes the element equivalent to `x` from the set, and returns it.
    pub fn take<Q>(&mut self, x: &Q) -> (taken: Option<T>) where T: PartialOrd<Q>
        requires
            probe_order::<T, Q>(),
            old(self).wf(),
        ensures
            final(self).wf(),
            final(self)@ == without(old(self)@, *x),
            taken == find(old(self)@, *x),
    {
        proof {
            lemma_lookup_len(self@, *x);
        }
        let taken = self.root.remove(x);
        if taken.is_some() {
            self.len -= 1;
        }
        taken
    }
}

} // verus!

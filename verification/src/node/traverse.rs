//! Guided descent: one walk down the tree, steered by a callback, with a
//! second callback that combines results on the way back up.

use super::{lemma_occupied, AANode};
use crate::order::{
    above, below, find, first_not_below, holds, last_not_above, lemma_ascending_parts,
    lemma_lookup_descends, lemma_nearest_descends, lemma_nearest_place_descends, lemma_place,
    lemma_place_descends, lemma_place_not_above, lemma_place_not_below, lemma_probe_sides, place,
    place_not_above, place_not_below, probe_order,
};
use vstd::prelude::*;

verus! {

/// What a descent does at a node: go on in a child, or stop with a result.
#[derive(Debug)]
pub enum TraverseStep<R> {
    Left,
    Right,
    Value(Option<R>),
}

impl<T> AANode<T> {
    /// `result` is a possible outcome of `traverse` on this tree: at each
    /// node the down callback names a step; a `Value` ends the descent and is
    /// the outcome at that node; otherwise the outcome is what the up
    /// callback makes of the payload and the outcome of the chosen child. The
    /// empty tree gives `None`.
    pub open spec fn traversed<'a, F, G, R>(&'a self, down: F, up: G, result: Option<R>) -> bool
        where
            F: Fn(&'a T) -> TraverseStep<R>,
            G: Fn(&'a T, Option<R>) -> Option<R>,
        decreases self,
    {
        match &self.0 {
            None => result is None,
            Some(node) => exists|step: TraverseStep<R>|
                #![trigger call_ensures(down, (&node.content,), step)]
                call_ensures(down, (&node.content,), step) && match step {
                    TraverseStep::Value(v) => result == v,
                    TraverseStep::Left => exists|sub: Option<R>|
                        #![trigger call_ensures(up, (&node.content, sub), result)]
                        node.left_child.traversed(down, up, sub) && call_ensures(
                            up,
                            (&node.content, sub),
                            result,
                        ),
                    TraverseStep::Right => exists|sub: Option<R>|
                        #![trigger call_ensures(up, (&node.content, sub), result)]
                        node.right_child.traversed(down, up, sub) && call_ensures(
                            up,
                            (&node.content, sub),
                            result,
                        ),
                },
        }
    }

    /// Traverse the tree looking for a specific value.
    ///
    /// `down_callback` is called for each node on the way down the tree. It
    /// is passed the payload of the current node and returns `Left` or
    /// `Right` to continue in that direction, or `Value` to stop, for example
    /// because a value was found.
    ///
    /// `up_callback` is called on the way back up with the payload of each
    /// node that was passed and the result so far: `None` where the descent
    /// ran off the tree, the result of the node below otherwise.
    pub fn traverse<'a, F, G, R>(&'a self, down_callback: F, up_callback: G) -> (result: Option<
        R,
    >) where
        F: Fn(&'a T) -> TraverseStep<R> + Copy,
        G: Fn(&'a T, Option<R>) -> Option<R> + Copy,

        requires
            forall|t: &'a T| call_requires(down_callback, (t,)),
            forall|t: &'a T, sub: Option<R>| call_requires(up_callback, (t, sub)),
        ensures
            self.traversed(down_callback, up_callback, result),
        decreases self,
    {
        match &self.0 {
            None => None,
            Some(node) => {
                let child = match down_callback(&node.content) {
                    TraverseStep::Left => &node.left_child,
                    TraverseStep::Right => &node.right_child,
                    TraverseStep::Value(v) => return v,
                };
                up_callback(&node.content, child.traverse(down_callback, up_callback))
            },
        }
    }
}

/// One turn of a cursor: to the left child or to the right child.
#[derive(Debug, PartialEq, Eq, Structural, Clone, Copy)]
pub enum Turn {
    Left,
    Right,
}

/// Why a cursor could not move: the child it was turned to is missing.
#[derive(Debug, PartialEq, Eq, Structural, Clone, Copy)]
pub enum TraverseError {
    /// There is no left child.
    Left,
    /// There is no right child.
    Right,
}

impl TraverseError {
    /// The text of the error: it names the side to which the cursor was
    /// turned.
    pub open spec fn text(self) -> Seq<char> {
        match self {
            TraverseError::Left => "Attempt to turn left but there is no such child"@,
            TraverseError::Right => "Attempt to turn right but there is no such child"@,
        }
    }

    /// The message of the error.
    pub fn message(&self) -> (message: String)
        ensures
            message@ == self.text(),
    {
        match self {
            TraverseError::Left => "Attempt to turn left but there is no such child".to_owned(),
            TraverseError::Right => "Attempt to turn right but there is no such child".to_owned(),
        }
    }
}

/// A cursor that stands on a node of a tree and gives out its payload for
/// change.
pub struct TraverseMut<'a, T> {
    pub node: &'a mut AANode<T>,
}

/// What stands on a node of a tree.
pub trait TraverseIfaceCommon<T> {
    /// The subtree under the cursor.
    spec fn tree(&self) -> AANode<T>;

    fn node(&self) -> (node: &AANode<T>)
        ensures
            *node == self.tree(),
    ;
}

/// Looking at the node that a cursor stands on, and at its children.
pub trait TraverseIface<T>: TraverseIfaceCommon<T> {
    /// Return if this node is a leaf (i.e. it is not nil and has no
    /// children).
    fn is_leaf(&self) -> (leaf: bool)
        ensures
            leaf == (self.tree().0 is Some && self.tree().left().0 is None
                && self.tree().right().0 is None),
    ;

    /// Peek the content of this node. The cursor must not stand on the
    /// empty tree.
    fn peek(&self) -> (content: &T)
        requires
            self.tree().0 is Some,
        ensures
            *content == self.tree().0->0.content,
    ;

    /// Return if this node has a left child.
    fn has_left_child(&self) -> (has: bool)
        ensures
            has == (self.tree().left().0 is Some),
    ;

    /// Peek the content of the left child.
    fn peek_left_child(&self) -> (content: Option<&T>)
        ensures
            content == match self.tree().left().0 {
                None => None::<&T>,
                Some(left) => Some(&left.content),
            },
    ;

    /// Return if this node has a right child.
    fn has_right_child(&self) -> (has: bool)
        ensures
            has == (self.tree().right().0 is Some),
    ;

    /// Peek the content of the right child.
    fn peek_right_child(&self) -> (content: Option<&T>)
        ensures
            content == match self.tree().right().0 {
                None => None::<&T>,
                Some(right) => Some(&right.content),
            },
    ;
}

impl<T, I: TraverseIfaceCommon<T>> TraverseIface<T> for I {
    fn is_leaf(&self) -> (leaf: bool) {
        self.node().is_leaf()
    }

    fn peek(&self) -> (content: &T) {
        match &self.node().0 {
            None => vstd::pervasive::unreached(),
            Some(node) => &node.content,
        }
    }

    fn has_left_child(&self) -> (has: bool) {
        self.node().has_left_child()
    }

    fn peek_left_child(&self) -> (content: Option<&T>) {
        match &self.node().0 {
            None => None,
            Some(node) => match &node.left_child.0 {
                None => None,
                Some(left) => Some(&left.content),
            },
        }
    }

    fn has_right_child(&self) -> (has: bool) {
        self.node().has_right_child()
    }

    fn peek_right_child(&self) -> (content: Option<&T>) {
        match &self.node().0 {
            None => None,
            Some(node) => match &node.right_child.0 {
                None => None,
                Some(right) => Some(&right.content),
            },
        }
    }
}

impl<'a, T> TraverseIfaceCommon<T> for TraverseMut<'a, T> {
    open spec fn tree(&self) -> AANode<T> {
        *self.node
    }

    fn node(&self) -> (node: &AANode<T>) {
        self.node
    }
}

impl<'a, T> TraverseMut<'a, T> {
    /// Return the content of this node. The cursor must not stand on the
    /// empty tree.
    pub fn into_content(self) -> (content: &'a mut T)
        requires
            old(self.node).0 is Some,
        ensures
            *content == old(self.node).0->0.content,
            *final(self.node) == old(self.node).with_content_at(
                old(self.node).left()@.len() as int,
                *final(content),
            ),
    {
        match &mut self.node.0 {
            None => vstd::pervasive::unreached(),
            Some(node) => &mut node.content,
        }
    }

    /// Continue with the left child of the current node.
    pub fn turn_left(self) -> (turned: Result<Self, TraverseError>)
        ensures
            match turned {
                Ok(next) => {
                    &&& old(self.node).left().0 is Some
                    &&& *next.node == old(self.node).left()
                    &&& final(self.node).0 is Some
                    &&& final(self.node).left() == *final(next.node)
                    &&& final(self.node).right() == old(self.node).right()
                    &&& final(self.node).lvl() == old(self.node).lvl()
                    &&& final(self.node).0->0.content == old(self.node).0->0.content
                },
                Err(error) => {
                    &&& old(self.node).left().0 is None
                    &&& error == TraverseError::Left
                    &&& *final(self.node) == *old(self.node)
                },
            },
    {
        match &mut self.node.0 {
            None => Err(TraverseError::Left),
            Some(node) => {
                if node.left_child.is_nil() {
                    Err(TraverseError::Left)
                } else {
                    Ok(TraverseMut { node: &mut node.left_child })
                }
            },
        }
    }

    /// Continue with the right child of the current node.
    pub fn turn_right(self) -> (turned: Result<Self, TraverseError>)
        ensures
            match turned {
                Ok(next) => {
                    &&& old(self.node).right().0 is Some
                    &&& *next.node == old(self.node).right()
                    &&& final(self.node).0 is Some
                    &&& final(self.node).right() == *final(next.node)
                    &&& final(self.node).left() == old(self.node).left()
                    &&& final(self.node).lvl() == old(self.node).lvl()
                    &&& final(self.node).0->0.content == old(self.node).0->0.content
                },
                Err(error) => {
                    &&& old(self.node).right().0 is None
                    &&& error == TraverseError::Right
                    &&& *final(self.node) == *old(self.node)
                },
            },
    {
        match &mut self.node.0 {
            None => Err(TraverseError::Right),
            Some(node) => {
                if node.right_child.is_nil() {
                    Err(TraverseError::Right)
                } else {
                    Ok(TraverseMut { node: &mut node.right_child })
                }
            },
        }
    }

    /// Go down to the payload equivalent to `value`, turning left at
    /// payloads above it and right at payloads below it.
    pub fn into_found<Q>(self, value: &Q) -> (found: Option<&'a mut T>) where
        T: PartialOrd<Q> + PartialOrd,

        requires
            probe_order::<T, Q>(),
            old(self.node).ordered(),
        ensures
            match found {
                None => !holds(old(self.node)@, *value) && *final(self.node) == *old(self.node),
                Some(content) => {
                    let i = place(old(self.node)@, *value);
                    &&& 0 <= i < old(self.node)@.len()
                    &&& *content == old(self.node)@[i]
                    &&& *final(self.node) == old(self.node).with_content_at(i, *final(content))
                },
            },
        decreases *old(self.node),
    {
        proof {
            lemma_occupied(*old(self.node));
            lemma_place(old(self.node)@, *value);
        }
        if self.node.is_nil() {
            return None;
        }
        proof {
            let before = *old(self.node);
            lemma_ascending_parts(before.left()@, before.0->0.content, before.right()@);
            lemma_place_descends(before.left()@, before.0->0.content, before.right()@, *value);
            lemma_probe_sides(before.left()@, before.0->0.content, before.right()@, *value);
            lemma_occupied(before.left());
            lemma_occupied(before.right());
            lemma_place(before.left()@, *value);
            lemma_place(before.right()@, *value);
        }
        if *self.peek() > *value {
            match self.turn_left() {
                Err(_) => None,
                Ok(next) => next.into_found(value),
            }
        } else if *self.peek() < *value {
            match self.turn_right() {
                Err(_) => None,
                Ok(next) => {
                    let found = next.into_found(value);
                    proof {
                        let before = *old(self.node);
                        let l = before.left()@;
                        let r = before.right()@;
                        assert(before@ == l.push(before.0->0.content) + r);
                        if holds(r, *value) {
                            let i = place(r, *value);
                            assert(before@[l.len() + 1 + i] == r[i]);
                        }
                    }
                    found
                },
            }
        } else {
            Some(self.into_content())
        }
    }

    /// Take the turns of `turns` from the node under the cursor, the last of
    /// them first, and return the payload that is reached; `None` where a
    /// turn goes to a child that is not there, or the cursor stands on the
    /// empty tree.
    pub fn follow(self, turns: Vec<Turn>) -> (found: Option<&'a mut T>)
        ensures
            match found {
                None => old(self.node).led(turns@) is None && *final(self.node) == *old(
                    self.node,
                ),
                Some(content) => {
                    let i = old(self.node).led(turns@)->0;
                    &&& old(self.node).led(turns@) is Some
                    &&& 0 <= i < old(self.node)@.len()
                    &&& *content == old(self.node)@[i]
                    &&& *final(self.node) == old(self.node).with_content_at(i, *final(content))
                },
            },
        decreases turns@.len(),
    {
        proof {
            let before = *old(self.node);
            lemma_occupied(before);
            lemma_occupied(before.left());
            lemma_occupied(before.right());
        }
        let mut turns = turns;
        let ghost all = turns@;
        match turns.pop() {
            None => {
                if self.node.is_nil() {
                    None
                } else {
                    Some(self.into_content())
                }
            },
            Some(Turn::Left) => {
                assert(turns@ =~= all.drop_last());
                match self.turn_left() {
                    Err(_) => None,
                    Ok(next) => {
                        let found = next.follow(turns);
                        proof {
                            if found is None {
                                assert(final(self.node).left() == old(self.node).left());
                                assert(*final(self.node) == *old(self.node));
                            }
                        }
                        found
                    },
                }
            },
            Some(Turn::Right) => {
                assert(turns@ =~= all.drop_last());
                match self.turn_right() {
                    Err(_) => None,
                    Ok(next) => {
                        let found = next.follow(turns);
                        proof {
                            let before = *old(self.node);
                            let l = before.left()@;
                            let r = before.right()@;
                            assert(before@ == l.push(before.0->0.content) + r);
                            if found is None {
                                assert(final(self.node).right() == old(self.node).right());
                                assert(*final(self.node) == *old(self.node));
                            } else {
                                let i = before.right().led(all.drop_last())->0;
                                assert(before@[l.len() + 1 + i] == r[i]);
                            }
                        }
                        found
                    },
                }
            },
        }
    }

    /// Go down to the first payload that is not below `value`: the way is
    /// looked up first, then the cursor takes it.
    pub fn into_at_or_after<Q>(self, value: &Q) -> (found: Option<&'a mut T>) where
        T: PartialOrd<Q> + PartialOrd,

        requires
            probe_order::<T, Q>(),
            old(self.node).ordered(),
        ensures
            match found {
                None => first_not_below(old(self.node)@, *value) is None && *final(self.node)
                    == *old(self.node),
                Some(content) => {
                    let i = place_not_below(old(self.node)@, *value);
                    &&& 0 <= i < old(self.node)@.len()
                    &&& first_not_below(old(self.node)@, *value) == Some(old(self.node)@[i])
                    &&& *content == old(self.node)@[i]
                    &&& *final(self.node) == old(self.node).with_content_at(i, *final(content))
                },
            },
    {
        match self.node().turns_at_or_after(value) {
            None => None,
            Some(turns) => self.follow(turns),
        }
    }

    /// Go down to the last payload that is not above `value`: the way is
    /// looked up first, then the cursor takes it.
    pub fn into_at_or_before<Q>(self, value: &Q) -> (found: Option<&'a mut T>) where
        T: PartialOrd<Q> + PartialOrd,

        requires
            probe_order::<T, Q>(),
            old(self.node).ordered(),
        ensures
            match found {
                None => last_not_above(old(self.node)@, *value) is None && *final(self.node)
                    == *old(self.node),
                Some(content) => {
                    let i = place_not_above(old(self.node)@, *value);
                    &&& 0 <= i < old(self.node)@.len()
                    &&& last_not_above(old(self.node)@, *value) == Some(old(self.node)@[i])
                    &&& *content == old(self.node)@[i]
                    &&& *final(self.node) == old(self.node).with_content_at(i, *final(content))
                },
            },
    {
        match self.node().turns_at_or_before(value) {
            None => None,
            Some(turns) => self.follow(turns),
        }
    }

    /// Go down to the last payload below the cursor by turning right until
    /// there is no right child.
    pub fn into_last(self) -> (content: &'a mut T)
        requires
            old(self.node).0 is Some,
        ensures
            *content == old(self.node)@.last(),
            *final(self.node) == old(self.node).with_content_at(
                old(self.node)@.len() - 1,
                *final(content),
            ),
        decreases *old(self.node),
    {
        proof {
            lemma_occupied(*old(self.node));
            lemma_occupied(old(self.node).right());
        }
        if self.has_right_child() {
            let next = self.turn_right().unwrap();
            let content = next.into_last();
            proof {
                let before = *old(self.node);
                let r = before.right()@;
                assert(before@ == before.left()@.push(before.0->0.content) + r);
                assert(before@.last() == r.last());
            }
            content
        } else {
            self.into_content()
        }
    }

    /// Go down to the first payload below the cursor by turning left until
    /// there is no left child.
    pub fn into_first(self) -> (content: &'a mut T)
        requires
            old(self.node).0 is Some,
        ensures
            *content == old(self.node)@.first(),
            *final(self.node) == old(self.node).with_content_at(0, *final(content)),
        decreases *old(self.node),
    {
        proof {
            lemma_occupied(*old(self.node));
            lemma_occupied(old(self.node).left());
        }
        if self.has_left_child() {
            let next = self.turn_left().unwrap();
            let content = next.into_first();
            proof {
                let before = *old(self.node);
                let l = before.left()@;
                assert(before@ == l.push(before.0->0.content) + before.right()@);
                assert(before@[0] == l[0]);
            }
            content
        } else {
            self.into_content()
        }
    }
}

impl<T> AANode<T> {
    /// The place of the payload at which a cursor stands after it has taken
    /// the turns of `turns` from the root, the last of them first; `None`
    /// where a turn goes to a child that is not there, or the tree is empty.
    pub open spec fn led(self, turns: Seq<Turn>) -> Option<int>
        decreases turns.len(),
    {
        match self.0 {
            None => None,
            Some(node) => if turns.len() == 0 {
                Some(node.left_child@.len() as int)
            } else {
                match turns.last() {
                    Turn::Left => node.left_child.led(turns.drop_last()),
                    Turn::Right => match node.right_child.led(turns.drop_last()) {
                        None => None,
                        Some(i) => Some(node.left_child@.len() + 1 + i),
                    },
                }
            },
        }
    }

    /// Traverse the tree, allowing for mutation of the nodes that are being
    /// traversed: a cursor on the root, or `None` for the empty tree.
    ///
    /// It is a logic error to mutate the nodes in a way that changes their
    /// order with respect to the other nodes in the tree.
    pub fn traverse_mut(&mut self) -> (cursor: Option<TraverseMut<'_, T>>)
        ensures
            match cursor {
                None => old(self).0 is None && final(self).0 is None,
                Some(at) => old(self).0 is Some && *at.node == *old(self) && *final(self)
                    == *final(at.node),
            },
    {
        if self.is_nil() {
            None
        } else {
            Some(TraverseMut { node: self })
        }
    }
}

/// What `traversed` says at an occupied root, with the step and the result
/// from below named.
pub proof fn lemma_traversed_step<'a, T, F, G, R>(
    tree: &'a AANode<T>,
    down: F,
    up: G,
    result: Option<R>,
) -> (taken: (TraverseStep<R>, Option<R>)) where
    F: Fn(&'a T) -> TraverseStep<R>,
    G: Fn(&'a T, Option<R>) -> Option<R>,

    requires
        tree.0 is Some,
        tree.traversed(down, up, result),
    ensures
        call_ensures(down, (&tree.0->0.content,), taken.0),
        match taken.0 {
            TraverseStep::Value(v) => result == v,
            TraverseStep::Left => tree.0->0.left_child.traversed(down, up, taken.1)
                && call_ensures(up, (&tree.0->0.content, taken.1), result),
            TraverseStep::Right => tree.0->0.right_child.traversed(down, up, taken.1)
                && call_ensures(up, (&tree.0->0.content, taken.1), result),
        },
{
    let node = tree.0->0;
    let step = choose|step: TraverseStep<R>|
        #![trigger call_ensures(down, (&node.content,), step)]
        call_ensures(down, (&node.content,), step) && match step {
            TraverseStep::Value(v) => result == v,
            TraverseStep::Left => exists|sub: Option<R>|
                #![trigger call_ensures(up, (&node.content, sub), result)]
                node.left_child.traversed(down, up, sub) && call_ensures(
                    up,
                    (&node.content, sub),
                    result,
                ),
            TraverseStep::Right => exists|sub: Option<R>|
                #![trigger call_ensures(up, (&node.content, sub), result)]
                node.right_child.traversed(down, up, sub) && call_ensures(
                    up,
                    (&node.content, sub),
                    result,
                ),
        };
    match step {
        TraverseStep::Value(v) => (step, None),
        TraverseStep::Left => {
            let sub = choose|sub: Option<R>|
                #![trigger call_ensures(up, (&node.content, sub), result)]
                node.left_child.traversed(down, up, sub) && call_ensures(
                    up,
                    (&node.content, sub),
                    result,
                );
            (step, sub)
        },
        TraverseStep::Right => {
            let sub = choose|sub: Option<R>|
                #![trigger call_ensures(up, (&node.content, sub), result)]
                node.right_child.traversed(down, up, sub) && call_ensures(
                    up,
                    (&node.content, sub),
                    result,
                );
            (step, sub)
        },
    }
}

/// A descent that always turns left, and keeps the result from below or
/// else takes the payload it stands on, ends with the first payload.
pub proof fn lemma_descent_first<'a, T, F, G, R>(
    tree: &'a AANode<T>,
    down: F,
    up: G,
    result: Option<R>,
    wrap: spec_fn(&'a T) -> R,
) where F: Fn(&'a T) -> TraverseStep<R>, G: Fn(&'a T, Option<R>) -> Option<R>
    requires
        tree.traversed(down, up, result),
        forall|t: &'a T, step: TraverseStep<R>|
            call_ensures(down, (t,), step) ==> step is Left,
        forall|t: &'a T, sub: Option<R>, r: Option<R>|
            call_ensures(up, (t, sub), r) ==> r == if sub is Some {
                sub
            } else {
                Some(wrap(t))
            },
    ensures
        result == if tree@.len() == 0 {
            None
        } else {
            Some(wrap(&tree@.first()))
        },
    decreases tree,
{
    if tree.0 is Some {
        let node = tree.0->0;
        let (step, sub) = lemma_traversed_step(tree, down, up, result);
        lemma_descent_first(&node.left_child, down, up, sub, wrap);
        let l = node.left_child@;
        assert(tree@ == l.push(node.content) + node.right_child@);
        if l.len() > 0 {
            assert(tree@[0] == l[0]);
        } else {
            assert(tree@[0] == node.content);
        }
    }
}

/// A descent that always turns right, and keeps the result from below or
/// else takes the payload it stands on, ends with the last payload.
pub proof fn lemma_descent_last<'a, T, F, G, R>(
    tree: &'a AANode<T>,
    down: F,
    up: G,
    result: Option<R>,
    wrap: spec_fn(&'a T) -> R,
) where F: Fn(&'a T) -> TraverseStep<R>, G: Fn(&'a T, Option<R>) -> Option<R>
    requires
        tree.traversed(down, up, result),
        forall|t: &'a T, step: TraverseStep<R>|
            call_ensures(down, (t,), step) ==> step is Right,
        forall|t: &'a T, sub: Option<R>, r: Option<R>|
            call_ensures(up, (t, sub), r) ==> r == if sub is Some {
                sub
            } else {
                Some(wrap(t))
            },
    ensures
        result == if tree@.len() == 0 {
            None
        } else {
            Some(wrap(&tree@.last()))
        },
    decreases tree,
{
    if tree.0 is Some {
        let node = tree.0->0;
        let (step, sub) = lemma_traversed_step(tree, down, up, result);
        lemma_descent_last(&node.right_child, down, up, sub, wrap);
        let r = node.right_child@;
        assert(tree@ == node.left_child@.push(node.content) + r);
        if r.len() > 0 {
            assert(tree@.last() == r.last());
        } else {
            assert(tree@.last() == node.content);
        }
    }
}

/// A descent that turns away from payloads above and below the probe, stops
/// at an equivalent one and hands the result up unchanged, ends with the
/// payload equivalent to the probe, if the tree holds one.
pub proof fn lemma_descent_find<'a, T, Q, F, G, R>(
    tree: &'a AANode<T>,
    q: Q,
    down: F,
    up: G,
    result: Option<R>,
    wrap: spec_fn(&'a T) -> R,
) where
    T: PartialOrd<Q> + PartialOrd,
    F: Fn(&'a T) -> TraverseStep<R>,
    G: Fn(&'a T, Option<R>) -> Option<R>,

    requires
        probe_order::<T, Q>(),
        tree.ordered(),
        tree.traversed(down, up, result),
        forall|t: &'a T, step: TraverseStep<R>|
            call_ensures(down, (t,), step) ==> step == if above(*t, q) {
                TraverseStep::Left
            } else if below(*t, q) {
                TraverseStep::Right
            } else {
                TraverseStep::Value(Some(wrap(t)))
            },
        forall|t: &'a T, sub: Option<R>, r: Option<R>| call_ensures(up, (t, sub), r) ==> r == sub,
    ensures
        result == match find(tree@, q) {
            Some(found) => Some(wrap(&found)),
            None => None,
        },
    decreases tree,
{
    if tree.0 is Some {
        let node = tree.0->0;
        let (step, sub) = lemma_traversed_step(tree, down, up, result);
        lemma_ascending_parts(node.left_child@, node.content, node.right_child@);
        lemma_lookup_descends(node.left_child@, node.content, node.right_child@, q);
        if above(node.content, q) {
            lemma_descent_find(&node.left_child, q, down, up, sub, wrap);
        } else if below(node.content, q) {
            lemma_descent_find(&node.right_child, q, down, up, sub, wrap);
        }
    }
}

/// A descent that turns away from payloads above and below the probe, stops
/// at an equivalent one and on the way up takes the first payload above the
/// probe where nothing came from below, ends with the first payload that is
/// not below the probe.
pub proof fn lemma_descent_at_or_after<'a, T, Q, F, G, R>(
    tree: &'a AANode<T>,
    q: Q,
    down: F,
    up: G,
    result: Option<R>,
    wrap: spec_fn(&'a T) -> R,
) where
    T: PartialOrd<Q> + PartialOrd,
    F: Fn(&'a T) -> TraverseStep<R>,
    G: Fn(&'a T, Option<R>) -> Option<R>,

    requires
        probe_order::<T, Q>(),
        tree.ordered(),
        tree.traversed(down, up, result),
        forall|t: &'a T, step: TraverseStep<R>|
            call_ensures(down, (t,), step) ==> step == if above(*t, q) {
                TraverseStep::Left
            } else if below(*t, q) {
                TraverseStep::Right
            } else {
                TraverseStep::Value(Some(wrap(t)))
            },
        forall|t: &'a T, sub: Option<R>, r: Option<R>|
            call_ensures(up, (t, sub), r) ==> r == if sub is None && above(*t, q) {
                Some(wrap(t))
            } else {
                sub
            },
    ensures
        result == match first_not_below(tree@, q) {
            Some(found) => Some(wrap(&found)),
            None => None,
        },
    decreases tree,
{
    if tree.0 is Some {
        let node = tree.0->0;
        let (step, sub) = lemma_traversed_step(tree, down, up, result);
        lemma_ascending_parts(node.left_child@, node.content, node.right_child@);
        lemma_nearest_descends(node.left_child@, node.content, node.right_child@, q);
        if above(node.content, q) {
            lemma_descent_at_or_after(&node.left_child, q, down, up, sub, wrap);
        } else if below(node.content, q) {
            lemma_descent_at_or_after(&node.right_child, q, down, up, sub, wrap);
        }
    }
}

/// A descent that turns away from payloads above and below the probe, stops
/// at an equivalent one and on the way up takes the first payload below the
/// probe where nothing came from below, ends with the last payload that is
/// not above the probe.
pub proof fn lemma_descent_at_or_before<'a, T, Q, F, G, R>(
    tree: &'a AANode<T>,
    q: Q,
    down: F,
    up: G,
    result: Option<R>,
    wrap: spec_fn(&'a T) -> R,
) where
    T: PartialOrd<Q> + PartialOrd,
    F: Fn(&'a T) -> TraverseStep<R>,
    G: Fn(&'a T, Option<R>) -> Option<R>,

    requires
        probe_order::<T, Q>(),
        tree.ordered(),
        tree.traversed(down, up, result),
        forall|t: &'a T, step: TraverseStep<R>|
            call_ensures(down, (t,), step) ==> step == if above(*t, q) {
                TraverseStep::Left
            } else if below(*t, q) {
                TraverseStep::Right
            } else {
                TraverseStep::Value(Some(wrap(t)))
            },
        forall|t: &'a T, sub: Option<R>, r: Option<R>|
            call_ensures(up, (t, sub), r) ==> r == if sub is None && below(*t, q) {
                Some(wrap(t))
            } else {
                sub
            },
    ensures
        result == match last_not_above(tree@, q) {
            Some(found) => Some(wrap(&found)),
            None => None,
        },
    decreases tree,
{
    if tree.0 is Some {
        let node = tree.0->0;
        let (step, sub) = lemma_traversed_step(tree, down, up, result);
        lemma_ascending_parts(node.left_child@, node.content, node.right_child@);
        lemma_nearest_descends(node.left_child@, node.content, node.right_child@, q);
        if above(node.content, q) {
            lemma_descent_at_or_before(&node.left_child, q, down, up, sub, wrap);
        } else if below(node.content, q) {
            lemma_descent_at_or_before(&node.right_child, q, down, up, sub, wrap);
        }
    }
}

impl<T> AANode<T> {
    /// The turns that lead from the root to the payload nearest to `value`:
    /// to the first payload that is not below it if `after` is set, to the
    /// last payload that is not above it otherwise. The last turn of the
    /// result is the first to take.
    fn turns_to_nearest<'a, Q>(&'a self, value: &Q, after: bool) -> (turns: Option<
        Vec<Turn>,
    >) where T: PartialOrd<Q> + PartialOrd
        requires
            probe_order::<T, Q>(),
            self.ordered(),
        ensures
            match turns {
                None => if after {
                    place_not_below(self@, *value) == self@.len()
                } else {
                    place_not_above(self@, *value) == -1
                },
                Some(way) => {
                    let i = if after {
                        place_not_below(self@, *value)
                    } else {
                        place_not_above(self@, *value)
                    };
                    0 <= i < self@.len() && self.led(way@) == Some(i)
                },
            },
    {
        let down = |content: &'a T| -> (step: TraverseStep<Vec<Turn>>)
            ensures
                if above(*content, *value) {
                    step is Left
                } else if below(*content, *value) {
                    step is Right
                } else {
                    step matches TraverseStep::Value(Some(way)) && way@.len() == 0
                },
            {
                if *content > *value {
                    TraverseStep::Left
                } else if *content < *value {
                    TraverseStep::Right
                } else {
                    TraverseStep::Value(Some(Vec::new()))
                }
            };
        let up = |content: &'a T, sub: Option<Vec<Turn>>| -> (result: Option<Vec<Turn>>)
            ensures
                match sub {
                    Some(below_way) => result matches Some(way) && way@ == below_way@.push(
                        if above(*content, *value) {
                            Turn::Left
                        } else {
                            Turn::Right
                        },
                    ),
                    None => if (after && above(*content, *value)) || (!after && below(
                        *content,
                        *value,
                    )) {
                        result matches Some(way) && way@.len() == 0
                    } else {
                        result is None
                    },
                },
            {
                match sub {
                    Some(way) => {
                        let mut way = way;
                        if *content > *value {
                            way.push(Turn::Left);
                        } else {
                            way.push(Turn::Right);
                        }
                        Some(way)
                    },
                    None => {
                        let here = if after {
                            *content > *value
                        } else {
                            *content < *value
                        };
                        if here {
                            Some(Vec::new())
                        } else {
                            None
                        }
                    },
                }
            };
        let turns = self.traverse(down, up);
        proof {
            lemma_descent_turns(self, *value, after, down, up, turns);
        }
        turns
    }

    /// The turns that lead from the root to the first payload that is not
    /// below `value`, the last turn of the result first; `None` if every
    /// payload is below `value`.
    pub fn turns_at_or_after<Q>(&self, value: &Q) -> (turns: Option<Vec<Turn>>) where
        T: PartialOrd<Q> + PartialOrd,

        requires
            probe_order::<T, Q>(),
            self.ordered(),
        ensures
            match turns {
                None => first_not_below(self@, *value) is None,
                Some(way) => {
                    let i = place_not_below(self@, *value);
                    &&& 0 <= i < self@.len()
                    &&& first_not_below(self@, *value) == Some(self@[i])
                    &&& self.led(way@) == Some(i)
                },
            },
    {
        proof {
            lemma_place_not_below(self@, Seq::<T>::empty(), *value);
        }
        self.turns_to_nearest(value, true)
    }

    /// The turns that lead from the root to the last payload that is not
    /// above `value`, the last turn of the result first; `None` if every
    /// payload is above `value`.
    pub fn turns_at_or_before<Q>(&self, value: &Q) -> (turns: Option<Vec<Turn>>) where
        T: PartialOrd<Q> + PartialOrd,

        requires
            probe_order::<T, Q>(),
            self.ordered(),
        ensures
            match turns {
                None => last_not_above(self@, *value) is None,
                Some(way) => {
                    let i = place_not_above(self@, *value);
                    &&& 0 <= i < self@.len()
                    &&& last_not_above(self@, *value) == Some(self@[i])
                    &&& self.led(way@) == Some(i)
                },
            },
    {
        proof {
            lemma_place_not_above(Seq::<T>::empty(), self@, *value);
        }
        self.turns_to_nearest(value, false)
    }
}

/// A descent that turns away from payloads above and below the probe, stops
/// at an equivalent one with no turns, and on the way up notes the turn it
/// took, or starts with no turns at the first payload on the near side of
/// the probe where nothing came from below, ends with the turns that lead to
/// the payload nearest to the probe.
pub proof fn lemma_descent_turns<'a, T, Q, F, G>(
    tree: &'a AANode<T>,
    q: Q,
    after: bool,
    down: F,
    up: G,
    result: Option<Vec<Turn>>,
) where
    T: PartialOrd<Q> + PartialOrd,
    F: Fn(&'a T) -> TraverseStep<Vec<Turn>>,
    G: Fn(&'a T, Option<Vec<Turn>>) -> Option<Vec<Turn>>,

    requires
        probe_order::<T, Q>(),
        tree.ordered(),
        tree.traversed(down, up, result),
        forall|t: &'a T, step: TraverseStep<Vec<Turn>>|
            call_ensures(down, (t,), step) ==> if above(*t, q) {
                step is Left
            } else if below(*t, q) {
                step is Right
            } else {
                step matches TraverseStep::Value(Some(way)) && way@.len() == 0
            },
        forall|t: &'a T, sub: Option<Vec<Turn>>, r: Option<Vec<Turn>>|
            call_ensures(up, (t, sub), r) ==> match sub {
                Some(below_way) => r matches Some(way) && way@ == below_way@.push(
                    if above(*t, q) {
                        Turn::Left
                    } else {
                        Turn::Right
                    },
                ),
                None => if (after && above(*t, q)) || (!after && below(*t, q)) {
                    r matches Some(way) && way@.len() == 0
                } else {
                    r is None
                },
            },
    ensures
        match result {
            None => if after {
                place_not_below(tree@, q) == tree@.len()
            } else {
                place_not_above(tree@, q) == -1
            },
            Some(way) => {
                let i = if after {
                    place_not_below(tree@, q)
                } else {
                    place_not_above(tree@, q)
                };
                0 <= i < tree@.len() && tree.led(way@) == Some(i)
            },
        },
    decreases tree,
{
    if tree.0 is Some {
        let node = tree.0->0;
        let l = node.left_child@;
        let r = node.right_child@;
        let (step, sub) = lemma_traversed_step(tree, down, up, result);
        lemma_ascending_parts(l, node.content, r);
        lemma_nearest_place_descends(l, node.content, r, q);
        assert(tree@ == l.push(node.content) + r);
        if above(node.content, q) {
            lemma_descent_turns(&node.left_child, q, after, down, up, sub);
        } else if below(node.content, q) {
            lemma_descent_turns(&node.right_child, q, after, down, up, sub);
        }
        if step !is Value && sub is Some {
            let way = result->0@;
            assert(way.drop_last() =~= sub->0@);
        }
    }
}

} // verus!

//! Walking a tree in order, one payload at a time.
//!
//! Both walkers keep a stack of the subtrees that are still to be visited;
//! the payloads still to come are those of the subtrees on the stack, from
//! its top to its bottom.

use crate::node::{lemma_occupied, AANode, Node};
use core::marker::PhantomData;
use vstd::prelude::*;

verus! {

/// Lets a walker hand out something other than what the tree stores: a map
/// stores entries and hands out pairs.
pub trait IterContent<T>: Sized {
    /// What is handed out for this payload.
    spec fn item(self) -> T;

    fn content(self) -> (item: T)
        ensures
            item == self.item(),
    ;
}

impl<T> IterContent<T> for T {
    open spec fn item(self) -> T {
        self
    }

    fn content(self) -> (item: T) {
        self
    }
}

/// The length of the left spine of a tree.
pub open spec fn left_depth<C>(tree: AANode<C>) -> nat
    decreases tree,
{
    match tree.0 {
        None => 0,
        Some(node) => 1 + left_depth(node.left_child),
    }
}

/// The payloads of the subtrees on a stack, from its top to its bottom.
pub open spec fn pending<C>(stack: Seq<AANode<C>>) -> Seq<C>
    decreases stack.len(),
{
    if stack.len() == 0 {
        Seq::empty()
    } else {
        stack.last()@ + pending(stack.drop_last())
    }
}

/// How far a walk is from the next payload: the left spine on top of the
/// stack is still to be descended.
pub open spec fn descent_left<C>(stack: Seq<AANode<C>>) -> nat {
    if stack.len() == 0 {
        0
    } else {
        1 + left_depth(stack.last())
    }
}

/// Pushing a subtree puts its payloads first.
pub proof fn lemma_pending_push<C>(stack: Seq<AANode<C>>, top: AANode<C>)
    ensures
        pending(stack.push(top)) == top@ + pending(stack),
{
    assert(stack.push(top).drop_last() =~= stack);
}

/// The walker that an AA tree based collection turns into: it takes the
/// tree apart and hands out the payloads themselves.
pub struct AAIntoIter<C, T> {
    pub stack: Vec<AANode<C>>,
    pub len: usize,
    pub _ty: PhantomData<T>,
}

impl<C, T> AAIntoIter<C, T> {
    /// The payloads that are still to come, in the order in which they come.
    pub open spec fn remaining(self) -> Seq<C> {
        pending(self.stack@)
    }

    /// The count is the number of payloads still to come, and only the
    /// bottom of the stack may be an empty tree.
    pub open spec fn wf(self) -> bool {
        &&& self.len == self.remaining().len()
        &&& forall|i: int| 1 <= i < self.stack@.len() ==> (#[trigger] self.stack@[i]).0 is Some
    }

    /// A walker over the tree `root`, which holds `len` payloads.
    pub fn new(root: AANode<C>, len: usize) -> (iter: Self)
        requires
            len == root@.len(),
        ensures
            iter.wf(),
            iter.remaining() == root@,
    {
        let mut stack = Vec::with_capacity(root.level() as usize * 2 + 1);
        stack.push(root);
        proof {
            lemma_pending_push(Seq::<AANode<C>>::empty(), root);
        }
        Self { stack, len, _ty: PhantomData }
    }

    /// The number of payloads still to come, as lower and upper bound.
    pub fn size_hint(&self) -> (hint: (usize, Option<usize>))
        ensures
            hint == (self.len, Some(self.len)),
    {
        (self.len, Some(self.len))
    }
}

impl<C: IterContent<T>, T> AAIntoIter<C, T> {
    /// Hand out the next payload, or `None` when the walk is over.
    pub fn next(&mut self) -> (item: Option<T>)
        requires
            old(self).wf(),
        ensures
            final(self).wf(),
            match item {
                None => old(self).remaining().len() == 0 && final(self).remaining().len() == 0,
                Some(given) => old(self).remaining().len() > 0 && given == old(
                    self,
                ).remaining().first().item() && final(self).remaining() == old(
                    self,
                ).remaining().drop_first(),
            },
    {
        loop
            invariant
                self.wf(),
                self.remaining() == old(self).remaining(),
            ensures
                self.wf(),
                self.remaining() == old(self).remaining(),
                self.stack@.len() > 0,
                self.stack@.last().0 is Some,
                self.stack@.last().left().0 is None,
            decreases descent_left(self.stack@),
        {
            let ghost before = self.stack@;
            let last = match self.stack.pop() {
                Some(last) => last,
                None => {
                    return None;
                },
            };
            let ghost rest = self.stack@;
            proof {
                assert(before =~= rest.push(last));
                lemma_pending_push(rest, last);
                lemma_occupied(last);
            }
            match last.unbox() {
                None => {
                    proof {
                        assert(rest.len() == 0) by {
                            if rest.len() > 0 {
                                assert(before[rest.len() as int].0 is Some);
                            }
                        }
                        assert(last@ + pending(rest) =~= pending(rest));
                    }
                },
                Some(node) => {
                    let Node { level, content, left_child, right_child } = node;
                    let stump = AANode(
                        Some(
                            Box::new(
                                Node { level, content, left_child: AANode::new(), right_child },
                            ),
                        ),
                    );
                    let ghost low = stump;
                    self.stack.push(stump);
                    proof {
                        lemma_pending_push(rest, low);
                        assert(low.left()@ =~= Seq::<C>::empty());
                        assert(low@ == low.left()@.push(content) + right_child@);
                        assert(low@ =~= seq![content] + right_child@);
                        assert(last@ == left_child@.push(content) + right_child@);
                        lemma_occupied(left_child);
                    }
                    if !left_child.is_nil() {
                        let ghost left = left_child;
                        self.stack.push(left_child);
                        proof {
                            lemma_pending_push(rest.push(low), left);
                            assert(left@ + (low@ + pending(rest)) =~= last@ + pending(rest));
                        }
                    } else {
                        proof {
                            assert(low@ + pending(rest) =~= last@ + pending(rest));
                        }
                        break ;
                    }
                },
            }
        }
        let ghost before = self.stack@;
        let last = match self.stack.pop() {
            Some(last) => last,
            None => {
                return None;
            },
        };
        let ghost rest = self.stack@;
        proof {
            assert(before =~= rest.push(last));
            lemma_pending_push(rest, last);
            lemma_occupied(last);
            lemma_occupied(last.left());
        }
        match last.unbox() {
            None => None,
            Some(node) => {
                let Node { level, content, left_child, right_child } = node;
                proof {
                    assert(left_child@ =~= Seq::<C>::empty());
                    assert(last@ == left_child@.push(content) + right_child@);
                    assert(last@ =~= seq![content] + right_child@);
                    lemma_occupied(right_child);
                    assert((last@ + pending(rest)).drop_first() =~= right_child@ + pending(rest));
                }
                if !right_child.is_nil() {
                    let ghost right = right_child;
                    self.stack.push(right_child);
                    proof {
                        lemma_pending_push(rest, right);
                    }
                } else {
                    proof {
                        assert(right_child@ + pending(rest) =~= pending(rest));
                    }
                }
                self.len -= 1;
                Some(content.content())
            },
        }
    }
}

/// What a stack entry of a borrowing walk still has to give: the whole
/// subtree, or its root and right subtree once the left subtree has been
/// visited.
pub open spec fn part<C>(entry: (bool, &AANode<C>)) -> Seq<C> {
    if entry.0 && entry.1.0 is Some {
        seq![entry.1.0->0.content] + entry.1.right()@
    } else {
        entry.1@
    }
}

/// The payloads that the entries on a stack still have to give, from its
/// top to its bottom.
pub open spec fn pending_parts<C>(stack: Seq<(bool, &AANode<C>)>) -> Seq<C>
    decreases stack.len(),
{
    if stack.len() == 0 {
        Seq::empty()
    } else {
        part(stack.last()) + pending_parts(stack.drop_last())
    }
}

/// How far a borrowing walk is from the next payload.
pub open spec fn descent_left_parts<C>(stack: Seq<(bool, &AANode<C>)>) -> nat {
    if stack.len() == 0 {
        0
    } else if stack.last().0 {
        1
    } else {
        2 + left_depth(*stack.last().1)
    }
}

/// Pushing an entry puts its payloads first.
pub proof fn lemma_pending_parts_push<C>(stack: Seq<(bool, &AANode<C>)>, top: (bool, &AANode<C>))
    ensures
        pending_parts(stack.push(top)) == part(top) + pending_parts(stack),
{
    assert(stack.push(top).drop_last() =~= stack);
}

/// The walker over a borrowed AA tree based collection: it hands out
/// references into the tree.
pub struct AAIter<'a, C, T> {
    pub stack: Vec<(bool, &'a AANode<C>)>,
    pub len: usize,
    pub _ty: PhantomData<T>,
}

impl<'a, C, T> AAIter<'a, C, T> {
    /// The payloads that are still to come, in the order in which they come.
    pub open spec fn remaining(self) -> Seq<C> {
        pending_parts(self.stack@)
    }

    /// The count is the number of payloads still to come, and only the
    /// bottom of the stack may be an empty tree.
    pub open spec fn wf(self) -> bool {
        &&& self.len == self.remaining().len()
        &&& forall|i: int| 1 <= i < self.stack@.len() ==> (#[trigger] self.stack@[i]).1.0 is Some
    }

    /// A walker over the tree `root`, which holds `len` payloads.
    pub fn new(root: &'a AANode<C>, len: usize) -> (iter: Self)
        requires
            len == root@.len(),
        ensures
            iter.wf(),
            iter.remaining() == root@,
    {
        let mut stack = Vec::with_capacity(root.level() as usize * 2 + 1);
        stack.push((false, root));
        proof {
            lemma_pending_parts_push(Seq::<(bool, &AANode<C>)>::empty(), (false, root));
        }
        Self { stack, len, _ty: PhantomData }
    }

    /// The number of payloads still to come, as lower and upper bound.
    pub fn size_hint(&self) -> (hint: (usize, Option<usize>))
        ensures
            hint == (self.len, Some(self.len)),
    {
        (self.len, Some(self.len))
    }
}

impl<'a, C, T> AAIter<'a, C, T> where &'a C: IterContent<T> {
    /// Hand out the next payload, or `None` when the walk is over.
    pub fn next(&mut self) -> (item: Option<T>)
        requires
            old(self).wf(),
        ensures
            final(self).wf(),
            match item {
                None => old(self).remaining().len() == 0 && final(self).remaining().len() == 0,
                Some(given) => old(self).remaining().len() > 0 && given == (&old(
                    self,
                ).remaining().first()).item() && final(self).remaining() == old(
                    self,
                ).remaining().drop_first(),
            },
    {
        loop
            invariant
                self.wf(),
                self.remaining() == old(self).remaining(),
            ensures
                self.wf(),
                self.remaining() == old(self).remaining(),
                self.stack@.len() > 0,
                self.stack@.last().0,
                self.stack@.last().1.0 is Some,
            decreases descent_left_parts(self.stack@),
        {
            let ghost before = self.stack@;
            let (visited_left, last) = match self.stack.pop() {
                Some(entry) => entry,
                None => {
                    return None;
                },
            };
            let ghost rest = self.stack@;
            proof {
                assert(before =~= rest.push((visited_left, last)));
                lemma_pending_parts_push(rest, (visited_left, last));
                lemma_occupied(*last);
            }
            match &last.0 {
                None => {
                    proof {
                        assert(rest.len() == 0) by {
                            if rest.len() > 0 {
                                assert(before[rest.len() as int].1.0 is Some);
                            }
                        }
                        assert(last@ + pending_parts(rest) =~= pending_parts(rest));
                    }
                },
                Some(node) => {
                    self.stack.push((true, last));
                    proof {
                        lemma_pending_parts_push(rest, (true, last));
                        assert(last@ == node.left_child@.push(node.content) + node.right_child@);
                        lemma_occupied(node.left_child);
                    }
                    if !visited_left && !node.left_child.is_nil() {
                        self.stack.push((false, &node.left_child));
                        proof {
                            lemma_pending_parts_push(
                                rest.push((true, last)),
                                (false, &node.left_child),
                            );
                            assert(node.left_child@ + (part((true, last)) + pending_parts(rest))
                                =~= last@ + pending_parts(rest));
                        }
                    } else {
                        proof {
                            if !visited_left {
                                assert(node.left_child@ =~= Seq::<C>::empty());
                                assert(part((true, last)) =~= last@);
                            }
                        }
                        break ;
                    }
                },
            }
        }
        let ghost before = self.stack@;
        let (_, last) = match self.stack.pop() {
            Some(entry) => entry,
            None => {
                return None;
            },
        };
        let ghost rest = self.stack@;
        proof {
            assert(before =~= rest.push((true, last)));
            lemma_pending_parts_push(rest, (true, last));
        }
        match &last.0 {
            None => None,
            Some(node) => {
                proof {
                    lemma_occupied(node.right_child);
                    assert((part((true, last)) + pending_parts(rest)).drop_first()
                        =~= node.right_child@ + pending_parts(rest));
                }
                if !node.right_child.is_nil() {
                    self.stack.push((false, &node.right_child));
                    proof {
                        lemma_pending_parts_push(rest, (false, &node.right_child));
                    }
                } else {
                    proof {
                        assert(node.right_child@ + pending_parts(rest) =~= pending_parts(rest));
                    }
                }
                self.len -= 1;
                Some((&node.content).content())
            },
        }
    }
}

} // verus!

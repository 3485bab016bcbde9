//! The tree itself: node representation, levels, and the two rebalancing
//! rewrites.

use vstd::prelude::*;
use crate::order::ascending;
use vstd::arithmetic::power2::{lemma2_to64, lemma_pow2_strictly_increases, lemma_pow2_unfold, pow2};

pub mod bulk;
pub mod insert;
pub mod remove;
pub mod traverse;

verus! {

/// A possibly empty subtree.
#[derive(Debug, PartialEq)]
pub struct AANode<T>(pub Option<Box<Node<T>>>);

/// An occupied position of the tree.
#[derive(Debug, PartialEq)]
pub struct Node<T> {
    pub level: u8,
    pub content: T,
    pub left_child: AANode<T>,
    pub right_child: AANode<T>,
}

impl<T> View for AANode<T> {
    type V = Seq<T>;

    /// The payloads of the subtree, read left to right.
    open spec fn view(&self) -> Seq<T>
        decreases self,
    {
        match self.0 {
            None => Seq::empty(),
            Some(node) => node.left_child.view().push(node.content) + node.right_child.view(),
        }
    }
}

impl<T: Clone> Clone for AANode<T> {
    /// A tree of the same shape whose payloads are clones of the payloads of
    /// this tree, each in its place.
    fn clone(&self) -> (copy: Self)
        ensures
            copy.shape() == self.shape(),
            copy@.len() == self@.len(),
            forall|i: int| 0 <= i < self@.len() ==> cloned(self@[i], #[trigger] copy@[i]),
        decreases self,
    {
        match &self.0 {
            None => AANode(None),
            Some(node) => {
                let left_child = node.left_child.clone();
                let content = node.content.clone();
                let right_child = node.right_child.clone();
                let copy = AANode(
                    Some(Box::new(Node { level: node.level, content, left_child, right_child })),
                );
                proof {
                    let l = node.left_child@;
                    let r = node.right_child@;
                    assert(self@ == l.push(node.content) + r);
                    assert(copy@ == left_child@.push(content) + right_child@);
                    assert forall|i: int| 0 <= i < self@.len() implies cloned(
                        self@[i],
                        #[trigger] copy@[i],
                    ) by {
                        if i < l.len() {
                            assert(copy@[i] == left_child@[i]);
                        } else if i > l.len() {
                            assert(copy@[i] == right_child@[i - l.len() - 1]);
                        }
                    }
                }
                copy
            },
        }
    }
}

impl<T> vstd::std_specs::convert::FromSpecImpl<T> for AANode<T> {
    open spec fn obeys_from_spec() -> bool {
        true
    }

    open spec fn from_spec(content: T) -> Self {
        AANode(
            Some(
                Box::new(
                    Node { level: 1, content, left_child: AANode(None), right_child: AANode(None) },
                ),
            ),
        )
    }
}

impl<T> vstd::std_specs::convert::FromSpecImpl<Node<T>> for AANode<T> {
    open spec fn obeys_from_spec() -> bool {
        true
    }

    open spec fn from_spec(node: Node<T>) -> Self {
        AANode(Some(Box::new(node)))
    }
}

impl<T> From<Node<T>> for AANode<T> {
    /// The tree with `node` as its root.
    fn from(node: Node<T>) -> (tree: Self) {
        AANode(Some(Box::new(node)))
    }
}

impl<T> From<T> for AANode<T> {
    /// A tree of one leaf.
    fn from(content: T) -> (tree: Self) {
        AANode(
            Some(
                Box::new(
                    Node { level: 1, content, left_child: AANode(None), right_child: AANode(None) },
                ),
            ),
        )
    }
}

impl<T> AANode<T> {
    /// The level of the root of this subtree, 0 for the empty tree.
    pub open spec fn lvl(self) -> nat {
        match self.0 {
            None => 0,
            Some(node) => node.level as nat,
        }
    }

    /// The left subtree; the empty tree has an empty left subtree.
    pub open spec fn left(self) -> Self {
        match self.0 {
            None => AANode(None),
            Some(node) => node.left_child,
        }
    }

    /// The right subtree; the empty tree has an empty right subtree.
    pub open spec fn right(self) -> Self {
        match self.0 {
            None => AANode(None),
            Some(node) => node.right_child,
        }
    }

    /// The level rules of an AA tree hold throughout this subtree: a left
    /// child sits one level below its parent, a right child on the level of
    /// its parent or one below, and a right grandchild strictly below its
    /// grandparent. So a leaf has level 1, and every node above level 1 has
    /// two children.
    pub open spec fn balanced(self) -> bool
        decreases self,
    {
        match self.0 {
            None => true,
            Some(node) => {
                &&& node.left_child.balanced()
                &&& node.right_child.balanced()
                &&& node.level == node.left_child.lvl() + 1
                &&& (node.right_child.lvl() == node.level || node.right_child.lvl() + 1
                    == node.level)
                &&& node.right_child.right().lvl() < node.level
            },
        }
    }

    /// The tree with its payloads blanked: what is left is where the nodes are
    /// and which level each has.
    pub open spec fn shape(self) -> AANode<()>
        decreases self,
    {
        match self.0 {
            None => AANode(None),
            Some(node) => AANode(
                Some(
                    Box::new(
                        Node {
                            level: node.level,
                            content: (),
                            left_child: node.left_child.shape(),
                            right_child: node.right_child.shape(),
                        },
                    ),
                ),
            ),
        }
    }

    /// This tree with `content` in place of its `i`-th payload, counted from
    /// the left.
    pub open spec fn with_content_at(self, i: int, content: T) -> Self
        decreases self,
    {
        match self.0 {
            None => self,
            Some(node) => {
                let n = node.left_child@.len();
                AANode(
                    Some(
                        Box::new(
                            Node {
                                level: node.level,
                                content: if i == n {
                                    content
                                } else {
                                    node.content
                                },
                                left_child: if i < n {
                                    node.left_child.with_content_at(i, content)
                                } else {
                                    node.left_child
                                },
                                right_child: if i > n {
                                    node.right_child.with_content_at(i - n - 1, content)
                                } else {
                                    node.right_child
                                },
                            },
                        ),
                    ),
                )
            },
        }
    }

    /// This tree with the level of its root set to `level`.
    pub open spec fn with_level(self, level: u8) -> Self {
        match self.0 {
            None => self,
            Some(node) => AANode(
                Some(
                    Box::new(
                        Node {
                            level,
                            content: node.content,
                            left_child: node.left_child,
                            right_child: node.right_child,
                        },
                    ),
                ),
            ),
        }
    }

    /// This tree with `right` in place of its right subtree.
    pub open spec fn with_right(self, right: Self) -> Self {
        match self.0 {
            None => self,
            Some(node) => AANode(
                Some(
                    Box::new(
                        Node {
                            level: node.level,
                            content: node.content,
                            left_child: node.left_child,
                            right_child: right,
                        },
                    ),
                ),
            ),
        }
    }

    /// This tree with `left` in place of its left subtree.
    pub open spec fn with_left(self, left: Self) -> Self {
        match self.0 {
            None => self,
            Some(node) => AANode(
                Some(
                    Box::new(
                        Node {
                            level: node.level,
                            content: node.content,
                            left_child: left,
                            right_child: node.right_child,
                        },
                    ),
                ),
            ),
        }
    }

    /// This tree with `content` in place of the payload of its root.
    pub open spec fn with_content(self, content: T) -> Self {
        match self.0 {
            None => self,
            Some(node) => AANode(
                Some(
                    Box::new(
                        Node {
                            level: node.level,
                            content,
                            left_child: node.left_child,
                            right_child: node.right_child,
                        },
                    ),
                ),
            ),
        }
    }

    /// The tree of one leaf.
    pub open spec fn leaf(content: T) -> Self {
        AANode(
            Some(
                Box::new(
                    Node { level: 1, content, left_child: AANode(None), right_child: AANode(None) },
                ),
            ),
        )
    }

    /// The number of nodes on the longest path from the root down.
    pub open spec fn height(self) -> nat
        decreases self,
    {
        match self.0 {
            None => 0,
            Some(node) => {
                let l = node.left_child.height();
                let r = node.right_child.height();
                if l >= r {
                    l + 1
                } else {
                    r + 1
                }
            },
        }
    }

    /// Whether `skew` rewrites this tree: it has a left child on its own level.
    pub open spec fn skews(self) -> bool {
        self.0 is Some && self.left().0 is Some && self.left().lvl() == self.lvl()
    }

    /// The tree after `skew`: where it applies, the left child `L` becomes the
    /// root, the old root `S` becomes its right child, and the former right
    /// subtree of `L` becomes the left subtree of `S`. No level changes.
    pub open spec fn skewed(self) -> Self {
        if self.skews() {
            let s = self.0->0;
            let l = s.left_child.0->0;
            AANode(
                Some(
                    Box::new(
                        Node {
                            level: l.level,
                            content: l.content,
                            left_child: l.left_child,
                            right_child: AANode(
                                Some(
                                    Box::new(
                                        Node {
                                            level: s.level,
                                            content: s.content,
                                            left_child: l.right_child,
                                            right_child: s.right_child,
                                        },
                                    ),
                                ),
                            ),
                        },
                    ),
                ),
            )
        } else {
            self
        }
    }

    /// Remove a left child that sits on the level of its parent by rotating
    /// right.
    ///
    /// ```none
    ///   L <--- S           L ---> S
    ///  / \      \     =>  /      / \
    /// A   B      R       A      B   R
    /// ```
    pub fn skew(self) -> (tree: Self)
        ensures
            tree == self.skewed(),
    {
        let mut this = self;
        match &mut this.0 {
            None => this,
            Some(node) => {
                let b_node = match &mut node.left_child.0 {
                    Some(l) => {
                        if l.level == node.level {
                            l.right_child.take()
                        } else {
                            return this;
                        }
                    },
                    None => return this,
                };
                let mut l_node = b_node;
                std::mem::swap(&mut node.left_child, &mut l_node);
                match &mut l_node.0 {
                    Some(l) => {
                        l.right_child = this;
                    },
                    None => {},
                }
                l_node
            },
        }
    }

    /// Whether `split` rewrites this tree: it has a right child whose own
    /// right subtree sits on the level of this tree.
    pub open spec fn splits(self) -> bool {
        self.0 is Some && self.right().0 is Some && self.right().right().lvl() == self.lvl()
    }

    /// The tree after `split`: where it applies, the right child `R` becomes
    /// the root one level higher, the old root `S` becomes its left child, and
    /// the former left subtree of `R` becomes the right subtree of `S`.
    pub open spec fn splitted(self) -> Self {
        if self.splits() {
            let s = self.0->0;
            let r = s.right_child.0->0;
            AANode(
                Some(
                    Box::new(
                        Node {
                            level: (r.level + 1) as u8,
                            content: r.content,
                            left_child: AANode(
                                Some(
                                    Box::new(
                                        Node {
                                            level: s.level,
                                            content: s.content,
                                            left_child: s.left_child,
                                            right_child: r.left_child,
                                        },
                                    ),
                                ),
                            ),
                            right_child: r.right_child,
                        },
                    ),
                ),
            )
        } else {
            self
        }
    }

    /// Remove two consecutive right links on one level by rotating left and
    /// raising the new root by one level.
    ///
    /// ```none
    ///   S --> R --> X          R
    ///  /     /          =>    / \
    /// A     B                S   X
    ///                       / \
    ///                      A   B
    /// ```
    pub fn split(self) -> (tree: Self)
        requires
            self.splits() ==> self.right().lvl() < u8::MAX,
        ensures
            tree == self.splitted(),
    {
        let mut this = self;
        match &mut this.0 {
            None => this,
            Some(node) => {
                let b_node = match &mut node.right_child.0 {
                    Some(r) => {
                        if r.right_child.level() == node.level {
                            r.left_child.take()
                        } else {
                            return this;
                        }
                    },
                    None => return this,
                };
                let mut r_node = b_node;
                std::mem::swap(&mut node.right_child, &mut r_node);
                match &mut r_node.0 {
                    Some(r) => {
                        r.level = r.level + 1;
                        r.left_child = this;
                    },
                    None => {},
                }
                r_node
            },
        }
    }

    /// Move the tree out, leaving the empty tree behind.
    pub fn take(&mut self) -> (taken: Self)
        ensures
            taken == *old(self),
            final(self).0 is None,
    {
        AANode(self.0.take())
    }

    /// Take the root node out of its box.
    pub fn unbox(self) -> (node: Option<Node<T>>)
        ensures
            node == match self.0 {
                None => None::<Node<T>>,
                Some(boxed) => Some(*boxed),
            },
    {
        match self.0 {
            None => None,
            Some(boxed) => Some(*boxed),
        }
    }

    /// Set the level of the root. The tree must not be empty.
    pub fn set_level(&mut self, level: u8)
        requires
            old(self).0 is Some,
        ensures
            final(self).0 is Some,
            final(self).lvl() == level,
            final(self).left() == old(self).left(),
            final(self).right() == old(self).right(),
            final(self).0->0.content == old(self).0->0.content,
    {
        match &mut self.0 {
            None => {},
            Some(node) => {
                node.level = level;
            },
        }
    }

    /// Put `child` in place of the right subtree. The tree must not be
    /// empty.
    pub fn set_right_child(&mut self, child: Self)
        requires
            old(self).0 is Some,
        ensures
            final(self).0 is Some,
            final(self).right() == child,
            final(self).left() == old(self).left(),
            final(self).lvl() == old(self).lvl(),
            final(self).0->0.content == old(self).0->0.content,
    {
        match &mut self.0 {
            None => {},
            Some(node) => {
                node.right_child = child;
            },
        }
    }

    /// Create an empty tree.
    pub fn new() -> (tree: Self)
        ensures
            tree.0 is None,
    {
        AANode(None)
    }

    /// Return true if this tree is empty.
    pub fn is_nil(&self) -> (nil: bool)
        ensures
            nil == (self.0 is None),
    {
        self.0.is_none()
    }

    /// Return true if this node is a leaf: it is occupied and has no
    /// children.
    pub fn is_leaf(&self) -> (leaf: bool)
        ensures
            leaf == (self.0 is Some && self.left().0 is None && self.right().0 is None),
    {
        match &self.0 {
            None => false,
            Some(node) => node.left_child.is_nil() && node.right_child.is_nil(),
        }
    }

    /// Return true if this node has a left child.
    pub fn has_left_child(&self) -> (has: bool)
        ensures
            has == (self.left().0 is Some),
    {
        match &self.0 {
            None => false,
            Some(node) => !node.left_child.is_nil(),
        }
    }

    /// Return true if this node has a right child.
    pub fn has_right_child(&self) -> (has: bool)
        ensures
            has == (self.right().0 is Some),
    {
        match &self.0 {
            None => false,
            Some(node) => !node.right_child.is_nil(),
        }
    }

    /// The level of the root of this subtree, 0 for the empty tree.
    pub fn level(&self) -> (level: u8)
        ensures
            level == self.lvl(),
    {
        match &self.0 {
            None => 0,
            Some(node) => node.level,
        }
    }
}

impl<T: PartialOrd> AANode<T> {
    /// The payloads ascend strictly from left to right.
    pub open spec fn ordered(self) -> bool {
        ascending(self@)
    }

    /// The tree is a valid AA tree: a binary search tree that keeps the level
    /// rules.
    pub open spec fn wf(self) -> bool {
        self.ordered() && self.balanced()
    }
}

/// Level, size and balance of a tree are those of its shape.
pub proof fn lemma_shape<T>(tree: AANode<T>)
    ensures
        tree.shape().lvl() == tree.lvl(),
        tree.shape().0 is None <==> tree.0 is None,
        tree.shape().left() == tree.left().shape(),
        tree.shape().right() == tree.right().shape(),
        tree.shape()@.len() == tree@.len(),
        tree.shape().height() == tree.height(),
        tree.shape().balanced() == tree.balanced(),
    decreases tree,
{
    match tree.0 {
        None => {},
        Some(node) => {
            lemma_shape(node.left_child);
            lemma_shape(node.right_child);
        },
    }
}

/// A balanced tree is shallow: its height is at most twice the level of its
/// root, and a root on level `k` stands over at least `2^k - 1` payloads. So
/// a tree of `n` payloads is at most `2 * log2(n + 1)` high.
pub proof fn lemma_height_bound<T>(tree: AANode<T>)
    requires
        tree.balanced(),
    ensures
        tree.height() <= 2 * tree.lvl(),
        tree.right().lvl() < tree.lvl() ==> tree.height() + 1 <= 2 * tree.lvl(),
        pow2(tree.lvl()) <= tree@.len() + 1,
    decreases tree,
{
    match tree.0 {
        None => {
            lemma2_to64();
        },
        Some(node) => {
            lemma_height_bound(node.left_child);
            lemma_height_bound(node.right_child);
            lemma_pow2_unfold(tree.lvl());
            assert(tree@.len() == node.left_child@.len() + 1 + node.right_child@.len());
            if node.right_child.lvl() == tree.lvl() {
                lemma_pow2_unfold(node.right_child.lvl());
            }
        },
    }
}

/// A balanced tree whose payloads can be counted in a machine word has its
/// root on level 64 at most.
pub proof fn lemma_level_small<T>(tree: AANode<T>)
    requires
        tree.balanced(),
        tree@.len() <= usize::MAX,
    ensures
        tree.lvl() <= 64,
{
    lemma_height_bound(tree);
    lemma2_to64();
    if tree.lvl() > 64 {
        lemma_pow2_strictly_increases(64, tree.lvl());
    }
}

/// An occupied tree has a payload.
pub proof fn lemma_occupied<T>(tree: AANode<T>)
    ensures
        tree.0 is Some <==> tree@.len() > 0,
        tree.0 is Some ==> tree@.len() == tree.left()@.len() + 1 + tree.right()@.len(),
        tree.0 is Some ==> tree@[tree.left()@.len() as int] == tree.0->0.content,
{
    match tree.0 {
        None => {
            assert(tree@ =~= Seq::<T>::empty());
        },
        Some(node) => {
            assert(tree@ == node.left_child@.push(node.content) + node.right_child@);
        },
    }
}

/// Replacing a payload changes that payload and nothing else: not the shape
/// of the tree, and no other payload.
pub proof fn lemma_with_content_at<T>(tree: AANode<T>, i: int, content: T)
    requires
        0 <= i < tree@.len(),
    ensures
        tree.with_content_at(i, content)@ == tree@.update(i, content),
        tree.with_content_at(i, content).shape() == tree.shape(),
        tree.with_content_at(i, content).balanced() == tree.balanced(),
    decreases tree,
{
    match tree.0 {
        None => {},
        Some(node) => {
            let n = node.left_child@.len();
            let l = node.left_child@;
            let r = node.right_child@;
            let changed = tree.with_content_at(i, content);
            assert(tree@ == l.push(node.content) + r);
            if i < n {
                lemma_with_content_at(node.left_child, i, content);
                assert(changed@ == l.update(i, content).push(node.content) + r);
            } else if i > n {
                lemma_with_content_at(node.right_child, i - n - 1, content);
                assert(changed@ == l.push(node.content) + r.update(i - n - 1, content));
            } else {
                assert(changed@ == l.push(content) + r);
            }
            assert(changed@ =~= tree@.update(i, content));
            assert(changed.shape() == tree.shape());
            lemma_shape(tree);
            lemma_shape(changed);
        },
    }
}

/// `skew` keeps the payloads and their order.
pub proof fn lemma_skewed_view<T>(tree: AANode<T>)
    ensures
        tree.skewed()@ == tree@,
{
    if tree.skews() {
        let s = tree.0->0;
        let l = s.left_child.0->0;
        let a = l.left_child@;
        let b = l.right_child@;
        let r = s.right_child@;
        let inner = AANode(
            Some(
                Box::new(
                    Node {
                        level: s.level,
                        content: s.content,
                        left_child: l.right_child,
                        right_child: s.right_child,
                    },
                ),
            ),
        );
        assert(inner@ == b.push(s.content) + r);
        assert(s.left_child@ == a.push(l.content) + b);
    }
}

/// `split` keeps the payloads and their order.
pub proof fn lemma_splitted_view<T>(tree: AANode<T>)
    ensures
        tree.splitted()@ == tree@,
{
    if tree.splits() {
        let s = tree.0->0;
        let r = s.right_child.0->0;
        let a = s.left_child@;
        let b = r.left_child@;
        let x = r.right_child@;
        let inner = AANode(
            Some(
                Box::new(
                    Node {
                        level: s.level,
                        content: s.content,
                        left_child: s.left_child,
                        right_child: r.left_child,
                    },
                ),
            ),
        );
        assert(inner@ == a.push(s.content) + b);
        assert(s.right_child@ == b.push(r.content) + x);
    }
}

} // verus!

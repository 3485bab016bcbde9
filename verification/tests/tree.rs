use aatree::node::{AANode, Node};

fn nil<T>() -> AANode<T> {
    AANode::new()
}

fn leaf<T>(content: T) -> AANode<T> {
    AANode::from(content)
}

fn tree<T>(content: T, level: u8, left: AANode<T>, right: AANode<T>) -> AANode<T> {
    AANode(Some(Box::new(Node { level, content, left_child: left, right_child: right })))
}

#[test]
fn test_skew_nil() {
    let root: AANode<char> = nil();
    println!("Input: {:?}", root);
    let skewed = root.skew();
    let expected = nil();
    assert_eq!(skewed, expected);
}

#[test]
fn test_skew_leaf() {
    let root = leaf('T');
    println!("Input: {:?}", root);
    let skewed = root.skew();
    let expected = leaf('T');
    assert_eq!(skewed, expected);
}

#[test]
fn test_skew_simple() {
    let root = tree('T', 2, tree('L', 2, nil(), nil()), leaf('R'));
    println!("Input: {:?}", root);
    let skewed = root.skew();
    let expected = tree('L', 2, nil(), tree('T', 2, nil(), leaf('R')));
    assert_eq!(skewed, expected);
}

#[test]
fn test_skew_full() {
    let root = tree('T', 2, tree('L', 2, leaf('A'), leaf('B')), leaf('R'));
    println!("Input: {:?}", root);
    let skewed = root.skew();
    let expected = tree('L', 2, leaf('A'), tree('T', 2, leaf('B'), leaf('R')));
    assert_eq!(skewed, expected);
}

#[test]
fn test_split_nil() {
    let root: AANode<char> = nil();
    println!("Input: {:?}", root);
    let splitted = root.split();
    let expected = nil();
    assert_eq!(splitted, expected);
}

#[test]
fn test_split_leaf() {
    let root = leaf('T');
    println!("Input: {:?}", root);
    let splitted = root.split();
    let expected = leaf('T');
    assert_eq!(splitted, expected);
}

#[test]
fn test_split_good_tree() {
    let root = tree('T', 2, leaf('A'), tree('R', 2, leaf('B'), leaf('X')));
    println!("Input: {:?}", root);
    let splitted = root.split();
    let expected = tree('T', 2, leaf('A'), tree('R', 2, leaf('B'), leaf('X')));
    assert_eq!(splitted, expected);
}

#[test]
fn test_split_bad_tree() {
    let root = tree(
        'T',
        2,
        leaf('A'),
        tree('R', 2, leaf('B'), tree('X', 2, leaf('Y'), leaf('Z'))),
    );
    println!("Input: {:?}", root);
    let splitted = root.split();
    let expected = tree(
        'R',
        3,
        tree('T', 2, leaf('A'), leaf('B')),
        tree('X', 2, leaf('Y'), leaf('Z')),
    );
    assert_eq!(splitted, expected);
}

#[test]
fn test_insert_greater() {
    let mut root = nil();
    for content in ['A', 'B', 'C', 'D', 'E', 'F', 'G'].iter() {
        assert!(root.insert(*content));
    }
    let expected = tree(
        'D',
        3,
        tree('B', 2, leaf('A'), leaf('C')),
        tree('F', 2, leaf('E'), leaf('G')),
    );
    assert_eq!(root, expected);
}

#[test]
fn test_insert_smaller() {
    let mut root = nil();
    for content in ['Z', 'Y', 'X', 'W', 'V'].iter() {
        assert!(root.insert(*content));
    }
    let expected = tree('W', 2, leaf('V'), tree('Y', 2, leaf('X'), leaf('Z')));
    assert_eq!(root, expected);
}

#[test]
fn test_insert_multiple() {
    let mut root = nil();
    for content in ['A', 'A'].iter() {
        root.insert(*content);
    }
    let expected = leaf('A');
    assert_eq!(root, expected);
}

#[test]
fn test_remove_successor() {
    let mut root = tree('B', 1, nil(), leaf('C'));
    println!("Input:  `{:?}`", root);
    let removed = root.remove(&'B');
    let expected = leaf('C');
    assert_eq!(removed, Some('B'));
    assert_eq!(root, expected);
}

#[test]
fn test_remove_predecessor() {
    let mut root = tree('B', 2, leaf('A'), leaf('C'));
    println!("Input:  `{:?}`", root);
    let removed = root.remove(&'B');
    let expected = tree('A', 1, nil(), leaf('C'));
    assert_eq!(removed, Some('B'));
    assert_eq!(root, expected);
}

#[test]
fn test_remove_complex() {
    let mut root = tree(
        30,
        3,
        tree(15, 2, leaf(5), leaf(20)),
        tree(
            70,
            3,
            tree(50, 2, leaf(35), tree(60, 2, leaf(55), leaf(65))),
            tree(85, 2, leaf(80), leaf(90)),
        ),
    );
    println!("Input:  `{:?}`", root);
    let removed = root.remove(&5);
    let expected = tree(
        50,
        3,
        tree(30, 2, tree(15, 1, nil(), leaf(20)), leaf(35)),
        tree(70, 3, tree(60, 2, leaf(55), leaf(65)), tree(85, 2, leaf(80), leaf(90))),
    );
    assert_eq!(removed, Some(5));
    assert_eq!(root, expected);
}

#[test]
fn bare_tree_inserts_removes_and_traverses() {
    use_tree();
}

fn use_tree() {
    let mut tree = aatree::AATree::new();
    assert!(tree.root.is_nil());
    for value in [3, 1, 2] {
        assert!(tree.insert(value));
    }
    assert!(!tree.insert(2));
    let found = tree.traverse(
        |content| {
            if *content > 2 {
                aatree::node::traverse::TraverseStep::Left
            } else if *content < 2 {
                aatree::node::traverse::TraverseStep::Right
            } else {
                aatree::node::traverse::TraverseStep::Value(Some(*content))
            }
        },
        |_, sub| sub,
    );
    assert_eq!(found, Some(2));
    assert_eq!(tree.remove(&2), Some(2));
    assert_eq!(tree.remove(&2), None);
    assert_eq!(tree.root, super_tree());
    let empty: aatree::AATree<i32> = aatree::AATree::default();
    assert!(empty.root.is_nil());
}

fn super_tree() -> AANode<i32> {
    tree(1, 1, nil(), leaf(3))
}

#[test]
fn a_node_becomes_the_root_of_a_tree() {
    let node = Node { level: 2, content: 'B', left_child: leaf('A'), right_child: leaf('C') };
    assert_eq!(AANode::from(node), tree('B', 2, leaf('A'), leaf('C')));
}

#[test]
fn set_right_child_replaces_the_right_subtree_only() {
    let mut root = tree('B', 2, leaf('A'), leaf('C'));
    root.set_right_child(leaf('D'));
    assert_eq!(root, tree('B', 2, leaf('A'), leaf('D')));
}

#[test]
fn a_clone_has_the_same_shape_and_payloads() {
    let root = tree(4, 3, tree(2, 2, leaf(1), leaf(3)), tree(6, 2, leaf(5), leaf(7)));
    assert_eq!(root.clone(), root);
    let mut set = aatree::AATreeSet::new();
    for value in [2, 1, 3] {
        set.insert(value);
    }
    let mut copy = set.clone();
    assert_eq!(copy.len(), 3);
    assert!(copy.remove(&2));
    assert!(set.contains(&2));
    let mut map = aatree::AATreeMap::new();
    map.insert(1, 'a');
    let mut copy = map.clone();
    copy.insert(1, 'b');
    assert_eq!(map.get(&1), Some(&'a'));
    assert_eq!(copy.get(&1), Some(&'b'));
}

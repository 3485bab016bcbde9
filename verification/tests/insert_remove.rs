use aatree::node::{AANode, Node};

fn nil<T>() -> AANode<T> {
    AANode::new()
}

fn leaf<T>(content: T) -> AANode<T> {
    AANode::from(content)
}

fn tree<T>(content: T, level: u8, left: AANode<T>, right: AANode<T>) -> AANode<T> {
    AANode(Some(Box::new(Node { level, content, left_child: left, right_child: right })))
}

fn in_order<T: Clone>(node: &AANode<T>, out: &mut Vec<T>) {
    if let Some(inner) = &node.0 {
        in_order(&inner.left_child, out);
        out.push(inner.content.clone());
        in_order(&inner.right_child, out);
    }
}

fn height<T>(node: &AANode<T>) -> usize {
    match &node.0 {
        None => 0,
        Some(inner) => 1 + height(&inner.left_child).max(height(&inner.right_child)),
    }
}

/// Checks the level rules at every node and returns the number of nodes.
fn check_levels<T>(node: &AANode<T>) -> usize {
    match &node.0 {
        None => {
            assert_eq!(node.level(), 0);
            0
        },
        Some(inner) => {
            assert!(inner.level >= 1);
            assert_eq!(inner.left_child.level() + 1, inner.level);
            assert!(inner.right_child.level() <= inner.level);
            assert!(inner.right_child.level() + 1 >= inner.level);
            if let Some(right) = &inner.right_child.0 {
                assert!(right.right_child.level() < inner.level);
            }
            if inner.left_child.is_nil() && inner.right_child.is_nil() {
                assert_eq!(inner.level, 1);
            }
            1 + check_levels(&inner.left_child) + check_levels(&inner.right_child)
        },
    }
}

fn check_valid(node: &AANode<i32>) -> Vec<i32> {
    check_levels(node);
    let mut content = Vec::new();
    in_order(node, &mut content);
    for pair in content.windows(2) {
        assert!(pair[0] < pair[1]);
    }
    content
}

// ### INSERT ###

#[test]
fn node_test_insert_greater() {
    let mut root = nil();
    for content in ['A', 'B', 'C', 'D', 'E', 'F', 'G'].iter() {
        assert!(root.insert(*content));
    }
    let expected = tree(
        'D',
        3,
        tree('B', 2, leaf('A'), leaf('C')),
        tree('F', 2, leaf('E'), leaf('G')),
    );
    assert_eq!(root, expected);
}

#[test]
fn node_test_insert_smaller() {
    let mut root = nil();
    for content in ['Z', 'Y', 'X', 'W', 'V'].iter() {
        assert!(root.insert(*content));
    }
    let expected = tree('W', 2, leaf('V'), tree('Y', 2, leaf('X'), leaf('Z')));
    assert_eq!(root, expected);
}

#[test]
fn node_test_insert_multiple() {
    let mut root = nil();
    for content in ['A', 'A'].iter() {
        root.insert(*content);
    }
    let expected = leaf('A');
    assert_eq!(root, expected);
}

#[test]
fn tests_test_insert_greater() {
    let mut root = AANode::new();
    for content in ['A', 'B', 'C', 'D', 'E', 'F', 'G'].iter() {
        assert!(root.insert(*content));
    }
    let expected = tree(
        'D',
        3,
        tree('B', 2, leaf('A'), leaf('C')),
        tree('F', 2, leaf('E'), leaf('G')),
    );
    assert_eq!(root, expected);
}

#[test]
fn tests_test_insert_smaller() {
    let mut root = AANode::new();
    for content in ['Z', 'Y', 'X', 'W', 'V'].iter() {
        assert!(root.insert(*content));
    }
    let expected = tree('W', 2, leaf('V'), tree('Y', 2, leaf('X'), leaf('Z')));
    assert_eq!(root, expected);
}

#[test]
fn tests_test_insert_multiple() {
    let mut root = AANode::new();
    for content in ['A', 'A'].iter() {
        root.insert(*content);
    }
    let expected = AANode::from('A');
    assert_eq!(root, expected);
}

#[test]
fn second_insert_reports_false_and_changes_nothing() {
    let mut root = nil();
    for content in [5, 3, 8, 1, 4] {
        assert!(root.insert(content));
    }
    let before = check_valid(&root);
    let shape = format!("{:?}", root);
    assert!(!root.insert(4));
    assert_eq!(check_valid(&root), before);
    assert_eq!(format!("{:?}", root), shape);
}

#[test]
fn insert_or_replace_returns_the_old_payload() {
    let mut root: AANode<(i32, char)> = nil();
    assert_eq!(root.insert_or_replace((1, 'a')), None);
    assert_eq!(root.insert_or_replace((1, 'a')), Some((1, 'a')));
    assert_eq!(root.insert_or_replace((2, 'b')), None);
    assert_eq!(root, tree((1, 'a'), 1, nil(), leaf((2, 'b'))));
}

#[test]
fn insert_in_any_order_keeps_the_tree_valid() {
    let mut root = nil();
    let mut expected = Vec::new();
    let mut value = 17;
    for _ in 0..200 {
        value = (value * 73 + 11) % 1009;
        let fresh = !expected.contains(&value);
        assert_eq!(root.insert(value), fresh);
        if fresh {
            expected.push(value);
        }
        check_levels(&root);
    }
    expected.sort();
    assert_eq!(check_valid(&root), expected);
}

#[test]
fn height_stays_within_twice_the_logarithm() {
    let mut root = nil();
    for n in 1..=1000usize {
        assert!(root.insert(n as i32));
        let bound = 2.0 * ((n + 1) as f64).log2();
        assert!(height(&root) as f64 <= bound);
        assert!(height(&root) <= 2 * root.level() as usize);
        assert!((1usize << root.level()) <= n + 1);
    }
}

// ### REMOVE ###

#[test]
fn node_test_remove_successor() {
    let mut root = tree('B', 1, nil(), leaf('C'));
    println!("Input:  `{:?}`", root);
    let removed = root.remove(&'B');
    let expected = leaf('C');
    assert_eq!(removed, Some('B'));
    assert_eq!(root, expected);
}

#[test]
fn node_test_remove_predecessor() {
    let mut root = tree('B', 2, leaf('A'), leaf('C'));
    println!("Input:  `{:?}`", root);
    let removed = root.remove(&'B');
    let expected = tree('A', 1, nil(), leaf('C'));
    assert_eq!(removed, Some('B'));
    assert_eq!(root, expected);
}

#[test]
fn node_test_remove_complex() {
    let mut root = tree(
        30,
        3,
        tree(15, 2, leaf(5), leaf(20)),
        tree(
            70,
            3,
            tree(50, 2, leaf(35), tree(60, 2, leaf(55), leaf(65))),
            tree(85, 2, leaf(80), leaf(90)),
        ),
    );
    println!("Input:  `{:?}`", root);
    let removed = root.remove(&5);
    let expected = tree(
        50,
        3,
        tree(30, 2, tree(15, 1, nil(), leaf(20)), leaf(35)),
        tree(70, 3, tree(60, 2, leaf(55), leaf(65)), tree(85, 2, leaf(80), leaf(90))),
    );
    assert_eq!(removed, Some(5));
    assert_eq!(root, expected);
}

#[test]
fn tests_test_remove_successor() {
    let mut root = tree('B', 1, AANode::new(), AANode::from('C'));
    println!("Input:  `{:?}`", root);
    let removed = root.remove(&'B');
    let expected = AANode::from('C');
    assert_eq!(removed, Some('B'));
    assert_eq!(root, expected);
}

#[test]
fn tests_test_remove_predecessor() {
    let mut root = tree('B', 2, AANode::from('A'), AANode::from('C'));
    println!("Input:  `{:?}`", root);
    let removed = root.remove(&'B');
    let expected = tree('A', 1, AANode::new(), AANode::from('C'));
    assert_eq!(removed, Some('B'));
    assert_eq!(root, expected);
}

#[test]
fn tests_test_remove_complex() {
    let mut root = tree(
        30,
        3,
        tree(15, 2, leaf(5), leaf(20)),
        tree(
            70,
            3,
            tree(50, 2, leaf(35), tree(60, 2, leaf(55), leaf(65))),
            tree(85, 2, leaf(80), leaf(90)),
        ),
    );
    println!("Input:  `{:?}`", root);
    let removed = root.remove(&5);
    let expected = tree(
        50,
        3,
        tree(30, 2, tree(15, 1, nil(), leaf(20)), leaf(35)),
        tree(70, 3, tree(60, 2, leaf(55), leaf(65)), tree(85, 2, leaf(80), leaf(90))),
    );
    assert_eq!(removed, Some(5));
    assert_eq!(root, expected);
}

#[test]
fn remove_of_an_absent_value_is_none() {
    let mut root = nil();
    assert_eq!(root.remove(&1), None);
    for content in [5, 3, 8] {
        root.insert(content);
    }
    let before = format!("{:?}", root);
    assert_eq!(root.remove(&4), None);
    assert_eq!(format!("{:?}", root), before);
}

#[test]
fn remove_of_the_only_payload_leaves_nil() {
    let mut root = leaf(1);
    assert_eq!(root.remove(&1), Some(1));
    assert!(root.is_nil());
}

#[test]
fn remove_successor_takes_the_first() {
    let mut root = nil();
    for content in [4, 2, 6, 1, 3, 5, 7] {
        root.insert(content);
    }
    for expected in 1..=7 {
        assert_eq!(root.remove_successor(), Some(expected));
        let rest = check_valid(&root);
        assert_eq!(rest, ((expected + 1)..=7).collect::<Vec<_>>());
    }
    assert_eq!(root.remove_successor(), None);
    assert!(root.is_nil());
}

#[test]
fn remove_predecessor_takes_the_last() {
    let mut root = nil();
    for content in [4, 2, 6, 1, 3, 5, 7] {
        root.insert(content);
    }
    for expected in (1..=7).rev() {
        assert_eq!(root.remove_predecessor(), Some(expected));
        let rest = check_valid(&root);
        assert_eq!(rest, (1..expected).collect::<Vec<_>>());
    }
    assert_eq!(root.remove_predecessor(), None);
    assert!(root.is_nil());
}

#[test]
fn inserting_then_removing_everything_leaves_nil() {
    let mut root = nil();
    let mut keys = Vec::new();
    let mut value = 5;
    for _ in 0..300 {
        value = (value * 31 + 7) % 997;
        if root.insert(value) {
            keys.push(value);
        }
    }
    let mut remaining = keys.clone();
    remaining.sort();
    assert_eq!(check_valid(&root), remaining);
    for key in keys {
        assert_eq!(root.remove(&key), Some(key));
        remaining.retain(|other| *other != key);
        assert_eq!(check_valid(&root), remaining);
    }
    assert!(root.is_nil());
}

#[test]
fn mixed_inserts_and_removals_keep_the_tree_valid() {
    let mut root = nil();
    let mut model = std::collections::BTreeSet::new();
    let mut value = 3;
    for step in 0..2000 {
        value = (value * 1103 + 12345) % 257;
        if step % 3 == 2 {
            assert_eq!(root.remove(&value), model.take(&value));
        } else {
            assert_eq!(root.insert(value), model.insert(value));
        }
        check_levels(&root);
    }
    assert_eq!(check_valid(&root), model.into_iter().collect::<Vec<_>>());
}

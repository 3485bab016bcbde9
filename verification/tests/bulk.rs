use aatree::node::{AANode, Node};

fn nil<T>() -> AANode<T> {
    AANode::new()
}

fn leaf<T>(content: T) -> AANode<T> {
    AANode::from(content)
}

fn tree<T>(content: T, level: u8, left: AANode<T>, right: AANode<T>) -> AANode<T> {
    AANode(Some(Box::new(Node { level, content, left_child: left, right_child: right })))
}

fn tree_from(data: Vec<i32>) -> AANode<i32> {
    AANode::from_sorted_data(data)
}

fn in_order(node: &AANode<i32>, out: &mut Vec<i32>) {
    if let Some(inner) = &node.0 {
        in_order(&inner.left_child, out);
        out.push(inner.content);
        in_order(&inner.right_child, out);
    }
}

fn check_levels(node: &AANode<i32>) {
    if let Some(inner) = &node.0 {
        assert_eq!(inner.left_child.level() + 1, inner.level);
        assert!(inner.right_child.level() <= inner.level);
        assert!(inner.right_child.level() + 1 >= inner.level);
        if let Some(right) = &inner.right_child.0 {
            assert!(right.right_child.level() < inner.level);
        }
        check_levels(&inner.left_child);
        check_levels(&inner.right_child);
    }
}

#[test]
fn test_empty() {
    let tree: AANode<i32> = tree_from(vec![]);
    let expected = nil();
    assert_eq!(tree, expected);
}

#[test]
fn test_len_1() {
    let tree: AANode<i32> = tree_from(vec![1]);
    let expected = leaf(1);
    assert_eq!(tree, expected);
}

#[test]
fn test_len_2() {
    let built: AANode<i32> = tree_from(vec![1, 2]);
    let expected = tree(1, 1, nil(), leaf(2));
    assert_eq!(built, expected);
}

#[test]
fn test_len_3() {
    let built: AANode<i32> = tree_from(vec![1, 2, 3]);
    let expected = tree(2, 2, leaf(1), leaf(3));
    assert_eq!(built, expected);
}

#[test]
fn test_len_4() {
    let built: AANode<i32> = tree_from(vec![1, 2, 3, 4]);
    let expected = tree(2, 2, leaf(1), tree(3, 1, nil(), leaf(4)));
    assert_eq!(built, expected);
}

#[test]
fn test_len_5() {
    let built: AANode<i32> = tree_from(vec![1, 2, 3, 4, 5]);
    let expected = tree(3, 2, tree(1, 1, nil(), leaf(2)), tree(4, 1, nil(), leaf(5)));
    assert_eq!(built, expected);
}

#[test]
fn test_len_6() {
    let built: AANode<i32> = tree_from(vec![1, 2, 3, 4, 5, 6]);
    let expected = tree(3, 2, tree(1, 1, nil(), leaf(2)), tree(5, 2, leaf(4), leaf(6)));
    assert_eq!(built, expected);
}

#[test]
fn test_len_7() {
    let built: AANode<i32> = tree_from(vec![1, 2, 3, 4, 5, 6, 7]);
    let expected = tree(4, 3, tree(2, 2, leaf(1), leaf(3)), tree(6, 2, leaf(5), leaf(7)));
    assert_eq!(built, expected);
}

#[test]
fn test_len_8() {
    let built: AANode<i32> = tree_from(vec![1, 2, 3, 4, 5, 6, 7, 8]);
    let expected = tree(
        4,
        3,
        tree(2, 2, leaf(1), leaf(3)),
        tree(6, 2, leaf(5), tree(7, 1, nil(), leaf(8))),
    );
    assert_eq!(built, expected);
}

#[test]
fn test_len_9() {
    let built: AANode<i32> = tree_from(vec![1, 2, 3, 4, 5, 6, 7, 8, 9]);
    let expected = tree(
        5,
        3,
        tree(2, 2, leaf(1), tree(3, 1, nil(), leaf(4))),
        tree(7, 2, leaf(6), tree(8, 1, nil(), leaf(9))),
    );
    assert_eq!(built, expected);
}

#[test]
fn test_len_10() {
    let built: AANode<i32> = tree_from(vec![1, 2, 3, 4, 5, 6, 7, 8, 9, 10]);
    let expected = tree(
        5,
        3,
        tree(2, 2, leaf(1), tree(3, 1, nil(), leaf(4))),
        tree(8, 2, tree(6, 1, nil(), leaf(7)), tree(9, 1, nil(), leaf(10))),
    );
    assert_eq!(built, expected);
}

#[test]
fn bulk_construction_holds_what_insertion_holds() {
    for n in 0..200 {
        let data: Vec<i32> = (0..n).map(|i| i * 3).collect();
        let built = tree_from(data.clone());
        let mut inserted = AANode::new();
        for value in &data {
            assert!(inserted.insert(*value));
        }
        let mut left = Vec::new();
        in_order(&built, &mut left);
        let mut right = Vec::new();
        in_order(&inserted, &mut right);
        assert_eq!(left, data);
        assert_eq!(right, data);
        check_levels(&built);
    }
}

#[test]
fn bulk_level_is_the_logarithm() {
    for (n, level) in [(0, 0u8), (1, 1), (2, 1), (3, 2), (6, 2), (7, 3), (14, 3), (15, 4), (1000, 9)] {
        let data: Vec<i32> = (0..n).collect();
        assert_eq!(tree_from(data).level(), level);
    }
}

#[test]
fn impl_stops_after_the_asked_number_of_items() {
    let mut items = vec![1, 2, 3, 4, 5].into_iter();
    let built: AANode<i32> = AANode::from_sorted_data_impl(&mut items, 3);
    assert_eq!(built, tree(2, 2, leaf(1), leaf(3)));
    assert_eq!(items.next(), Some(4));
}

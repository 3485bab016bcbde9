use aatree::node::traverse::{TraverseError, TraverseIface, TraverseStep, Turn};
use aatree::node::{AANode, Node};

fn nil<T>() -> AANode<T> {
    AANode::new()
}

fn leaf<T>(content: T) -> AANode<T> {
    AANode::from(content)
}

fn tree<T>(content: T, level: u8, left: AANode<T>, right: AANode<T>) -> AANode<T> {
    AANode(Some(Box::new(Node { level, content, left_child: left, right_child: right })))
}

fn seven() -> AANode<i32> {
    tree(4, 3, tree(2, 2, leaf(1), leaf(3)), tree(6, 2, leaf(5), leaf(7)))
}

#[test]
fn traverse_of_nil_is_none() {
    let root: AANode<i32> = nil();
    let found = root.traverse(|_| TraverseStep::Value(Some(1)), |_, sub| sub);
    assert_eq!(found, None);
}

#[test]
fn traverse_stops_at_a_value() {
    let root = seven();
    let found = root.traverse(
        |content| {
            if *content > 3 {
                TraverseStep::Left
            } else if *content < 3 {
                TraverseStep::Right
            } else {
                TraverseStep::Value(Some(*content * 10))
            }
        },
        |_, sub| sub,
    );
    assert_eq!(found, Some(30));
}

#[test]
fn traverse_combines_on_the_way_up() {
    let root = seven();
    // the path to the place of 5: 4, 6, 5, summed up on the way back
    let sum = root.traverse(
        |content| {
            if *content > 5 {
                TraverseStep::Left
            } else {
                TraverseStep::Right
            }
        },
        |content, sub: Option<i32>| Some(sub.unwrap_or(0) + *content),
    );
    assert_eq!(sum, Some(4 + 6 + 5));
}

#[test]
fn traverse_does_not_call_up_where_it_stopped() {
    let root = seven();
    let found = root.traverse(|content| TraverseStep::Value(Some(*content)), |_, _| Some(0));
    assert_eq!(found, Some(4));
    let found = root.traverse(
        |content| if *content == 4 { TraverseStep::Left } else { TraverseStep::Value(None) },
        |content, sub: Option<i32>| Some(sub.unwrap_or(-1) + *content),
    );
    assert_eq!(found, Some(3));
}

#[test]
fn traverse_mut_of_nil_is_none() {
    let mut root: AANode<i32> = nil();
    assert!(root.traverse_mut().is_none());
}

#[test]
fn turning_left_visits_decreasing_payloads_down_to_the_first() {
    let mut root = AANode::new();
    for value in 0..100 {
        root.insert((value * 37) % 100);
    }
    let mut cursor = root.traverse_mut().unwrap();
    let mut last = *cursor.peek();
    while cursor.has_left_child() {
        cursor = cursor.turn_left().unwrap();
        assert!(*cursor.peek() < last);
        last = *cursor.peek();
    }
    assert_eq!(last, 0);
    assert!(matches!(cursor.turn_left(), Err(TraverseError::Left)));
}

#[test]
fn turning_right_visits_increasing_payloads_up_to_the_last() {
    let mut root = AANode::new();
    for value in 0..100 {
        root.insert((value * 37) % 100);
    }
    let mut cursor = root.traverse_mut().unwrap();
    let mut last = *cursor.peek();
    while cursor.has_right_child() {
        cursor = cursor.turn_right().unwrap();
        assert!(*cursor.peek() > last);
        last = *cursor.peek();
    }
    assert_eq!(last, 99);
    assert!(matches!(cursor.turn_right(), Err(TraverseError::Right)));
}

#[test]
fn cursor_peeks_at_children() {
    let mut root = tree(2, 2, leaf(1), nil());
    let cursor = root.traverse_mut().unwrap();
    assert_eq!(*cursor.peek(), 2);
    assert_eq!(cursor.peek_left_child(), Some(&1));
    assert_eq!(cursor.peek_right_child(), None);
    assert!(cursor.has_left_child());
    assert!(!cursor.has_right_child());
    assert!(!cursor.is_leaf());
    let cursor = cursor.turn_left().unwrap();
    assert!(cursor.is_leaf());
    assert_eq!(cursor.peek_left_child(), None);
}

#[test]
fn into_content_gives_the_payload_for_change() {
    let mut root = seven();
    let cursor = root.traverse_mut().unwrap().turn_right().unwrap();
    *cursor.into_content() = 60;
    assert_eq!(root, tree(4, 3, tree(2, 2, leaf(1), leaf(3)), tree(60, 2, leaf(5), leaf(7))));
}

#[test]
fn into_first_and_into_last_reach_the_ends() {
    let mut root = seven();
    *root.traverse_mut().unwrap().into_first() = 0;
    *root.traverse_mut().unwrap().into_last() = 8;
    assert_eq!(root, tree(4, 3, tree(2, 2, leaf(0), leaf(3)), tree(6, 2, leaf(5), leaf(8))));
}

#[test]
fn into_found_reaches_every_payload() {
    let mut root = seven();
    for value in 1..=7 {
        let found = root.traverse_mut().unwrap().into_found(&value).unwrap();
        assert_eq!(*found, value);
    }
    assert!(root.traverse_mut().unwrap().into_found(&0).is_none());
    assert!(root.traverse_mut().unwrap().into_found(&8).is_none());
}

#[test]
fn into_at_or_after_and_before_reach_the_nearest_payload() {
    let mut root = seven();
    let reached = root.traverse_mut().unwrap().into_at_or_after(&2).map(|c| *c);
    assert_eq!(reached, Some(2));
    let reached = root.traverse_mut().unwrap().into_at_or_after(&8).map(|c| *c);
    assert_eq!(reached, None);
    let reached = root.traverse_mut().unwrap().into_at_or_before(&6).map(|c| *c);
    assert_eq!(reached, Some(6));
    let reached = root.traverse_mut().unwrap().into_at_or_before(&0).map(|c| *c);
    assert_eq!(reached, None);
    // 3 stands to the right of the left child 2, which is below it
    let reached = root.traverse_mut().unwrap().into_at_or_after(&3).map(|c| *c);
    assert_eq!(reached, Some(3));
    // 5 stands to the left of the right child 6, which is above it
    let reached = root.traverse_mut().unwrap().into_at_or_before(&5).map(|c| *c);
    assert_eq!(reached, Some(5));
    *root.traverse_mut().unwrap().into_at_or_after(&3).unwrap() = 30;
    assert_eq!(root, tree(4, 3, tree(2, 2, leaf(1), leaf(30)), tree(6, 2, leaf(5), leaf(7))));
}

#[test]
fn nearest_search_between_the_payloads() {
    let mut root = AANode::new();
    for value in 0..64 {
        root.insert(value * 2 + 1);
    }
    for probe in 0..130 {
        let after = (probe..129).find(|value| value % 2 == 1);
        let before = (0..=probe.min(127)).rev().find(|value| value % 2 == 1);
        let reached = root.traverse_mut().unwrap().into_at_or_after(&probe).map(|c| *c);
        assert_eq!(reached, after);
        let reached = root.traverse_mut().unwrap().into_at_or_before(&probe).map(|c| *c);
        assert_eq!(reached, before);
    }
}

#[test]
fn turns_lead_a_cursor_to_the_nearest_payload() {
    let mut root = seven();
    // the last turn is the first to take: right from 4, then left from 6
    assert_eq!(root.turns_at_or_after(&5), Some(vec![Turn::Left, Turn::Right]));
    assert_eq!(root.turns_at_or_before(&3), Some(vec![Turn::Right, Turn::Left]));
    assert_eq!(root.turns_at_or_after(&4), Some(vec![]));
    assert_eq!(root.turns_at_or_after(&8), None);
    assert_eq!(root.turns_at_or_before(&0), None);
    let found = root.traverse_mut().unwrap().follow(vec![Turn::Left, Turn::Right]);
    assert_eq!(found.map(|c| *c), Some(5));
    let found = root.traverse_mut().unwrap().follow(vec![Turn::Left, Turn::Left, Turn::Left]);
    assert!(found.is_none());
    let mut empty: AANode<i32> = AANode::new();
    assert_eq!(empty.turns_at_or_after(&1), None);
    assert!(empty.traverse_mut().is_none());
}

#[test]
fn a_failed_turn_says_which_child_is_missing() {
    let mut root = leaf(1);
    let error = root.traverse_mut().unwrap().turn_left().err().unwrap();
    assert_eq!(error, TraverseError::Left);
    assert_eq!(error.message(), "Attempt to turn left but there is no such child");
    let error = root.traverse_mut().unwrap().turn_right().err().unwrap();
    assert_eq!(error, TraverseError::Right);
    assert_eq!(error.message(), "Attempt to turn right but there is no such child");
    assert_eq!(root, leaf(1));
}

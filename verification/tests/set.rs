use aatree::AATreeSet;

#[test]
fn books_example() {
    let mut books = AATreeSet::new();
    books.insert("A Dance With Dragons");
    books.insert("To Kill a Mockingbird");
    books.insert("The Odyssey");
    books.insert("The Great Gatsby");
    assert!(!books.contains(&"The Winds of Winter"));
    assert_eq!(books.len(), 4);
    assert!(books.remove(&"The Odyssey"));
    assert_eq!(books.len(), 3);
    let mut iter = books.into_iter();
    let mut all = Vec::new();
    while let Some(book) = iter.next() {
        all.push(book);
    }
    assert_eq!(all, vec!["A Dance With Dragons", "The Great Gatsby", "To Kill a Mockingbird"]);
}

#[test]
fn new_set_is_empty() {
    let set: AATreeSet<i32> = AATreeSet::new();
    assert!(set.is_empty());
    assert_eq!(set.len(), 0);
    let set: AATreeSet<i32> = AATreeSet::default();
    assert!(set.is_empty());
}

#[test]
fn insert_twice_counts_once() {
    let mut set = AATreeSet::new();
    assert!(set.insert(42));
    assert!(!set.insert(42));
    assert_eq!(set.len(), 1);
}

#[test]
fn first_is_the_smallest() {
    let mut set = AATreeSet::new();
    assert!(set.first().is_none());
    assert!(set.smallest().is_none());
    set.insert(42);
    set.insert(44);
    set.insert(40);
    assert_eq!(set.first(), Some(&40));
    assert_eq!(set.smallest(), Some(&40));
}

#[test]
fn last_is_the_largest() {
    let mut set = AATreeSet::new();
    assert!(set.last().is_none());
    assert!(set.largest().is_none());
    set.insert(42);
    set.insert(44);
    set.insert(40);
    assert_eq!(set.last(), Some(&44));
    assert_eq!(set.largest(), Some(&44));
}

#[test]
fn pop_first_takes_values_in_ascending_order() {
    let mut set = AATreeSet::new();
    assert_eq!(set.pop_first(), None);
    set.insert(42);
    set.insert(44);
    set.insert(40);
    assert_eq!(set.pop_first(), Some(40));
    assert_eq!(set.len(), 2);
    assert_eq!(set.pop_smallest(), Some(42));
    assert_eq!(set.pop_first(), Some(44));
    assert_eq!(set.pop_first(), None);
    assert_eq!(set.len(), 0);
}

#[test]
fn pop_last_takes_values_in_descending_order() {
    let mut set = AATreeSet::new();
    assert_eq!(set.pop_last(), None);
    set.insert(42);
    set.insert(44);
    set.insert(40);
    assert_eq!(set.pop_last(), Some(44));
    assert_eq!(set.pop_largest(), Some(42));
    assert_eq!(set.pop_last(), Some(40));
    assert_eq!(set.pop_last(), None);
    assert!(set.is_empty());
}

#[test]
fn contains_follows_insert() {
    let mut set = AATreeSet::new();
    set.insert(43);
    assert_eq!(set.contains(&42), false);
    set.insert(42);
    assert_eq!(set.contains(&42), true);
}

#[test]
fn first_at_or_after_is_the_smallest_not_below() {
    let mut set = AATreeSet::new();
    assert!(set.first_at_or_after(&41).is_none());
    set.insert(42);
    set.insert(44);
    set.insert(40);
    assert_eq!(set.first_at_or_after(&41), Some(&42));
    assert_eq!(set.first_at_or_after(&42), Some(&42));
    assert_eq!(set.smallest_geq_than(&43), Some(&44));
    assert_eq!(set.first_at_or_after(&45), None);
}

#[test]
fn last_at_or_before_is_the_largest_not_above() {
    let mut set = AATreeSet::new();
    assert!(set.last_at_or_before(&43).is_none());
    set.insert(42);
    set.insert(44);
    set.insert(40);
    assert_eq!(set.last_at_or_before(&43), Some(&42));
    assert_eq!(set.last_at_or_before(&42), Some(&42));
    assert_eq!(set.largest_leq_than(&41), Some(&40));
    assert_eq!(set.last_at_or_before(&39), None);
}

#[test]
fn nearest_search_is_exact_on_every_tree() {
    let mut set = AATreeSet::new();
    let mut values = Vec::new();
    let mut value = 1;
    for _ in 0..150 {
        value = (value * 53 + 17) % 307;
        set.insert(value * 2);
        values.push(value * 2);
    }
    values.sort();
    values.dedup();
    assert_eq!(set.len(), values.len());
    for probe in 0..620 {
        assert_eq!(set.first_at_or_after(&probe), values.iter().find(|v| **v >= probe));
        assert_eq!(set.last_at_or_before(&probe), values.iter().rev().find(|v| **v <= probe));
        assert_eq!(set.contains(&probe), values.contains(&probe));
    }
}

#[test]
fn remove_and_take() {
    let mut set = AATreeSet::new();
    set.insert(1);
    set.insert(2);
    set.insert(3);
    assert!(set.remove(&2));
    assert!(!set.remove(&2));
    assert_eq!(set.len(), 2);
    assert_eq!(set.take(&3), Some(3));
    assert_eq!(set.take(&3), None);
    assert_eq!(set.len(), 1);
    assert_eq!(set.first(), Some(&1));
}

#[test]
fn iter_visits_the_values_in_ascending_order() {
    let mut set = AATreeSet::new();
    let mut expected = Vec::new();
    let mut value = 9;
    for _ in 0..100 {
        value = (value * 29 + 3) % 211;
        if set.insert(value) {
            expected.push(value);
        }
    }
    expected.sort();
    let mut iter = set.iter();
    let mut seen = Vec::new();
    let mut left = expected.len();
    assert_eq!(iter.size_hint(), (left, Some(left)));
    while let Some(value) = iter.next() {
        seen.push(*value);
        left -= 1;
        assert_eq!(iter.size_hint(), (left, Some(left)));
    }
    assert_eq!(seen, expected);
    assert_eq!(iter.next(), None);
    let mut iter = set.into_iter();
    let mut seen = Vec::new();
    while let Some(value) = iter.next() {
        seen.push(value);
    }
    assert_eq!(seen, expected);
    assert_eq!(iter.next(), None);
    assert_eq!(iter.size_hint(), (0, Some(0)));
}

#[test]
fn empty_set_has_nothing_to_visit() {
    let set: AATreeSet<i32> = AATreeSet::new();
    assert_eq!(set.iter().next(), None);
    assert_eq!(set.into_iter().next(), None);
}

#[test]
fn insert_then_remove_everything_leaves_an_empty_set() {
    let mut set = AATreeSet::new();
    let keys = [8, 3, 5, 13, 1, 2, 21, 34];
    for key in keys {
        assert!(set.insert(key));
    }
    assert_eq!(set.len(), keys.len());
    for key in keys {
        assert!(set.remove(&key));
    }
    assert!(set.is_empty());
    assert_eq!(set.first(), None);
}

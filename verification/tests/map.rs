use aatree::map::{Entry, KeyValue};
use aatree::AATreeMap;

#[test]
fn test_first_key_value() {
    let mut map = AATreeMap::new();
    map.insert(10, "a");
    map.insert(20, "b");
    map.insert(30, "c");
    map.insert(40, "d");
    map.insert(50, "e");
    map.insert(60, "f");
    map.insert(70, "g");

    // The tree now looks like this:
    //       40
    //     /    \
    //   20      60
    //   /\      /\
    // 10  30  50  70

    // To return the correct value for 15, we need to go left once but not twice
    let (key, value) = map.first_key_value_at_or_after(&15).unwrap();
    assert_eq!(*key, 20);
    assert_eq!(*value, "b");
    let (key, value) = map.first_key_value_mut_at_or_after(&15).unwrap();
    assert_eq!(*key, 20);
    assert_eq!(*value, "b");
}

#[test]
fn test_last_key_value() {
    let mut map = AATreeMap::new();
    map.insert(10, "a");
    map.insert(20, "b");
    map.insert(30, "c");
    map.insert(40, "d");

    // The tree now looks like this:
    //    20 - 30
    //   /       \
    // 10         40

    // To return the correct value for 35, we need to go right once but not twice
    let (key, value) = map.last_key_value_at_or_before(&35).unwrap();
    assert_eq!(*key, 30);
    assert_eq!(*value, "c");
    let (key, value) = map.last_key_value_mut_at_or_before(&35).unwrap();
    assert_eq!(*key, 30);
    assert_eq!(*value, "c");
}

#[test]
fn new_map_is_empty() {
    let map: AATreeMap<i64, ()> = AATreeMap::new();
    assert!(map.is_empty());
    assert_eq!(map.len(), 0);
    let map: AATreeMap<i64, ()> = AATreeMap::default();
    assert!(map.is_empty());
}

#[test]
fn len_counts_entries() {
    let mut map = AATreeMap::new();
    assert_eq!(map.len(), 0);
    map.insert(1, "a");
    assert_eq!(map.len(), 1);
    assert!(!map.is_empty());
}

#[test]
fn clear_removes_everything() {
    let mut map = AATreeMap::new();
    map.insert(1, "a");
    map.clear();
    assert!(map.is_empty());
    assert_eq!(map.get(&1), None);
}

#[test]
fn insert_overwrites_and_returns_the_old_value() {
    let mut map = AATreeMap::new();
    assert_eq!(map.insert(1, "a"), None);
    assert_eq!(map.get(&1), Some(&"a"));
    assert_eq!(map.insert(1, "b"), Some("a"));
    assert_eq!(map.get(&1), Some(&"b"));
    assert_eq!(map.len(), 1);
}

#[test]
fn get_and_get_key_value() {
    let mut map = AATreeMap::new();
    map.insert(1, "a");
    assert_eq!(map.get(&1), Some(&"a"));
    assert_eq!(map.get(&2), None);
    assert_eq!(map.get_key_value(&1), Some((&1, &"a")));
    assert_eq!(map.get_key_value(&2), None);
    assert_eq!(map.kv(&1).map(|entry| entry.value), Some("a"));
}

#[test]
fn contains_key_follows_insert() {
    let mut map = AATreeMap::new();
    assert!(!map.contains_key(&1));
    map.insert(1, "a");
    assert!(map.contains_key(&1));
}

#[test]
fn remove_returns_the_value() {
    let mut map = AATreeMap::new();
    map.insert(1, "a");
    map.insert(2, "b");
    assert_eq!(map.get(&1), Some(&"a"));
    let value = map.remove(&1);
    assert_eq!(value, Some("a"));
    assert_eq!(map.get(&1), None);
    assert_eq!(map.len(), 1);
    assert_eq!(map.remove(&1), None);
    assert_eq!(map.len(), 1);
}

#[test]
fn remove_entry_returns_key_and_value() {
    let mut map = AATreeMap::new();
    map.insert(1, "a");
    map.insert(2, "b");
    assert_eq!(map.remove_entry(&2), Some((2, "b")));
    assert_eq!(map.remove_entry(&2), None);
    assert_eq!(map.len(), 1);
}

#[test]
fn get_mut_changes_the_value() {
    let mut map = AATreeMap::new();
    map.insert(1, "a");
    assert_eq!(map.get(&1), Some(&"a"));
    *map.get_mut(&1).unwrap() = "b";
    assert_eq!(map.get(&1), Some(&"b"));
    assert!(map.get_mut(&2).is_none());
}

#[test]
fn kv_mut_finds_every_key() {
    let mut map = AATreeMap::new();
    for key in 0..50 {
        map.insert(key * 2, key);
    }
    for key in 0..50 {
        let entry = map.kv_mut(&(key * 2)).unwrap();
        assert_eq!(entry.key, key * 2);
        entry.value += 100;
        assert!(map.kv_mut(&(key * 2 + 1)).is_none());
    }
    for key in 0..50 {
        assert_eq!(map.get(&(key * 2)), Some(&(key + 100)));
    }
}

#[test]
fn first_entry_is_the_smallest_key() {
    let mut map = AATreeMap::new();
    assert!(map.first_entry().is_none());
    map.insert(1, 'a');
    map.insert(3, 'c');
    let mut entry = map.first_entry().unwrap();
    assert_eq!(*entry.key(), 1);
    *entry.get_mut() = 'b';
    assert_eq!(map.get(&1), Some(&'b'));
    assert_eq!(map.get(&3), Some(&'c'));
}

#[test]
fn last_entry_is_the_largest_key() {
    let mut map = AATreeMap::new();
    assert!(map.last_entry().is_none());
    map.insert(1, 'a');
    map.insert(3, 'c');
    let mut entry = map.last_entry().unwrap();
    assert_eq!(*entry.key(), 3);
    assert_eq!(entry.insert('b'), 'c');
    assert_eq!(*entry.get(), 'b');
    assert_eq!(map.get(&1), Some(&'a'));
    assert_eq!(map.get(&3), Some(&'b'));
}

#[test]
fn first_and_last_key_value() {
    let mut map = AATreeMap::new();
    assert_eq!(map.first_key_value(), None);
    assert_eq!(map.last_key_value(), None);
    assert!(map.smallest().is_none());
    assert!(map.largest().is_none());
    map.insert(3, "a");
    map.insert(1, "b");
    map.insert(2, "c");
    assert_eq!(map.first_key_value(), Some((&1, &"b")));
    assert_eq!(map.last_key_value(), Some((&3, &"a")));
    assert_eq!(map.smallest().map(|entry| entry.key), Some(1));
    assert_eq!(map.largest().map(|entry| entry.key), Some(3));
}

#[test]
fn pop_first_takes_entries_in_ascending_order() {
    let mut map = AATreeMap::new();
    assert_eq!(map.pop_first(), None);
    map.insert(3, "a");
    map.insert(1, "b");
    map.insert(2, "c");
    assert_eq!(map.pop_first(), Some((1, "b")));
    assert_eq!(map.len(), 2);
    assert_eq!(map.pop_first(), Some((2, "c")));
    assert_eq!(map.pop_first(), Some((3, "a")));
    assert_eq!(map.pop_first(), None);
    assert_eq!(map.len(), 0);
}

#[test]
fn pop_last_takes_entries_in_descending_order() {
    let mut map = AATreeMap::new();
    assert_eq!(map.pop_last(), None);
    map.insert(1, "a");
    map.insert(3, "b");
    map.insert(2, "c");
    assert_eq!(map.pop_last(), Some((3, "b")));
    assert_eq!(map.pop_largest(), Some((2, "c")));
    assert_eq!(map.pop_last(), Some((1, "a")));
    assert_eq!(map.pop_last(), None);
    assert!(map.is_empty());
}

#[test]
fn at_or_after_and_at_or_before() {
    let mut map = AATreeMap::new();
    assert_eq!(map.first_key_value_at_or_after(&15), None);
    assert_eq!(map.last_key_value_at_or_before(&25), None);
    assert!(map.first_key_value_mut_at_or_after(&15).is_none());
    assert!(map.last_key_value_mut_at_or_before(&25).is_none());
    map.insert(10, "a");
    map.insert(30, "b");
    map.insert(20, "c");
    assert_eq!(map.first_key_value_at_or_after(&15), Some((&20, &"c")));
    assert_eq!(map.first_key_value_at_or_after(&20), Some((&20, &"c")));
    assert_eq!(map.first_key_value_at_or_after(&31), None);
    assert_eq!(map.last_key_value_at_or_before(&25), Some((&20, &"c")));
    assert_eq!(map.last_key_value_at_or_before(&20), Some((&20, &"c")));
    assert_eq!(map.last_key_value_at_or_before(&9), None);
    assert_eq!(map.smallest_geq_than(&21).map(|entry| entry.key), Some(30));
    assert_eq!(map.largest_leq_than(&29).map(|entry| entry.key), Some(20));
    let (_, value) = map.first_key_value_mut_at_or_after(&15).unwrap();
    assert_eq!(*value, "c");
    *value = "d";
    assert_eq!(map.first_key_value_at_or_after(&15), Some((&20, &"d")));
    let (_, value) = map.last_key_value_mut_at_or_before(&25).unwrap();
    assert_eq!(*value, "d");
    *value = "e";
    assert_eq!(map.last_key_value_at_or_before(&25), Some((&20, &"e")));
    assert!(map.first_key_value_mut_at_or_after(&31).is_none());
    assert!(map.last_key_value_mut_at_or_before(&9).is_none());
}

#[test]
fn nearest_search_is_exact_on_every_map() {
    let mut map = AATreeMap::new();
    let mut keys = Vec::new();
    let mut value = 1;
    for _ in 0..120 {
        value = (value * 37 + 5) % 401;
        map.insert(value * 2, ());
        keys.push(value * 2);
    }
    keys.sort();
    keys.dedup();
    for probe in 0..810 {
        let after = keys.iter().find(|key| **key >= probe);
        let before = keys.iter().rev().find(|key| **key <= probe);
        assert_eq!(map.first_key_value_at_or_after(&probe).map(|(key, _)| key), after);
        assert_eq!(map.last_key_value_at_or_before(&probe).map(|(key, _)| key), before);
        let reached = map.first_key_value_mut_at_or_after(&probe).map(|(key, _)| *key);
        assert_eq!(reached, after.copied());
        let reached = map.last_key_value_mut_at_or_before(&probe).map(|(key, _)| *key);
        assert_eq!(reached, before.copied());
    }
}

#[test]
fn mutable_nearest_search_looks_below_a_child_on_the_far_side() {
    let mut map = AATreeMap::new();
    for key in [10, 20, 30, 40, 50, 60, 70] {
        map.insert(key, ());
    }
    // 40 is the root with the left child 20, which has the right child 30
    let reached = map.first_key_value_mut_at_or_after(&25).map(|(key, _)| *key);
    assert_eq!(reached, Some(30));
    assert_eq!(map.first_key_value_at_or_after(&25).map(|(key, _)| *key), Some(30));
    // 40 is the root with the right child 60, which has the left child 50
    let reached = map.last_key_value_mut_at_or_before(&55).map(|(key, _)| *key);
    assert_eq!(reached, Some(50));
    assert_eq!(map.last_key_value_at_or_before(&55).map(|(key, _)| *key), Some(50));
}

#[test]
fn append_moves_everything() {
    let mut a = AATreeMap::new();
    a.insert(1, "a");
    a.insert(2, "b");
    a.insert(3, "c");
    let mut b = AATreeMap::new();
    b.insert(3, "d");
    b.insert(4, "e");
    b.insert(5, "f");
    a.append(&mut b);
    assert_eq!(a.len(), 5);
    assert_eq!(b.len(), 0);
    assert_eq!(a.get(&1), Some(&"a"));
    assert_eq!(a.get(&2), Some(&"b"));
    assert_eq!(a.get(&3), Some(&"d"));
    assert_eq!(a.get(&4), Some(&"e"));
    assert_eq!(a.get(&5), Some(&"f"));
}

#[test]
fn keys_and_values_come_in_key_order() {
    let mut map = AATreeMap::new();
    map.insert(2, "b");
    map.insert(3, "c");
    map.insert(1, "a");
    assert_eq!(map.keys(), vec![&1, &2, &3]);
    assert_eq!(map.values(), vec![&"a", &"b", &"c"]);
    let mut pairs = Vec::new();
    let mut iter = map.iter();
    assert_eq!(iter.size_hint(), (3, Some(3)));
    while let Some(pair) = iter.next() {
        pairs.push(pair);
    }
    assert_eq!(pairs, vec![(&1, &"a"), (&2, &"b"), (&3, &"c")]);
    let mut other = AATreeMap::new();
    other.insert(2, "b");
    other.insert(1, "a");
    assert_eq!(other.into_keys(), vec![1, 2]);
    assert_eq!(map.into_values(), vec!["a", "b", "c"]);
}

#[test]
fn into_iter_hands_out_pairs() {
    let mut map = AATreeMap::new();
    for key in [5, 1, 4, 2, 3] {
        map.insert(key, key * 10);
    }
    let mut iter = map.into_iter();
    let mut pairs = Vec::new();
    while let Some(pair) = iter.next() {
        pairs.push(pair);
    }
    assert_eq!(pairs, vec![(1, 10), (2, 20), (3, 30), (4, 40), (5, 50)]);
    assert_eq!(iter.next(), None);
}

#[test]
fn entry_is_vacant_then_occupied() {
    let mut map = AATreeMap::new();
    let entry = map.entry(1);
    assert!(matches!(entry, Entry::Vacant(_)));
    assert_eq!(*entry.key(), 1);
    entry.or_insert('a');
    assert_eq!(map.get(&1), Some(&'a'));

    let entry = map.entry(1);
    assert!(matches!(entry, Entry::Occupied(_)));
    entry.and_modify(|value| *value = 'b');
    assert_eq!(map.get(&1), Some(&'b'));
    assert_eq!(map.len(), 1);
}

#[test]
fn entry_or_insert_keeps_an_occupied_value() {
    let mut map = AATreeMap::new();
    map.insert(1, 10);
    *map.entry(1).or_insert(20) += 1;
    assert_eq!(map.get(&1), Some(&11));
    *map.entry(2).or_insert(20) += 1;
    assert_eq!(map.get(&2), Some(&21));
    *map.entry(3).or_insert_with(|| 30) += 1;
    assert_eq!(map.get(&3), Some(&31));
    *map.entry(4).or_insert_with_key(|key| key * 10) += 1;
    assert_eq!(map.get(&4), Some(&41));
    *map.entry(5).or_default() += 1;
    assert_eq!(map.get(&5), Some(&1));
    *map.entry(5).or_default() += 1;
    assert_eq!(map.get(&5), Some(&2));
    assert_eq!(map.len(), 5);
}

#[test]
fn vacant_entry_gives_its_key_back() {
    let mut map: AATreeMap<i32, i32> = AATreeMap::new();
    match map.entry(7) {
        Entry::Vacant(vacant) => {
            assert_eq!(*vacant.key(), 7);
            assert_eq!(vacant.into_key(), 7);
        },
        Entry::Occupied(_) => panic!("the map is empty"),
    }
    assert!(map.is_empty());
    match map.entry(7) {
        Entry::Vacant(vacant) => {
            *vacant.insert(1) += 1;
        },
        Entry::Occupied(_) => panic!("the map is empty"),
    }
    match map.entry(7) {
        Entry::Occupied(occupied) => {
            assert_eq!(*occupied.get(), 2);
            *occupied.into_mut() = 3;
        },
        Entry::Vacant(_) => panic!("the key was inserted"),
    }
    assert_eq!(map.get(&7), Some(&3));
}

#[test]
fn entries_compare_by_key() {
    let a = KeyValue { key: 1, value: 'x' };
    let b = KeyValue { key: 1, value: 'y' };
    let c = KeyValue { key: 2, value: 'x' };
    assert!(a == b);
    assert!(a < c);
    assert!(c > b);
    assert!(a == 1);
    assert!(a < 2);
    assert!(c > 1);
    assert_eq!(a.as_tuple(), (&1, &'x'));
    assert_eq!(c.into_tuple(), (2, 'x'));
    let mut d = KeyValue { key: 3, value: 'z' };
    let (key, value) = d.as_tuple_mut();
    assert_eq!(*key, 3);
    *value = 'w';
    assert_eq!(d.value, 'w');
}

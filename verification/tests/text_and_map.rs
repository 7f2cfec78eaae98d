use cepler::ordered_map::OrderedMap;
use cepler::text::{compare_text, same_text, Position};

#[test]
fn compare_orders_by_bytes() {
    assert_eq!(compare_text("a.yml", "b.yml"), Position::Before);
    assert_eq!(compare_text("b.yml", "a.yml"), Position::After);
    assert_eq!(compare_text("a.yml", "a.yml"), Position::Same);
}

#[test]
fn compare_puts_a_prefix_first() {
    assert_eq!(compare_text("dev", "dev-2"), Position::Before);
    assert_eq!(compare_text("dev-2", "dev"), Position::After);
    assert_eq!(compare_text("", "a"), Position::Before);
    assert_eq!(compare_text("", ""), Position::Same);
}

#[test]
fn compare_agrees_with_the_order_of_str() {
    let samples = ["", "a", "B", "ab", "a/b", "a.b", "é", "z", "日本", "~"];
    for a in samples.iter() {
        for b in samples.iter() {
            let expected = if a < b {
                Position::Before
            } else if a > b {
                Position::After
            } else {
                Position::Same
            };
            assert_eq!(compare_text(a, b), expected);
        }
    }
}

#[test]
fn same_text_tells_equal_from_different() {
    assert!(same_text("staging", "staging"));
    assert!(!same_text("staging", "Staging"));
    assert!(!same_text("staging", "stagin"));
}

#[test]
fn map_starts_empty() {
    let map: OrderedMap<u32> = OrderedMap::new();
    assert_eq!(map.len(), 0);
    assert!(map.is_empty());
    assert_eq!(map.get("a"), None);
    assert!(!map.contains_key("a"));
}

#[test]
fn map_walks_keys_in_ascending_order() {
    let mut map: OrderedMap<u32> = OrderedMap::new();
    assert_eq!(map.insert("c".to_string(), 3), None);
    assert_eq!(map.insert("a".to_string(), 1), None);
    assert_eq!(map.insert("b".to_string(), 2), None);
    assert_eq!(map.len(), 3);
    assert!(!map.is_empty());
    assert_eq!(map.keys(), &vec!["a".to_string(), "b".to_string(), "c".to_string()]);
    assert_eq!(map.key_at(0), "a");
    assert_eq!(map.key_at(2), "c");
    assert_eq!(*map.value_at(0), 1);
    assert_eq!(*map.value_at(1), 2);
    assert_eq!(*map.value_at(2), 3);
    assert_eq!(map.position("b"), Some(1));
    assert_eq!(map.position("d"), None);
}

#[test]
fn map_insert_replaces_and_hands_back_the_old_value() {
    let mut map: OrderedMap<u32> = OrderedMap::new();
    map.insert("a".to_string(), 1);
    map.insert("b".to_string(), 2);
    assert_eq!(map.insert("a".to_string(), 10), Some(1));
    assert_eq!(map.len(), 2);
    assert_eq!(map.get("a"), Some(&10));
    assert_eq!(map.get("b"), Some(&2));
    assert!(map.contains_key("a"));
}

#[test]
fn map_value_can_be_changed_in_place() {
    let mut map: OrderedMap<u32> = OrderedMap::new();
    map.insert("a".to_string(), 1);
    map.insert("b".to_string(), 2);
    *map.value_at_mut(1) = 20;
    assert_eq!(map.get("b"), Some(&20));
    assert_eq!(map.get("a"), Some(&1));
}

#[test]
fn map_gives_its_parts_in_order() {
    let mut map: OrderedMap<u32> = OrderedMap::new();
    map.insert("b".to_string(), 2);
    map.insert("a".to_string(), 1);
    let (keys, values) = map.into_parts();
    assert_eq!(keys, vec!["a".to_string(), "b".to_string()]);
    assert_eq!(values, vec![1, 2]);
}

#[test]
fn maps_with_the_same_entries_are_equal() {
    let mut one: OrderedMap<u32> = OrderedMap::new();
    one.insert("a".to_string(), 1);
    one.insert("b".to_string(), 2);
    let mut other: OrderedMap<u32> = OrderedMap::new();
    other.insert("b".to_string(), 2);
    other.insert("a".to_string(), 1);
    assert_eq!(one, other);
}

use statustracker::category::CategoryMap;
use std::collections::HashSet;

fn set_of(members: &[usize]) -> HashSet<usize> {
    members.iter().copied().collect()
}

#[test]
fn empty_category_map() {
    let map: CategoryMap<HashSet<usize>> = CategoryMap::new();
    assert_eq!(map.len(), 0);
    assert!(map.is_empty());
    assert_eq!(map.get(&"staff".to_string()), None);
    assert!(!map.contains_key(&"staff".to_string()));
    assert_eq!(map, CategoryMap::default());
}

#[test]
fn insert_then_get() {
    let mut map = CategoryMap::new();
    map.insert("staff".to_string(), set_of(&[1, 2]));
    map.insert("guest".to_string(), set_of(&[3]));
    assert_eq!(map.len(), 2);
    assert!(!map.is_empty());
    assert_eq!(map.get(&"staff".to_string()), Some(&set_of(&[1, 2])));
    assert_eq!(map.members(&"guest".to_string()), Some(&set_of(&[3])));
    assert_eq!(map.get(&"vip".to_string()), None);
    assert_eq!(map.position(&"staff".to_string()), Some(0));
    assert_eq!(map.position(&"guest".to_string()), Some(1));
    assert_eq!(map.position(&"vip".to_string()), None);
    assert_eq!(map.name(1), "guest");
    assert_eq!(map.value(1), &set_of(&[3]));
}

#[test]
fn insert_replaces_what_was_there() {
    let mut map = CategoryMap::new();
    map.insert("staff".to_string(), 1u32);
    map.insert("guest".to_string(), 2u32);
    map.insert("staff".to_string(), 3u32);
    assert_eq!(map.len(), 2);
    assert_eq!(map.get(&"staff".to_string()), Some(&3));
    assert_eq!(map.get(&"guest".to_string()), Some(&2));
    assert_eq!(map.name(0), "staff");
}

#[test]
fn equality_ignores_the_order_of_entries() {
    let mut a = CategoryMap::new();
    a.insert("staff".to_string(), set_of(&[1, 2]));
    a.insert("guest".to_string(), set_of(&[3]));
    let mut b = CategoryMap::new();
    b.insert("guest".to_string(), set_of(&[3]));
    b.insert("staff".to_string(), set_of(&[2, 1]));
    assert_eq!(a, b);
    assert_eq!(a.clone(), a);
}

#[test]
fn equality_sees_labels_and_members() {
    let mut a = CategoryMap::new();
    a.insert("staff".to_string(), set_of(&[1, 2]));
    let mut other_members = CategoryMap::new();
    other_members.insert("staff".to_string(), set_of(&[1]));
    let mut other_label = CategoryMap::new();
    other_label.insert("guest".to_string(), set_of(&[1, 2]));
    let mut more = a.clone();
    more.insert("guest".to_string(), set_of(&[]));
    assert_ne!(a, other_members);
    assert_ne!(a, other_label);
    assert_ne!(a, more);
    assert_ne!(more, a);
}

use kai::name_map::NameMap;

#[test]
fn a_new_map_is_empty() {
    let m: NameMap<u32> = NameMap::new();
    assert_eq!(m.len(), 0);
    assert!(m.is_empty());
    assert!(!m.contains_key("a"));
    assert!(m.get("a").is_none());
    assert!(m.keys().is_empty());
}

#[test]
fn names_keep_their_order_of_arrival() {
    let mut m: NameMap<u32> = NameMap::new();
    assert_eq!(m.insert("pear".to_string(), 1), None);
    assert_eq!(m.insert("apple".to_string(), 2), None);
    assert_eq!(m.insert("fig".to_string(), 3), None);
    assert_eq!(m.len(), 3);
    assert!(!m.is_empty());
    assert_eq!(m.keys(), vec!["pear", "apple", "fig"]);
    assert_eq!(m.name_at(1), "apple");
    assert_eq!(*m.value_at(1), 2);
    assert_eq!(m.get("fig"), Some(&3));
    assert_eq!(m.get("plum"), None);
    assert!(m.contains_key("pear"));
    assert!(!m.contains_key("pea"));
    assert!(!m.contains_key(""));
}

#[test]
fn inserting_under_a_known_name_replaces_in_place() {
    let mut m: NameMap<u32> = NameMap::new();
    m.insert("pear".to_string(), 1);
    m.insert("apple".to_string(), 2);
    assert_eq!(m.insert("pear".to_string(), 10), Some(1));
    assert_eq!(m.len(), 2);
    assert_eq!(m.keys(), vec!["pear", "apple"]);
    assert_eq!(m.get("pear"), Some(&10));
    assert_eq!(m.get("apple"), Some(&2));
    assert_eq!(*m.value_at(0), 10);
}

#[test]
fn a_value_is_changed_through_its_borrow() {
    let mut m: NameMap<Vec<u32>> = NameMap::new();
    m.insert("a".to_string(), vec![1]);
    m.insert("b".to_string(), vec![]);
    m.get_mut("a").push(2);
    m.get_mut("b").push(7);
    assert_eq!(m.get("a"), Some(&vec![1, 2]));
    assert_eq!(m.get("b"), Some(&vec![7]));
    assert_eq!(m.keys(), vec!["a", "b"]);
}

#[test]
fn get_or_insert_creates_only_what_is_missing() {
    let mut m: NameMap<Vec<u32>> = NameMap::new();
    m.get_or_insert("a", vec![]).push(1);
    m.get_or_insert("a", vec![99]).push(2);
    m.get_or_insert("b", vec![5]).push(6);
    assert_eq!(m.len(), 2);
    assert_eq!(m.get("a"), Some(&vec![1, 2]));
    assert_eq!(m.get("b"), Some(&vec![5, 6]));
    assert_eq!(m.keys(), vec!["a", "b"]);
}

#[test]
fn maps_nest() {
    let mut outer: NameMap<NameMap<u32>> = NameMap::new();
    outer.get_or_insert("x", NameMap::new()).insert("one".to_string(), 1);
    outer.get_or_insert("x", NameMap::new()).insert("two".to_string(), 2);
    outer.get_or_insert("y", NameMap::new()).insert("one".to_string(), 3);
    assert_eq!(outer.len(), 2);
    assert_eq!(outer.get("x").unwrap().keys(), vec!["one", "two"]);
    assert_eq!(outer.get("y").unwrap().get("one"), Some(&3));
    *outer.get_mut("x").get_mut("two") += 40;
    assert_eq!(outer.get("x").unwrap().get("two"), Some(&42));
}

use nir::table::ContentTable;

#[test]
fn declared_keys_can_precede_resident_values() {
    let t: ContentTable<u32> = ContentTable::from_index(vec!["a".to_string(), "b".to_string()]);
    assert_eq!(t.len(), 2);
    assert!(t.contains_key("a"));
    assert!(t.get("a").is_none());
    let t = t.with_values(vec![("a".to_string(), 1), ("c".to_string(), 3), ("a".to_string(), 2)]);
    assert_eq!(t.get("a"), Some(&2));
    assert_eq!(t.get("c"), Some(&3));
    assert!(t.contains_key("c"));
    assert_eq!(t.len(), 3);
    let t = t.without_values(&vec!["a".to_string()]);
    assert!(t.get("a").is_none());
    assert!(t.contains_key("a"));
    assert_eq!(t.values(), vec![&3]);
    assert_eq!(t.iter(), vec![(&"c".to_string(), &3)]);
}

#[test]
fn owned_tables_declare_their_entries() {
    let t = ContentTable::from_owned(vec![("x".to_string(), "one".to_string())]);
    assert_eq!(t.keys(), &vec!["x".to_string()]);
    assert_eq!(t.get("x").unwrap(), "one");
    assert!(!t.is_empty());
    let e: ContentTable<u8> = ContentTable::empty();
    assert!(e.is_empty());
}

#[test]
fn resident_entries_come_in_key_order() {
    let t = ContentTable::from_owned(vec![("b".to_string(), 2), ("c".to_string(), 3), ("a".to_string(), 1)]);
    assert_eq!(t.values(), vec![&1, &2, &3]);
    let keys: Vec<&String> = t.iter().into_iter().map(|(k, _)| k).collect();
    assert_eq!(keys, vec!["a", "b", "c"]);
}

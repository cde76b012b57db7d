use serve_yew::table::Table;

#[test]
fn table_lookup() {
    let mut t: Table<u32> = Table::new();
    assert_eq!(t.len(), 0);
    assert_eq!(t.get("a"), None);
    assert!(!t.contains("a"));
    t.insert("a".to_string(), 1);
    t.insert("b".to_string(), 2);
    assert_eq!(t.get("a"), Some(&1));
    assert_eq!(t.get("b"), Some(&2));
    assert_eq!(t.get("c"), None);
    assert!(t.contains("b"));
    assert_eq!(t.len(), 2);
    assert_eq!(t.name(0), "a");
    assert_eq!(t.name(1), "b");
}

#[test]
fn later_insertion_replaces_earlier() {
    let mut t: Table<u32> = Table::new();
    t.insert("a".to_string(), 1);
    t.insert("b".to_string(), 2);
    t.insert("a".to_string(), 3);
    assert_eq!(t.get("a"), Some(&3));
    assert_eq!(t.get("b"), Some(&2));
}

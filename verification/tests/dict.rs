use semantix::Dict;

#[test]
fn new_dict_is_empty() {
    let d: Dict<u32> = Dict::new();
    assert!(d.is_empty());
    assert_eq!(d.len(), 0);
    assert!(d.get("a").is_none());
    assert!(!d.contains_key("a"));
}

#[test]
fn insert_then_get() {
    let mut d: Dict<u32> = Dict::new();
    d.insert("a".to_string(), 1);
    d.insert("b".to_string(), 2);
    assert!(!d.is_empty());
    assert_eq!(d.len(), 2);
    assert_eq!(d.get("a"), Some(&1));
    assert_eq!(d.get("b"), Some(&2));
    assert_eq!(d.get("c"), None);
    assert!(d.contains_key("b"));
    assert!(!d.contains_key("c"));
}

#[test]
fn insert_replaces_value_under_same_name() {
    let mut d: Dict<u32> = Dict::new();
    d.insert("a".to_string(), 1);
    d.insert("b".to_string(), 2);
    d.insert("a".to_string(), 3);
    assert_eq!(d.len(), 2);
    assert_eq!(d.get("a"), Some(&3));
    assert_eq!(d.get("b"), Some(&2));
}

#[test]
fn with_returns_extended_dict() {
    let d: Dict<&str> = Dict::new().with("x".to_string(), "one").with("y".to_string(), "two");
    assert_eq!(d.len(), 2);
    assert_eq!(d.get("x"), Some(&"one"));
    let d = d.with("x".to_string(), "three");
    assert_eq!(d.len(), 2);
    assert_eq!(d.get("x"), Some(&"three"));
    assert_eq!(d.get("y"), Some(&"two"));
}

#[test]
fn names_are_compared_exactly() {
    let mut d: Dict<u32> = Dict::new();
    d.insert("@a".to_string(), 1);
    assert!(d.contains_key("@a"));
    assert!(!d.contains_key("a"));
    assert!(!d.contains_key("@A"));
    assert!(!d.contains_key(""));
    d.insert(String::new(), 7);
    assert_eq!(d.get(""), Some(&7));
    assert_eq!(d.len(), 2);
}

#[test]
fn names_lists_each_name_once() {
    let mut d: Dict<u32> = Dict::new();
    assert!(d.names().is_empty());
    d.insert("b".to_string(), 1);
    d.insert("a".to_string(), 2);
    d.insert("b".to_string(), 3);
    let mut names = d.names();
    names.sort();
    assert_eq!(names, vec!["a".to_string(), "b".to_string()]);
}

#[test]
fn into_entries_hands_out_every_entry() {
    let mut d: Dict<u32> = Dict::new();
    d.insert("b".to_string(), 1);
    d.insert("a".to_string(), 2);
    d.insert("b".to_string(), 3);
    let mut entries = d.into_entries();
    entries.sort();
    assert_eq!(entries, vec![("a".to_string(), 2), ("b".to_string(), 3)]);
}

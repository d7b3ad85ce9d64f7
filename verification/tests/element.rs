use semantix::{classify, decode_element, Slot};
use serde_json::Value;

fn text(s: &str) -> Value {
    Value::String(s.to_string())
}

fn member(name: &str, value: Value) -> (String, Value) {
    (name.to_string(), value)
}

#[test]
fn classify_routes_names() {
    assert_eq!(classify("@deprecated"), Slot::Annotation);
    assert_eq!(classify("@"), Slot::Annotation);
    assert_eq!(classify("@type"), Slot::Annotation);
    assert_eq!(classify("@key"), Slot::Annotation);
    assert_eq!(classify("type"), Slot::Type);
    assert_eq!(classify("key"), Slot::Key);
    assert_eq!(classify(""), Slot::Other);
    assert_eq!(classify("Type"), Slot::Other);
    assert_eq!(classify("keys"), Slot::Other);
    assert_eq!(classify("typ"), Slot::Other);
    assert_eq!(classify("a@"), Slot::Other);
    assert_eq!(classify("kind"), Slot::Other);
}

#[test]
fn element_with_type_only() {
    let el = decode_element(&vec![member("type", text("string"))]).unwrap();
    assert_eq!(el.element_type, "string");
    assert!(!el.key);
    assert!(el.annotations.is_empty());
}

#[test]
fn element_with_all_parts() {
    let mut nested = serde_json::Map::new();
    nested.insert("since".to_string(), Value::from(3));
    let members = vec![
        member("@doc", text("the identifier")),
        member("key", Value::Bool(true)),
        member("type", text("uuid")),
        member("@meta", Value::Object(nested.clone())),
        member("@tags", Value::Array(vec![text("a"), Value::Null])),
    ];
    let el = decode_element(&members).unwrap();
    assert!(el.key);
    assert_eq!(el.element_type, "uuid");
    assert_eq!(el.annotations.len(), 3);
    assert_eq!(el.annotations.get("@doc"), Some(&text("the identifier")));
    assert_eq!(el.annotations.get("@meta"), Some(&Value::Object(nested)));
    assert_eq!(el.annotations.get("@tags"), Some(&Value::Array(vec![text("a"), Value::Null])));
}

#[test]
fn element_without_type_is_refused() {
    let err = decode_element(&vec![member("key", Value::Bool(true))]).unwrap_err();
    assert_eq!(err.to_string(), "missing field `type`");
    assert!(err.is_data());
}

#[test]
fn element_without_members_is_refused() {
    let err = decode_element(&Vec::new()).unwrap_err();
    assert_eq!(err.to_string(), "missing field `type`");
}

#[test]
fn element_with_empty_type_is_refused() {
    let err = decode_element(&vec![member("type", text(""))]).unwrap_err();
    assert_eq!(err.to_string(), "missing field `type`");
}

#[test]
fn element_whose_last_type_is_empty_is_refused() {
    let members = vec![member("type", text("string")), member("type", text(""))];
    let err = decode_element(&members).unwrap_err();
    assert_eq!(err.to_string(), "missing field `type`");
}

#[test]
fn later_type_replaces_earlier_type() {
    let members = vec![member("type", text("")), member("type", text("int"))];
    let el = decode_element(&members).unwrap();
    assert_eq!(el.element_type, "int");
}

#[test]
fn later_key_replaces_earlier_key() {
    let members = vec![
        member("key", Value::Bool(true)),
        member("type", text("int")),
        member("key", Value::Bool(false)),
    ];
    let el = decode_element(&members).unwrap();
    assert!(!el.key);
}

#[test]
fn key_defaults_to_false() {
    let members = vec![member("type", text("int")), member("@a", Value::Bool(true))];
    let el = decode_element(&members).unwrap();
    assert!(!el.key);
}

#[test]
fn annotation_keeps_its_name_and_value() {
    let members = vec![member("type", text("int")), member("@deprecated", Value::Bool(true))];
    let el = decode_element(&members).unwrap();
    assert_eq!(el.annotations.len(), 1);
    assert_eq!(el.annotations.get("@deprecated"), Some(&Value::Bool(true)));
    assert!(el.annotations.get("deprecated").is_none());
    assert_eq!(el.element_type, "int");
    assert!(!el.key);
}

#[test]
fn annotation_named_like_a_fixed_field_stays_an_annotation() {
    let members = vec![
        member("@type", text("shadow")),
        member("@key", Value::Bool(true)),
        member("type", text("int")),
    ];
    let el = decode_element(&members).unwrap();
    assert_eq!(el.element_type, "int");
    assert!(!el.key);
    assert_eq!(el.annotations.get("@type"), Some(&text("shadow")));
    assert_eq!(el.annotations.get("@key"), Some(&Value::Bool(true)));
}

#[test]
fn repeated_annotation_keeps_last_value() {
    let members = vec![
        member("@a", Value::from(1)),
        member("type", text("int")),
        member("@b", Value::from(5)),
        member("@a", Value::from(2)),
    ];
    let el = decode_element(&members).unwrap();
    assert_eq!(el.annotations.len(), 2);
    assert_eq!(el.annotations.get("@a"), Some(&Value::from(2)));
    assert_eq!(el.annotations.get("@b"), Some(&Value::from(5)));
}

#[test]
fn unknown_members_are_passed_over() {
    let members = vec![
        member("label", text("x")),
        member("type", text("int")),
        member("", Value::Null),
        member("Type", text("other")),
        member("kind", text("type")),
    ];
    let el = decode_element(&members).unwrap();
    assert_eq!(el.element_type, "int");
    assert!(!el.key);
    assert!(el.annotations.is_empty());
}

#[test]
fn type_that_is_no_string_is_refused() {
    let err = decode_element(&vec![member("type", Value::from(5))]).unwrap_err();
    assert!(err.to_string().starts_with("invalid type"));
    assert!(err.to_string().contains("expected a string"));
}

#[test]
fn key_that_is_no_boolean_is_refused() {
    let members = vec![member("type", text("int")), member("key", text("yes"))];
    let err = decode_element(&members).unwrap_err();
    assert!(err.to_string().starts_with("invalid type"));
    assert!(err.to_string().contains("expected a boolean"));
}

#[test]
fn first_failing_member_gives_the_error() {
    let members = vec![member("key", Value::Null), member("type", Value::from(1))];
    let err = decode_element(&members).unwrap_err();
    assert!(err.to_string().contains("expected a boolean"));
    let members = vec![member("type", Value::from(1)), member("key", Value::Null)];
    let err = decode_element(&members).unwrap_err();
    assert!(err.to_string().contains("expected a string"));
}

#[test]
fn failing_member_wins_over_missing_type() {
    let err = decode_element(&vec![member("key", Value::from(5))]).unwrap_err();
    assert!(err.to_string().contains("expected a boolean"));
}

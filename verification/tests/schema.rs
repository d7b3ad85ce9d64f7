use semantix::{
    decode_definition, decode_document, decode_entity, decode_model, Definition, Kind,
};
use serde_json::Value;

fn text(s: &str) -> Value {
    Value::String(s.to_string())
}

fn member(name: &str, value: Value) -> (String, Value) {
    (name.to_string(), value)
}

fn object(members: Vec<(String, Value)>) -> Value {
    let mut map = serde_json::Map::new();
    for (name, value) in members {
        map.insert(name, value);
    }
    Value::Object(map)
}

fn simple_element(of: &str) -> Value {
    object(vec![member("type", text(of))])
}

#[test]
fn kind_from_tag_knows_two_tags() {
    assert_eq!(Kind::from_tag("entity"), Some(Kind::Entity));
    assert_eq!(Kind::from_tag("type"), Some(Kind::Type));
    assert_eq!(Kind::from_tag("Entity"), None);
    assert_eq!(Kind::from_tag(""), None);
    assert_eq!(Kind::from_tag("entity "), None);
    assert_eq!(Kind::from_tag("types"), None);
}

#[test]
fn entity_with_two_elements() {
    let elements = object(vec![
        member("id", object(vec![member("type", text("uuid")), member("key", Value::Bool(true))])),
        member("name", simple_element("string")),
    ]);
    let entity = decode_entity(&vec![member("elements", elements)]).unwrap();
    assert_eq!(entity.elements.len(), 2);
    let id = entity.elements.get("id").unwrap();
    assert!(id.key);
    assert_eq!(id.element_type, "uuid");
    let name = entity.elements.get("name").unwrap();
    assert!(!name.key);
    assert_eq!(name.element_type, "string");
}

#[test]
fn entity_without_elements_member_is_refused() {
    let err = decode_entity(&vec![member("other", Value::Null)]).unwrap_err();
    assert_eq!(err.to_string(), "missing field `elements`");
}

#[test]
fn entity_with_empty_elements_is_empty() {
    let entity = decode_entity(&vec![member("elements", object(Vec::new()))]).unwrap();
    assert!(entity.elements.is_empty());
}

#[test]
fn entity_with_second_elements_member_is_refused() {
    let members =
        vec![member("elements", object(Vec::new())), member("elements", object(Vec::new()))];
    let err = decode_entity(&members).unwrap_err();
    assert_eq!(err.to_string(), "duplicate field `elements`");
}

#[test]
fn entity_reports_failing_first_elements_before_the_duplicate() {
    let members = vec![member("elements", Value::from(1)), member("elements", object(Vec::new()))];
    let err = decode_entity(&members).unwrap_err();
    assert!(err.to_string().starts_with("invalid type"));
}

#[test]
fn entity_elements_must_be_a_map() {
    let err = decode_entity(&vec![member("elements", Value::Array(Vec::new()))]).unwrap_err();
    assert!(err.to_string().starts_with("invalid type"));
    assert!(err.to_string().contains("expected a map"));
}

#[test]
fn entity_element_must_be_a_map() {
    let elements = object(vec![member("id", text("uuid"))]);
    let err = decode_entity(&vec![member("elements", elements)]).unwrap_err();
    assert!(err.to_string().contains("expected a map"));
}

#[test]
fn entity_with_element_lacking_type_is_refused() {
    let elements = object(vec![
        member("a", simple_element("int")),
        member("b", object(vec![member("key", Value::Bool(true))])),
    ]);
    let err = decode_entity(&vec![member("elements", elements)]).unwrap_err();
    assert_eq!(err.to_string(), "missing field `type`");
}

#[test]
fn entity_passes_over_other_members() {
    let members = vec![
        member("kind", text("entity")),
        member("comment", text("x")),
        member("elements", object(vec![member("a", simple_element("int"))])),
    ];
    let entity = decode_entity(&members).unwrap();
    assert_eq!(entity.elements.len(), 1);
}

#[test]
fn definition_of_kind_entity() {
    let members = vec![
        member("kind", text("entity")),
        member("elements", object(vec![member("a", simple_element("int"))])),
    ];
    match decode_definition(&members).unwrap() {
        Definition::Entity(entity) => {
            assert_eq!(entity.elements.len(), 1);
            assert_eq!(entity.elements.get("a").unwrap().element_type, "int");
        }
        Definition::Type(_) => panic!("an entity was expected"),
    }
}

#[test]
fn definition_of_kind_type() {
    let members = vec![
        member("type", text("string")),
        member("@max", Value::from(10)),
        member("kind", text("type")),
    ];
    match decode_definition(&members).unwrap() {
        Definition::Type(element) => {
            assert_eq!(element.element_type, "string");
            assert!(!element.key);
            assert_eq!(element.annotations.len(), 1);
            assert_eq!(element.annotations.get("@max"), Some(&Value::from(10)));
        }
        Definition::Entity(_) => panic!("an element was expected"),
    }
}

#[test]
fn definition_of_kind_type_needs_a_type() {
    let err = decode_definition(&vec![member("kind", text("type"))]).unwrap_err();
    assert_eq!(err.to_string(), "missing field `type`");
}

#[test]
fn definition_without_kind_is_refused() {
    let members = vec![member("elements", object(Vec::new()))];
    let err = decode_definition(&members).unwrap_err();
    assert_eq!(err.to_string(), "missing field `kind`");
}

#[test]
fn definition_with_unknown_kind_is_refused() {
    let members = vec![member("kind", text("view")), member("elements", object(Vec::new()))];
    let err = decode_definition(&members).unwrap_err();
    assert_eq!(err.to_string(), "unknown variant `view`, expected `entity` or `type`");
}

#[test]
fn definition_kind_is_case_sensitive() {
    let members = vec![member("kind", text("Entity")), member("elements", object(Vec::new()))];
    let err = decode_definition(&members).unwrap_err();
    assert_eq!(err.to_string(), "unknown variant `Entity`, expected `entity` or `type`");
}

#[test]
fn definition_kind_must_be_a_string() {
    let members = vec![member("kind", Value::from(0)), member("elements", object(Vec::new()))];
    let err = decode_definition(&members).unwrap_err();
    assert!(err.to_string().contains("expected a string"));
}

#[test]
fn definition_with_second_kind_is_refused() {
    let members = vec![
        member("kind", text("entity")),
        member("elements", object(Vec::new())),
        member("kind", text("entity")),
    ];
    let err = decode_definition(&members).unwrap_err();
    assert_eq!(err.to_string(), "duplicate field `kind`");
}

#[test]
fn definition_reports_kind_before_content() {
    let members = vec![member("elements", Value::from(1)), member("kind", text("nothing"))];
    let err = decode_definition(&members).unwrap_err();
    assert_eq!(err.to_string(), "unknown variant `nothing`, expected `entity` or `type`");
}

#[test]
fn model_with_definitions() {
    let person = object(vec![
        member("kind", text("entity")),
        member("elements", object(vec![member("id", simple_element("uuid"))])),
    ]);
    let name = object(vec![member("kind", text("type")), member("type", text("string"))]);
    let definitions = object(vec![member("Person", person), member("Name", name)]);
    let model = decode_model(&vec![member("definitions", definitions)]).unwrap();
    assert_eq!(model.definitions.len(), 2);
    assert!(matches!(model.definitions.get("Person"), Some(Definition::Entity(_))));
    assert!(matches!(model.definitions.get("Name"), Some(Definition::Type(_))));
    assert!(model.definitions.get("person").is_none());
}

#[test]
fn model_without_definitions_is_refused() {
    let err = decode_model(&Vec::new()).unwrap_err();
    assert_eq!(err.to_string(), "missing field `definitions`");
}

#[test]
fn model_with_second_definitions_is_refused() {
    let members =
        vec![member("definitions", object(Vec::new())), member("definitions", object(Vec::new()))];
    let err = decode_model(&members).unwrap_err();
    assert_eq!(err.to_string(), "duplicate field `definitions`");
}

#[test]
fn model_definition_must_be_a_map() {
    let definitions = object(vec![member("Person", Value::Bool(true))]);
    let err = decode_model(&vec![member("definitions", definitions)]).unwrap_err();
    assert!(err.to_string().contains("expected a map"));
}

#[test]
fn document_must_be_a_map() {
    let err = decode_document(&Value::Array(Vec::new())).unwrap_err();
    assert!(err.to_string().contains("expected a map"));
    let err = decode_document(&Value::Null).unwrap_err();
    assert!(err.to_string().contains("expected a map"));
}

#[test]
fn document_with_empty_definitions() {
    let doc = object(vec![member("definitions", object(Vec::new())), member("version", text("1"))]);
    let model = decode_document(&doc).unwrap();
    assert!(model.definitions.is_empty());
}

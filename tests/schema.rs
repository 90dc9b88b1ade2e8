use cypher_rs::schema::{FieldType, SchemaAnalyzer, SchemaError};
use cypher_rs::value::{JsonNumber, JsonValue};

fn s(x: &str) -> JsonValue {
    JsonValue::String(x.to_string())
}

fn n(x: i64) -> JsonValue {
    JsonValue::Number(JsonNumber::Int(x))
}

fn obj(entries: Vec<(&str, JsonValue)>) -> JsonValue {
    JsonValue::Object(entries.into_iter().map(|(k, v)| (k.to_string(), v)).collect())
}

fn arr(items: Vec<JsonValue>) -> JsonValue {
    JsonValue::Array(items)
}

fn ids(list: &[&str]) -> JsonValue {
    arr(list.iter().map(|x| s(x)).collect())
}

#[test]
fn test_analyze_simple_users() {
    let data = obj(vec![(
        "users",
        arr(vec![
            obj(vec![("id", s("1")), ("role", s("admin")), ("age", n(30))]),
            obj(vec![("id", s("2")), ("role", s("user")), ("age", n(25))]),
        ]),
    )]);
    let result = SchemaAnalyzer::analyze(&data).unwrap();
    assert_eq!(result.array_schemas.len(), 1);
    assert!(result.primary_recommendation.is_some());
    let schema = &result.primary_recommendation.as_ref().unwrap();
    assert_eq!(schema.path, "users");
    assert_eq!(schema.recommended_id_field, Some("id".to_string()));
    assert_eq!(schema.recommended_label_field, Some("role".to_string()));
}

#[test]
fn test_analyze_with_relations() {
    let data = obj(vec![(
        "users",
        arr(vec![
            obj(vec![("id", s("1")), ("name", s("Alice")), ("friends", ids(&["2", "3"]))]),
            obj(vec![("id", s("2")), ("name", s("Bob")), ("friends", ids(&["1"]))]),
        ]),
    )]);
    let result = SchemaAnalyzer::analyze(&data).unwrap();
    let schema = &result.primary_recommendation.as_ref().unwrap();
    assert_eq!(schema.recommended_id_field, Some("id".to_string()));
    assert!(schema.recommended_relation_fields.contains(&"friends".to_string()));
}

#[test]
fn test_infer_graph_config() {
    let data = obj(vec![(
        "users",
        arr(vec![
            obj(vec![("id", s("1")), ("role", s("admin")), ("friends", ids(&["2"]))]),
            obj(vec![("id", s("2")), ("role", s("user")), ("friends", ids(&["1"]))]),
        ]),
    )]);
    let config = SchemaAnalyzer::infer_graph_config(&data).unwrap();
    assert_eq!(config.node_path, "users");
    assert_eq!(config.id_field, "id");
    assert_eq!(config.label_field, Some("role".to_string()));
    assert_eq!(config.relation_fields, vec!["friends"]);
}

#[test]
fn test_nested_path() {
    let data = obj(vec![(
        "data",
        obj(vec![(
            "users",
            arr(vec![obj(vec![("id", s("1")), ("type", s("Person"))])]),
        )]),
    )]);
    let result = SchemaAnalyzer::analyze(&data).unwrap();
    let schema = &result.primary_recommendation.as_ref().unwrap();
    assert_eq!(schema.path, "data.users");
    assert_eq!(schema.recommended_id_field, Some("id".to_string()));
    assert_eq!(schema.recommended_label_field, Some("type".to_string()));
}

#[test]
fn test_multiple_arrays() {
    let data = obj(vec![
        ("users", arr(vec![obj(vec![("id", s("1")), ("role", s("admin"))])])),
        ("posts", arr(vec![obj(vec![("id", s("p1")), ("author_id", s("1"))])])),
    ]);
    let result = SchemaAnalyzer::analyze(&data).unwrap();
    assert_eq!(result.array_schemas.len(), 2);
    let primary = result.primary_recommendation.as_ref().unwrap();
    assert_eq!(primary.path, "users");
}

#[test]
fn test_empty_json() {
    let data = obj(vec![]);
    let result = SchemaAnalyzer::analyze(&data);
    assert!(result.is_err());
}

#[test]
fn test_no_id_field() {
    let data = obj(vec![(
        "items",
        arr(vec![obj(vec![("name", s("Alice"))]), obj(vec![("name", s("Bob"))])]),
    )]);
    let result = SchemaAnalyzer::analyze(&data).unwrap();
    let schema = &result.primary_recommendation.as_ref().unwrap();
    assert_eq!(schema.path, "items");
}

#[test]
fn field_classification() {
    let data = obj(vec![(
        "things",
        arr(vec![
            obj(vec![("id", s("a")), ("kind", s("x")), ("n", n(1)), ("links", arr(vec![n(2)])), ("mixed", n(1))]),
            obj(vec![("id", s("b")), ("kind", s("x")), ("n", n(2)), ("links", arr(vec![])), ("mixed", s("t"))]),
            obj(vec![("id", s("c")), ("kind", s("y")), ("n", n(3)), ("mixed", JsonValue::Bool(true))]),
        ]),
    )]);
    let result = SchemaAnalyzer::analyze(&data).unwrap();
    let schema = result.primary_recommendation.as_ref().unwrap();
    assert_eq!(schema.element_count, 3);
    let field = |name: &str| schema.fields.iter().find(|f| f.name == name).unwrap();
    assert!(field("id").is_id_candidate);
    assert!(field("kind").is_label_candidate);
    assert_eq!(field("n").field_type, FieldType::Number);
    assert_eq!(field("mixed").field_type, FieldType::String);
    assert!(field("links").is_relation_candidate);
    assert_eq!(schema.recommended_relation_fields, vec!["links".to_string()]);
    assert_eq!(schema.fields.last().unwrap().name, "links");
    assert_eq!(FieldType::Boolean.name(), "BOOLEAN");
}

#[test]
fn primary_needs_a_non_negative_score() {
    let data = obj(vec![(
        "a",
        obj(vec![("b", obj(vec![("c", arr(vec![n(1)]))]))]),
    )]);
    let result = SchemaAnalyzer::analyze(&data).unwrap();
    assert_eq!(result.array_schemas.len(), 1);
    assert!(result.primary_recommendation.is_none());
    assert_eq!(result.to_pattern(), "(:{c:id})");
    assert!(result.to_graph_config().is_none());
    assert!(result.to_graph_configs().is_empty());
    assert!(matches!(
        SchemaAnalyzer::infer_graph_config(&data),
        Err(SchemaError::InvalidJson(_))
    ));
}

use cypher_rs::schema::SchemaAnalyzer;
use cypher_rs::value::{JsonNumber, JsonValue};
use cypher_rs::{CypherEngine, GraphConfig};

fn s(x: &str) -> JsonValue {
    JsonValue::String(x.to_string())
}

fn n(x: i64) -> JsonValue {
    JsonValue::Number(JsonNumber::Int(x))
}

fn b(x: bool) -> JsonValue {
    JsonValue::Bool(x)
}

fn obj(entries: Vec<(&str, JsonValue)>) -> JsonValue {
    JsonValue::Object(entries.into_iter().map(|(k, v)| (k.to_string(), v)).collect())
}

fn arr(items: Vec<JsonValue>) -> JsonValue {
    JsonValue::Array(items)
}

fn ids(list: &[&str]) -> JsonValue {
    arr(list.iter().map(|x| s(x)).collect())
}

fn role_config(path: &str) -> GraphConfig {
    GraphConfig {
        node_path: path.to_string(),
        id_field: "id".to_string(),
        label_field: Some("role".to_string()),
        relation_fields: vec![],
    }
}

fn three_users() -> JsonValue {
    obj(vec![(
        "users",
        arr(vec![
            obj(vec![("id", s("1")), ("role", s("admin")), ("age", n(30))]),
            obj(vec![("id", s("2")), ("role", s("user")), ("age", n(25))]),
            obj(vec![("id", s("3")), ("role", s("admin")), ("age", n(35))]),
        ]),
    )])
}

fn single(engine: &CypherEngine, q: &str) -> Option<i64> {
    engine.execute(q).unwrap().get_single_value().unwrap().as_i64()
}

#[test]
fn test_basic_count() {
    let engine = CypherEngine::from_json(&three_users(), role_config("users")).unwrap();
    assert_eq!(single(&engine, "MATCH (u) RETURN COUNT(u)"), Some(3));
    assert_eq!(single(&engine, "MATCH (u:admin) RETURN COUNT(u)"), Some(2));
    assert_eq!(single(&engine, "MATCH (u:user) RETURN COUNT(u)"), Some(1));
}

#[test]
fn test_basic_sum() {
    let engine = CypherEngine::from_json(&three_users(), role_config("users")).unwrap();
    assert_eq!(single(&engine, "MATCH (u) RETURN SUM(u.age)"), Some(90));
    assert_eq!(single(&engine, "MATCH (u:admin) RETURN SUM(u.age)"), Some(65));
}

#[test]
fn test_simple_return() {
    let data = obj(vec![(
        "users",
        arr(vec![
            obj(vec![("id", s("1")), ("name", s("Alice")), ("role", s("admin"))]),
            obj(vec![("id", s("2")), ("name", s("Bob")), ("role", s("user"))]),
        ]),
    )]);
    let engine = CypherEngine::from_json(&data, role_config("users")).unwrap();
    let result = engine.execute("MATCH (u) RETURN u.id").unwrap();
    assert_eq!(result.rows.len(), 2);
    assert_eq!(result.rows[0].get("u.id").unwrap().as_i64(), Some(1));
    assert_eq!(result.rows[1].get("u.id").unwrap().as_i64(), Some(2));
    let result = engine
        .execute("MATCH (u) WHERE u.name = \"Alice\" RETURN u.id")
        .unwrap();
    assert_eq!(result.rows.len(), 1);
    assert_eq!(result.rows[0].get("u.id").unwrap().as_i64(), Some(1));
}

#[test]
fn test_relationships() {
    let data = obj(vec![(
        "users",
        arr(vec![
            obj(vec![("id", s("1")), ("name", s("Alice")), ("friends", ids(&["2", "3"]))]),
            obj(vec![("id", s("2")), ("name", s("Bob")), ("friends", ids(&["1"]))]),
            obj(vec![("id", s("3")), ("name", s("Charlie")), ("friends", ids(&[]))]),
        ]),
    )]);
    let config = GraphConfig {
        node_path: "users".to_string(),
        id_field: "id".to_string(),
        label_field: None,
        relation_fields: vec!["friends".to_string()],
    };
    let engine = CypherEngine::from_json(&data, config).unwrap();
    assert_eq!(single(&engine, "MATCH (u)-[]->(v) RETURN COUNT(u)"), Some(3));
    let result = engine
        .execute("MATCH (u)-[]->(v) WHERE u.name = \"Alice\" RETURN v.name")
        .unwrap();
    assert_eq!(result.rows.len(), 2);
}

#[test]
fn test_nested_json_path() {
    let data = obj(vec![(
        "data",
        obj(vec![(
            "users",
            arr(vec![
                obj(vec![("id", s("1")), ("role", s("admin"))]),
                obj(vec![("id", s("2")), ("role", s("user"))]),
            ]),
        )]),
    )]);
    let engine = CypherEngine::from_json(&data, role_config("data.users")).unwrap();
    assert_eq!(single(&engine, "MATCH (u) RETURN COUNT(u)"), Some(2));
}

#[test]
fn test_result_as_json() {
    let data = obj(vec![(
        "users",
        arr(vec![
            obj(vec![("id", s("1")), ("name", s("Alice"))]),
            obj(vec![("id", s("2")), ("name", s("Bob"))]),
        ]),
    )]);
    let engine = CypherEngine::from_json(&data, GraphConfig::minimal("users", "id")).unwrap();
    let result = engine.execute("MATCH (u) RETURN u.id, u.name").unwrap();
    let json_array = result.as_json_array();
    assert!(json_array.is_array());
    assert_eq!(json_array.as_array().unwrap().len(), 2);
}

#[test]
fn test_where_operators() {
    let data = obj(vec![(
        "items",
        arr(vec![
            obj(vec![("id", s("1")), ("value", n(10))]),
            obj(vec![("id", s("2")), ("value", n(20))]),
            obj(vec![("id", s("3")), ("value", n(30))]),
        ]),
    )]);
    let engine = CypherEngine::from_json(&data, GraphConfig::minimal("items", "id")).unwrap();
    assert_eq!(single(&engine, "MATCH (i) WHERE i.value > \"15\" RETURN COUNT(i)"), Some(2));
    assert_eq!(single(&engine, "MATCH (i) WHERE i.value <= \"20\" RETURN COUNT(i)"), Some(2));
    assert_eq!(single(&engine, "MATCH (i) WHERE i.value <> \"20\" RETURN COUNT(i)"), Some(2));
}

#[test]
fn test_logical_operators() {
    let data = obj(vec![(
        "users",
        arr(vec![
            obj(vec![("id", s("1")), ("role", s("admin")), ("active", b(true))]),
            obj(vec![("id", s("2")), ("role", s("user")), ("active", b(true))]),
            obj(vec![("id", s("3")), ("role", s("user")), ("active", b(false))]),
        ]),
    )]);
    let engine = CypherEngine::from_json(&data, role_config("users")).unwrap();
    assert_eq!(
        single(&engine, "MATCH (u:admin) WHERE u.active = \"true\" RETURN COUNT(u)"),
        Some(1)
    );
    assert_eq!(
        single(
            &engine,
            "MATCH (u) WHERE u.role = \"admin\" OR u.role = \"user\" RETURN COUNT(u)"
        ),
        Some(3)
    );
}

#[test]
fn test_contains_operator() {
    let data = obj(vec![(
        "users",
        arr(vec![
            obj(vec![("id", s("1")), ("name", s("Alice Smith"))]),
            obj(vec![("id", s("2")), ("name", s("Bob Jones"))]),
            obj(vec![("id", s("3")), ("name", s("Charlie Smith"))]),
        ]),
    )]);
    let engine = CypherEngine::from_json(&data, GraphConfig::minimal("users", "id")).unwrap();
    assert_eq!(
        single(&engine, "MATCH (u) WHERE u.name CONTAINS \"Smith\" RETURN COUNT(u)"),
        Some(2)
    );
}

fn two_users_with_friends() -> JsonValue {
    obj(vec![(
        "users",
        arr(vec![
            obj(vec![("id", s("1")), ("role", s("admin")), ("age", n(30)), ("friends", ids(&["2"]))]),
            obj(vec![("id", s("2")), ("role", s("user")), ("age", n(25)), ("friends", ids(&["1"]))]),
        ]),
    )])
}

#[test]
fn test_from_json_auto() {
    let engine = CypherEngine::from_json_auto(&two_users_with_friends()).unwrap();
    assert_eq!(single(&engine, "MATCH (u) RETURN COUNT(u)"), Some(2));
    assert_eq!(single(&engine, "MATCH (u:admin) RETURN COUNT(u)"), Some(1));
}

#[test]
fn test_analyze_schema() {
    let schema = CypherEngine::analyze_schema(&two_users_with_friends()).unwrap();
    assert_eq!(schema.array_schemas.len(), 1);
    assert!(schema.primary_recommendation.is_some());
    let primary = schema.primary_recommendation.as_ref().unwrap();
    assert_eq!(primary.path, "users");
    assert_eq!(primary.recommended_id_field, Some("id".to_string()));
    assert_eq!(primary.recommended_label_field, Some("role".to_string()));
    assert!(primary.recommended_relation_fields.contains(&"friends".to_string()));
}

#[test]
fn test_analyze_schema_nested() {
    let data = obj(vec![(
        "data",
        obj(vec![(
            "network",
            obj(vec![(
                "users",
                arr(vec![obj(vec![
                    ("id", s("1")),
                    ("type", s("Person")),
                    ("connections", ids(&["2"])),
                ])]),
            )]),
        )]),
    )]);
    let schema = CypherEngine::analyze_schema(&data).unwrap();
    let primary = schema.primary_recommendation.as_ref().unwrap();
    assert_eq!(primary.path, "data.network.users");
    assert_eq!(primary.recommended_id_field, Some("id".to_string()));
    assert_eq!(primary.recommended_label_field, Some("type".to_string()));
}

#[test]
fn test_from_json_auto_with_relations() {
    let data = obj(vec![(
        "users",
        arr(vec![
            obj(vec![("id", s("1")), ("name", s("Alice")), ("friends", ids(&["2", "3"]))]),
            obj(vec![("id", s("2")), ("name", s("Bob")), ("friends", ids(&["1"]))]),
            obj(vec![("id", s("3")), ("name", s("Charlie")), ("friends", ids(&["2"]))]),
        ]),
    )]);
    let engine = CypherEngine::from_json_auto(&data).unwrap();
    assert_eq!(single(&engine, "MATCH (u)-[]->(v) RETURN COUNT(u)"), Some(4));
}

#[test]
fn test_get_schema() {
    let data = obj(vec![(
        "users",
        arr(vec![
            obj(vec![("id", s("1")), ("role", s("admin")), ("name", s("Alice")), ("age", n(30)), ("friends", ids(&["2"]))]),
            obj(vec![("id", s("2")), ("role", s("user")), ("name", s("Bob")), ("age", n(25)), ("friends", ids(&["1", "3"]))]),
            obj(vec![("id", s("3")), ("role", s("user")), ("name", s("Charlie")), ("age", n(28)), ("friends", ids(&["2"]))]),
        ]),
    )]);
    let config = GraphConfig {
        node_path: "users".to_string(),
        id_field: "id".to_string(),
        label_field: Some("role".to_string()),
        relation_fields: vec!["friends".to_string()],
    };
    let engine = CypherEngine::from_json(&data, config).unwrap();
    let schema = engine.get_schema();
    assert!(schema.contains("Graph Schema"));
    assert!(schema.contains("Node Types:"));
    assert!(schema.contains("(:admin"));
    assert!(schema.contains("(:user"));
    assert!(schema.contains("Relationship Types:"));
    assert!(schema.contains("friends"));
}

#[test]
fn test_schema_to_neo4j() {
    let data = obj(vec![(
        "users",
        arr(vec![
            obj(vec![("id", s("1")), ("role", s("admin")), ("name", s("Alice")), ("friends", ids(&["2"]))]),
            obj(vec![("id", s("2")), ("role", s("user")), ("name", s("Bob")), ("friends", ids(&["1"]))]),
        ]),
    )]);
    let schema = CypherEngine::analyze_schema(&data).unwrap();
    let neo4j_schema = schema.to_neo4j_schema();
    assert!(neo4j_schema.contains("Graph Schema"));
    assert!(neo4j_schema.contains("Node Types:"));
    assert!(neo4j_schema.contains("Relationship Types:"));
    assert!(neo4j_schema.contains("friends"));
}

#[test]
fn test_schema_to_pattern() {
    let data = obj(vec![(
        "users",
        arr(vec![obj(vec![("id", s("1")), ("name", s("Alice")), ("friends", ids(&["2"]))])]),
    )]);
    let schema = CypherEngine::analyze_schema(&data).unwrap();
    let pattern = schema.to_pattern();
    assert!(pattern.contains("friends"));
    assert!(pattern.contains(":users"));
}

#[test]
fn get_schema_of_an_empty_graph() {
    let data = obj(vec![("users", arr(vec![]))]);
    let engine = CypherEngine::from_json(&data, GraphConfig::minimal("users", "id")).unwrap();
    assert_eq!(engine.get_schema(), "Graph Schema\n============\n\nNo nodes in graph\n");
}

#[test]
fn get_schema_lists_sorted_labels_with_counts() {
    let engine = CypherEngine::from_json(&three_users(), role_config("users")).unwrap();
    let schema = engine.get_schema();
    let admin = schema.find("(:admin 2 nodes)").unwrap();
    let user = schema.find("(:user 1 nodes)").unwrap();
    assert!(admin < user);
    assert!(schema.contains(":admin {id: STRING, role: STRING, age: NUMBER}"));
}

#[test]
fn pattern_and_overview_texts() {
    let data = obj(vec![(
        "users",
        arr(vec![obj(vec![("id", s("1")), ("name", s("Alice")), ("friends", ids(&["2"]))])]),
    )]);
    let schema = SchemaAnalyzer::analyze(&data).unwrap();
    assert_eq!(
        schema.to_pattern(),
        "(:users {id, name})-[:friends]->(:users {id, name})"
    );
    assert_eq!(
        schema.to_neo4j_schema(),
        "Graph Schema\n============\n\nNode Types:\n  (:users)\n\nProperties:\n  :users {id: STRING, name: STRING}\n\nRelationship Types:\n  (:users)-[:friends]->(:users)\n"
    );
}

#[test]
fn engine_errors() {
    let bad = CypherEngine::from_json(&obj(vec![]), GraphConfig::minimal("users", "id"));
    match bad {
        Err(e) => assert_eq!(e.message(), "Graph build error: Invalid data structure: Cannot find node path: users"),
        Ok(_) => panic!("expected an error"),
    }
    assert!(CypherEngine::from_json_auto(&obj(vec![])).is_err());
    assert!(CypherEngine::analyze_schema(&obj(vec![("a", n(1))])).is_err());
    let engine = CypherEngine::from_json(&three_users(), role_config("users")).unwrap();
    assert!(engine.execute("MATCH (n) RETURN n.id, SUM(n.age)").is_err());
}

#[test]
fn error_messages_name_the_phase() {
    let engine = CypherEngine::from_json(&three_users(), role_config("users")).unwrap();
    let e = engine.execute("MATCH (n) RETURN n.id, COUNT(n)").unwrap_err();
    assert_eq!(e.message(), "Execution error: Mixed aggregate and non-aggregate in RETURN");
    let e = engine.execute("RETURN n").unwrap_err();
    assert_eq!(e.message(), "Parse error: Missing MATCH clause");
}

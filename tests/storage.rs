use cypher_rs::engine::execute;
use cypher_rs::engine::storage::json::{build_graph_from_json, navigate_json_path};
use cypher_rs::engine::storage::{
    JsonStorage, MemoryStorage, MemoryStorageBuilder, StorageError, StorageFeature, SyncStorage,
};
use cypher_rs::graph::{Graph, Node};
use cypher_rs::value::{JsonNumber, JsonValue};
use cypher_rs::GraphConfig;

fn s(x: &str) -> JsonValue {
    JsonValue::String(x.to_string())
}

fn n(x: i64) -> JsonValue {
    JsonValue::Number(JsonNumber::Int(x))
}

fn obj(entries: Vec<(&str, JsonValue)>) -> JsonValue {
    JsonValue::Object(entries.into_iter().map(|(k, v)| (k.to_string(), v)).collect())
}

fn arr(items: Vec<JsonValue>) -> JsonValue {
    JsonValue::Array(items)
}

fn users_with_roles() -> JsonValue {
    obj(vec![(
        "users",
        arr(vec![
            obj(vec![("id", s("1")), ("role", s("admin")), ("age", n(30))]),
            obj(vec![("id", s("2")), ("role", s("user")), ("age", n(25))]),
        ]),
    )])
}

fn role_config() -> GraphConfig {
    GraphConfig {
        node_path: "users".to_string(),
        id_field: "id".to_string(),
        label_field: Some("role".to_string()),
        relation_fields: vec![],
    }
}

fn alice_bob_graph() -> Graph {
    let mut graph = Graph::new();
    graph.add_node(Node::new(
        "1".to_string(),
        Some("User".to_string()),
        obj(vec![("name", s("Alice"))]),
    ));
    graph.add_node(Node::new(
        "2".to_string(),
        Some("User".to_string()),
        obj(vec![("name", s("Bob"))]),
    ));
    graph
}

#[test]
fn test_execute_convenience() {
    let mut graph = Graph::new();
    for (id, label, age) in [("1", "admin", 30), ("2", "user", 25), ("3", "admin", 35)] {
        graph.add_node(Node::new(
            id.to_string(),
            Some(label.to_string()),
            obj(vec![("id", s(id)), ("role", s(label)), ("age", n(age))]),
        ));
    }
    let result = execute("MATCH (n) RETURN COUNT(n)", &graph).unwrap();
    assert_eq!(result.get_single_value().unwrap().as_i64(), Some(3));
}

#[test]
fn test_storage_integration() {
    let storage = JsonStorage::from_value(users_with_roles());
    let graph = storage.load_graph_sync(&role_config()).unwrap();
    let result = execute("MATCH (u) RETURN COUNT(u)", &graph).unwrap();
    assert_eq!(result.get_single_value().unwrap().as_i64(), Some(2));
}

#[test]
fn test_memory_storage() {
    let graph = alice_bob_graph();
    let storage = MemoryStorage::from_graph(graph.clone());
    let loaded_graph = storage.load_graph_sync(&GraphConfig::default()).unwrap();
    assert_eq!(loaded_graph.nodes.len(), 2);
    let result = execute("MATCH (n) RETURN COUNT(n)", &graph).unwrap();
    assert_eq!(result.get_single_value().unwrap().as_i64(), Some(2));
}

#[test]
fn test_query_result_as_json() {
    let mut graph = Graph::new();
    for (id, label) in [("1", "admin"), ("2", "user"), ("3", "admin")] {
        graph.add_node(Node::new(
            id.to_string(),
            Some(label.to_string()),
            obj(vec![("id", s(id)), ("role", s(label))]),
        ));
    }
    let result = execute("MATCH (n:admin) RETURN n.id", &graph).unwrap();
    let json_array = result.as_json_array();
    assert!(json_array.is_array());
    assert_eq!(json_array.as_array().unwrap().len(), 2);
}

#[test]
fn test_json_storage_from_value() {
    let storage = JsonStorage::from_value(users_with_roles());
    let graph = storage.load_graph_sync(&role_config()).unwrap();
    assert_eq!(graph.nodes.len(), 2);
}

#[test]
fn test_navigate_json_path() {
    let data = obj(vec![(
        "data",
        obj(vec![("users", arr(vec![obj(vec![("id", s("1"))])]))]),
    )]);
    let result = navigate_json_path(&data, "data.users");
    assert!(result.is_some());
    assert!(result.unwrap().is_array());
    let result = navigate_json_path(&data, "data.nonexistent");
    assert!(result.is_none());
}

#[test]
fn test_json_storage_with_relations() {
    let data = obj(vec![(
        "users",
        arr(vec![
            obj(vec![("id", s("1")), ("friends", arr(vec![s("2"), s("3")]))]),
            obj(vec![("id", s("2")), ("friends", arr(vec![s("1")]))]),
            obj(vec![("id", s("3")), ("friends", arr(vec![]))]),
        ]),
    )]);
    let storage = JsonStorage::from_value(data);
    let config = GraphConfig {
        node_path: "users".to_string(),
        id_field: "id".to_string(),
        label_field: None,
        relation_fields: vec!["friends".to_string()],
    };
    let graph = storage.load_graph_sync(&config).unwrap();
    assert_eq!(graph.nodes.len(), 3);
    assert_eq!(graph.edges.len(), 3);
}

#[test]
fn test_json_storage_metadata() {
    let storage = JsonStorage::from_value(obj(vec![("users", arr(vec![]))]));
    let metadata = storage.metadata();
    assert_eq!(metadata.name, "json");
    assert!(metadata.features.contains(&StorageFeature::ConcurrentReads));
}

#[test]
fn test_memory_storage_empty() {
    let storage = MemoryStorage::empty();
    let config = GraphConfig::minimal("users", "id");
    let graph = storage.load_graph_sync(&config).unwrap();
    assert_eq!(graph.nodes.len(), 0);
}

#[test]
fn test_memory_storage_from_graph() {
    let storage = MemoryStorage::from_graph(alice_bob_graph());
    let loaded_graph = storage.load_graph_sync(&GraphConfig::default()).unwrap();
    assert_eq!(loaded_graph.nodes.len(), 2);
}

#[test]
fn test_memory_storage_get_node() {
    let mut graph = Graph::new();
    graph.add_node(Node::new(
        "1".to_string(),
        Some("User".to_string()),
        obj(vec![("name", s("Alice"))]),
    ));
    let storage = MemoryStorage::from_graph(graph);
    let node = storage.get_node_sync("1").unwrap();
    assert!(node.is_some());
    assert_eq!(node.unwrap().id, "1");
}

#[test]
fn test_memory_storage_builder() {
    let storage = MemoryStorageBuilder::new()
        .add_node(Node::new(
            "1".to_string(),
            Some("User".to_string()),
            obj(vec![("name", s("Alice"))]),
        ))
        .add_node(Node::new(
            "2".to_string(),
            Some("User".to_string()),
            obj(vec![("name", s("Bob"))]),
        ))
        .build();
    let graph = storage.load_graph_sync(&GraphConfig::default()).unwrap();
    assert_eq!(graph.nodes.len(), 2);
}

#[test]
fn test_memory_storage_metadata() {
    let storage = MemoryStorage::empty();
    let metadata = storage.metadata();
    assert_eq!(metadata.name, "memory");
    assert!(metadata.features.contains(&StorageFeature::ConcurrentReads));
    assert!(metadata.features.contains(&StorageFeature::ConcurrentWrites));
    assert_eq!(metadata.property("volatile"), Some(&"true".to_string()));
}

#[test]
fn test_memory_storage_supports_feature() {
    let storage = MemoryStorage::empty();
    assert!(storage.supports_feature(StorageFeature::ConcurrentReads));
    assert!(storage.supports_feature(StorageFeature::ConcurrentWrites));
    assert!(!storage.supports_feature(StorageFeature::Persistence));
}

#[test]
fn test_storage_backends_interchangeable() {
    let data = obj(vec![(
        "users",
        arr(vec![
            obj(vec![("id", s("1")), ("role", s("admin"))]),
            obj(vec![("id", s("2")), ("role", s("user"))]),
        ]),
    )]);
    let config = role_config();
    let json_storage = JsonStorage::from_value(data);
    let json_graph = json_storage.load_graph_sync(&config).unwrap();
    assert_eq!(json_graph.nodes.len(), 2);
    let memory_storage = MemoryStorage::from_graph(json_graph.clone());
    let memory_graph = memory_storage.load_graph_sync(&config).unwrap();
    assert_eq!(memory_graph.nodes.len(), 2);
}

#[test]
fn test_storage_metadata() {
    let json_storage = JsonStorage::from_value(obj(vec![]));
    assert_eq!(json_storage.metadata().name, "json");
    let memory_storage = MemoryStorage::empty();
    assert_eq!(memory_storage.metadata().name, "memory");
}

#[test]
fn memory_storage_with_nodes_keeps_order() {
    let nodes = vec![
        Node::new("a".to_string(), None, obj(vec![])),
        Node::new("b".to_string(), None, obj(vec![])),
        Node::new("c".to_string(), None, obj(vec![])),
    ];
    let storage = MemoryStorage::with_nodes(nodes).unwrap();
    let ids: Vec<&str> = storage.graph().nodes.iter().map(|n| n.id.as_str()).collect();
    assert_eq!(ids, vec!["a", "b", "c"]);
    let builder = MemoryStorageBuilder::new().add_nodes(vec![
        Node::new("x".to_string(), None, obj(vec![])),
        Node::new("y".to_string(), None, obj(vec![])),
    ]);
    let copy = builder.clone();
    assert_eq!(copy.build().graph().nodes[1].id, "y");
}

#[test]
fn graph_building_errors() {
    let config = role_config();
    let no_path = build_graph_from_json(&obj(vec![]), &config);
    assert!(matches!(no_path, Err(StorageError::InvalidData(_))));
    let not_array = build_graph_from_json(&obj(vec![("users", s("x"))]), &config);
    assert!(matches!(not_array, Err(StorageError::InvalidData(_))));
    let missing_id = build_graph_from_json(
        &obj(vec![("users", arr(vec![obj(vec![("id", n(1))])]))]),
        &config,
    );
    assert!(matches!(missing_id, Err(StorageError::InvalidData(_))));
}

#[test]
fn graph_building_reads_ids_labels_and_single_relations() {
    let data = obj(vec![(
        "root",
        obj(vec![(
            "people",
            arr(vec![
                obj(vec![("key", s("p")), ("kind", s("K")), ("boss", s("q"))]),
                obj(vec![("key", s("q")), ("boss", s("zzz"))]),
            ]),
        )]),
    )]);
    let config = GraphConfig {
        node_path: "root.*.people".to_string(),
        id_field: "key".to_string(),
        label_field: Some("kind".to_string()),
        relation_fields: vec!["boss".to_string()],
    };
    let graph = build_graph_from_json(&data, &config).unwrap();
    assert_eq!(graph.nodes.len(), 2);
    assert_eq!(graph.nodes[0].id, "p");
    assert_eq!(graph.nodes[0].label, Some("K".to_string()));
    assert_eq!(graph.nodes[1].label, None);
    assert_eq!(graph.edges.len(), 1);
    assert_eq!(graph.edges[0].from, 0);
    assert_eq!(graph.edges[0].to, 1);
    assert_eq!(graph.edges[0].rel_type, "boss");
}

#[test]
fn flattened_rows_hold_each_column_once() {
    let mut graph = Graph::new();
    graph.add_node(Node::new("7".to_string(), None, obj(vec![("id", s("7")), ("name", s("x"))])));
    let result = execute("MATCH (n) RETURN n.id, n.name, n.id", &graph).unwrap();
    assert_eq!(result.columns.len(), 3);
    let flat = result.as_json_array();
    let rows = flat.as_array().unwrap();
    assert_eq!(rows.len(), 1);
    match &rows[0] {
        JsonValue::Object(entries) => {
            let keys: Vec<&str> = entries.iter().map(|(k, _)| k.as_str()).collect();
            assert_eq!(keys, vec!["n.id", "n.name"]);
            assert_eq!(entries[0].1.as_i64(), Some(7));
        }
        _ => panic!("expected an object"),
    }
}

use cypher_rs::graph::{Edge, Graph, Node};
use cypher_rs::value::{JsonNumber, JsonValue};
use cypher_rs::GraphConfig;

fn s(x: &str) -> JsonValue {
    JsonValue::String(x.to_string())
}

fn n(x: i64) -> JsonValue {
    JsonValue::Number(JsonNumber::Int(x))
}

fn obj(entries: Vec<(&str, JsonValue)>) -> JsonValue {
    JsonValue::Object(entries.into_iter().map(|(k, v)| (k.to_string(), v)).collect())
}

#[test]
fn test_default_config() {
    let config = GraphConfig::default();
    assert_eq!(config.node_path, "nodes");
    assert_eq!(config.id_field, "id");
    assert!(config.label_field.is_none());
    assert!(config.relation_fields.is_empty());
}

#[test]
fn test_new_config() {
    let config = GraphConfig::new(
        "users",
        "id",
        Some("role".to_string()),
        vec!["friends".to_string()],
    );
    assert_eq!(config.node_path, "users");
    assert_eq!(config.id_field, "id");
    assert_eq!(config.label_field, Some("role".to_string()));
    assert_eq!(config.relation_fields, vec!["friends".to_string()]);
}

#[test]
fn test_minimal_config() {
    let config = GraphConfig::minimal("users", "id");
    assert_eq!(config.node_path, "users");
    assert_eq!(config.id_field, "id");
    assert!(config.label_field.is_none());
    assert!(config.relation_fields.is_empty());
}

#[test]
fn test_graph_creation() {
    let graph = Graph::new();
    assert_eq!(graph.nodes.len(), 0);
    assert_eq!(graph.edges.len(), 0);
}

#[test]
fn test_add_node() {
    let mut graph = Graph::new();
    let node = Node::new(
        "1".to_string(),
        Some("User".to_string()),
        obj(vec![("name", s("Alice"))]),
    );
    let idx = graph.add_node(node);
    assert_eq!(idx, 0);
    assert_eq!(graph.nodes.len(), 1);
}

#[test]
fn test_get_node() {
    let mut graph = Graph::new();
    let node = Node::new(
        "1".to_string(),
        Some("User".to_string()),
        obj(vec![("name", s("Alice"))]),
    );
    graph.add_node(node);
    assert!(graph.get_node("1").is_some());
    assert!(graph.get_node("2").is_none());
}

#[test]
fn test_add_edge() {
    let mut graph = Graph::new();
    let node1 = Node::new("1".to_string(), Some("User".to_string()), obj(vec![]));
    let node2 = Node::new("2".to_string(), Some("User".to_string()), obj(vec![]));
    graph.add_node(node1);
    graph.add_node(node2);
    graph.add_edge(Edge::new(0, 1, "knows".to_string()));
    assert_eq!(graph.edges.len(), 1);
}

#[test]
fn test_node_get_property() {
    let node = Node::new(
        "1".to_string(),
        Some("User".to_string()),
        obj(vec![("name", s("Alice")), ("age", n(30))]),
    );
    assert_eq!(
        node.get_property_as_string("name"),
        Some("Alice".to_string())
    );
    assert_eq!(node.get_property_as_i64("age"), Some(30));
    assert!(node.get_property_as_string("unknown").is_none());
}

#[test]
fn graph_node_index_is_the_last_with_that_id() {
    let mut graph = Graph::new();
    graph.add_node(Node::new("a".to_string(), None, obj(vec![])));
    graph.add_node(Node::new("b".to_string(), None, obj(vec![])));
    graph.add_node(Node::new("a".to_string(), None, obj(vec![])));
    assert_eq!(graph.get_node_index("a"), Some(2));
    assert_eq!(graph.get_node_index("b"), Some(1));
    assert_eq!(graph.get_node_index("c"), None);
}

#[test]
fn graph_outgoing_and_incoming_edges() {
    let mut graph = Graph::new();
    for id in ["1", "2", "3"] {
        graph.add_node(Node::new(id.to_string(), None, obj(vec![])));
    }
    graph.add_edge(Edge::new(0, 1, "knows".to_string()));
    graph.add_edge(Edge::new(0, 2, "likes".to_string()));
    graph.add_edge(Edge::new(1, 2, "knows".to_string()));
    let out = graph.get_outgoing_edges(0);
    assert_eq!(out.len(), 2);
    assert_eq!(out[1].rel_type, "likes");
    let inc = graph.get_incoming_edges(2);
    assert_eq!(inc.len(), 2);
    assert_eq!(inc[0].from, 0);
    assert_eq!(inc[1].from, 1);
}

#[test]
fn node_property_text_of_numbers_and_booleans() {
    let node = Node::new(
        "1".to_string(),
        None,
        obj(vec![
            ("neg", n(-42)),
            ("big", JsonValue::Number(JsonNumber::UInt(18446744073709551615))),
            ("flag", JsonValue::Bool(true)),
            ("nothing", JsonValue::Null),
            ("list", JsonValue::Array(vec![n(1)])),
        ]),
    );
    assert_eq!(node.get_property_as_string("neg"), Some("-42".to_string()));
    assert_eq!(
        node.get_property_as_string("big"),
        Some("18446744073709551615".to_string())
    );
    assert_eq!(node.get_property_as_string("flag"), Some("true".to_string()));
    assert_eq!(node.get_property_as_string("nothing"), None);
    assert_eq!(node.get_property_as_string("list"), None);
    assert_eq!(node.get_property_as_i64("neg"), Some(-42));
    assert_eq!(node.get_property_as_i64("big"), None);
    assert_eq!(node.get_property_as_i64("flag"), None);
}

#[test]
fn id_table_maps_ids_to_their_last_node() {
    let mut graph = Graph::new();
    graph.add_node(Node::new("a".to_string(), None, obj(vec![])));
    graph.add_node(Node::new("b".to_string(), None, obj(vec![])));
    graph.add_node(Node::new("a".to_string(), None, obj(vec![])));
    assert_eq!(graph.id_map.len(), 3);
    assert_eq!(graph.get_node_index("a"), Some(2));
    let copy = graph.clone();
    assert_eq!(copy.get_node_index("b"), Some(1));
}

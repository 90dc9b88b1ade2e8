use cypher_rs::engine::executor::{EntityId, QueryExecutor};
use cypher_rs::engine::functions::{AggregateEvaluator, EvalContext};
use cypher_rs::engine::{execute, EngineError};
use cypher_rs::graph::{Edge, Graph, Node};
use cypher_rs::parser;
use cypher_rs::parser::ast::{AggregateExpression, AggregateFunction};
use cypher_rs::value::{JsonNumber, JsonValue};

fn s(x: &str) -> JsonValue {
    JsonValue::String(x.to_string())
}

fn n(x: i64) -> JsonValue {
    JsonValue::Number(JsonNumber::Int(x))
}

fn obj(entries: Vec<(&str, JsonValue)>) -> JsonValue {
    JsonValue::Object(entries.into_iter().map(|(k, v)| (k.to_string(), v)).collect())
}

fn create_test_graph() -> Graph {
    let mut graph = Graph::new();
    graph.add_node(Node::new(
        "1".to_string(),
        Some("admin".to_string()),
        obj(vec![("id", s("1")), ("role", s("admin")), ("age", n(30))]),
    ));
    graph.add_node(Node::new(
        "2".to_string(),
        Some("user".to_string()),
        obj(vec![("id", s("2")), ("role", s("user")), ("age", n(25))]),
    ));
    graph.add_node(Node::new(
        "3".to_string(),
        Some("admin".to_string()),
        obj(vec![("id", s("3")), ("role", s("admin")), ("age", n(35))]),
    ));
    graph.add_edge(Edge::new(0, 1, "knows".to_string()));
    graph.add_edge(Edge::new(1, 2, "knows".to_string()));
    graph
}

fn create_value_graph() -> Graph {
    let mut graph = Graph::new();
    graph.add_node(Node::new("1".to_string(), None, obj(vec![("id", s("1")), ("value", n(10))])));
    graph.add_node(Node::new("2".to_string(), None, obj(vec![("id", s("2")), ("value", n(20))])));
    graph.add_node(Node::new("3".to_string(), None, obj(vec![("id", s("3")), ("value", n(30))])));
    graph
}

fn create_test_contexts(graph: &Graph) -> Vec<EvalContext> {
    let mut contexts = Vec::new();
    for i in 0..graph.nodes.len() {
        let mut ctx = EvalContext::new();
        ctx.bind("n".to_string(), i);
        contexts.push(ctx);
    }
    contexts
}

fn single_i64(graph: &Graph, query: &str) -> Option<i64> {
    let result = execute(query, graph).unwrap();
    result.get_single_value().unwrap().as_i64()
}

#[test]
fn test_execute_match_all() {
    let graph = create_test_graph();
    let parsed = parser::parse_query("MATCH (n) RETURN n.id").unwrap();
    let result = QueryExecutor::execute(&parsed, &graph).unwrap();
    assert_eq!(result.rows.len(), 3);
}

#[test]
fn test_execute_match_with_label() {
    let graph = create_test_graph();
    let parsed = parser::parse_query("MATCH (n:admin) RETURN n.id").unwrap();
    let result = QueryExecutor::execute(&parsed, &graph).unwrap();
    assert_eq!(result.rows.len(), 2);
}

#[test]
fn test_execute_count() {
    let graph = create_test_graph();
    let parsed = parser::parse_query("MATCH (n) RETURN COUNT(n)").unwrap();
    let result = QueryExecutor::execute(&parsed, &graph).unwrap();
    assert_eq!(result.columns[0], "COUNT(n)");
    assert_eq!(result.get_single_value().unwrap().as_i64(), Some(3));
}

#[test]
fn test_execute_sum() {
    let graph = create_test_graph();
    let parsed = parser::parse_query("MATCH (n) RETURN SUM(n.age)").unwrap();
    let result = QueryExecutor::execute(&parsed, &graph).unwrap();
    assert_eq!(result.get_single_value().unwrap().as_i64(), Some(90));
}

#[test]
fn test_count() {
    let graph = create_value_graph();
    let contexts = create_test_contexts(&graph);
    let agg = AggregateExpression {
        func: AggregateFunction::Count,
        variable: "n".to_string(),
        property: None,
    };
    let result = AggregateEvaluator::evaluate(&agg, &contexts, &graph).unwrap();
    assert_eq!(result.as_i64(), Some(3));
}

#[test]
fn test_sum() {
    let graph = create_value_graph();
    let contexts = create_test_contexts(&graph);
    let agg = AggregateExpression {
        func: AggregateFunction::Sum,
        variable: "n".to_string(),
        property: Some("value".to_string()),
    };
    let result = AggregateEvaluator::evaluate(&agg, &contexts, &graph).unwrap();
    assert_eq!(result.as_i64(), Some(60));
}

#[test]
fn test_column_name() {
    let agg_count = AggregateExpression {
        func: AggregateFunction::Count,
        variable: "n".to_string(),
        property: None,
    };
    assert_eq!(AggregateEvaluator::column_name(&agg_count), "COUNT(n)");
    let agg_sum = AggregateExpression {
        func: AggregateFunction::Sum,
        variable: "n".to_string(),
        property: Some("value".to_string()),
    };
    assert_eq!(AggregateEvaluator::column_name(&agg_sum), "SUM(n.value)");
}

#[test]
fn test_eval_context() {
    let mut ctx = EvalContext::new();
    assert!(!ctx.has_binding("n"));
    ctx.bind("n".to_string(), 0);
    assert!(ctx.has_binding("n"));
    assert_eq!(ctx.get_binding("n"), Some(0));
}

#[test]
fn test_eval_context_with_binding() {
    let mut ctx1 = EvalContext::new();
    ctx1.bind("n".to_string(), 0);
    let ctx2 = ctx1.with_binding("m".to_string(), 1);
    assert!(ctx2.has_binding("n"));
    assert!(ctx2.has_binding("m"));
    assert_eq!(ctx2.get_binding("n"), Some(0));
    assert_eq!(ctx2.get_binding("m"), Some(1));
}

#[test]
fn aggregate_extension_points_are_not_implemented() {
    let graph = create_value_graph();
    let contexts = create_test_contexts(&graph);
    let agg = AggregateExpression {
        func: AggregateFunction::Sum,
        variable: "n".to_string(),
        property: Some("value".to_string()),
    };
    assert!(AggregateEvaluator::avg(&agg, &contexts, &graph).is_err());
    assert!(AggregateEvaluator::min(&agg, &contexts, &graph).is_err());
    assert!(AggregateEvaluator::max(&agg, &contexts, &graph).is_err());
}

#[test]
fn sum_wraps_around_on_overflow() {
    let mut graph = Graph::new();
    graph.add_node(Node::new("1".to_string(), None, obj(vec![("v", n(i64::MAX))])));
    graph.add_node(Node::new("2".to_string(), None, obj(vec![("v", n(1))])));
    assert_eq!(single_i64(&graph, "MATCH (n) RETURN SUM(n.v)"), Some(i64::MIN));
}

#[test]
fn count_of_all_nodes_equals_node_count() {
    let graph = create_test_graph();
    assert_eq!(single_i64(&graph, "MATCH (n) RETURN COUNT(n)"), Some(3));
    let empty = Graph::new();
    assert_eq!(single_i64(&empty, "MATCH (n) RETURN COUNT(n)"), Some(0));
}

#[test]
fn count_by_label_matches_exact_label() {
    let graph = create_test_graph();
    assert_eq!(single_i64(&graph, "MATCH (n:admin) RETURN COUNT(n)"), Some(2));
    assert_eq!(single_i64(&graph, "MATCH (n:Admin) RETURN COUNT(n)"), Some(0));
    assert_eq!(single_i64(&graph, "MATCH (n:user:admin) RETURN COUNT(n)"), Some(3));
}

#[test]
fn repeated_execution_gives_identical_results() {
    let graph = create_test_graph();
    let q = "MATCH (a)-[:knows]->(b) RETURN a.id, b.id";
    let r1 = execute(q, &graph).unwrap();
    let r2 = execute(q, &graph).unwrap();
    assert_eq!(r1.columns, r2.columns);
    assert_eq!(r1.rows.len(), r2.rows.len());
    for i in 0..r1.rows.len() {
        for c in &r1.columns {
            assert_eq!(
                r1.rows[i].get(c).unwrap().as_i64(),
                r2.rows[i].get(c).unwrap().as_i64()
            );
        }
    }
}

#[test]
fn join_keeps_only_coherent_bindings() {
    let mut graph = Graph::new();
    for id in ["1", "2", "3"] {
        graph.add_node(Node::new(id.to_string(), None, obj(vec![("id", s(id))])));
    }
    graph.add_edge(Edge::new(0, 1, "r".to_string()));
    graph.add_edge(Edge::new(1, 0, "r".to_string()));
    graph.add_edge(Edge::new(1, 2, "r".to_string()));
    let result = execute("MATCH (a)-[]->(b), (b)-[]->(a) RETURN a.id, b.id", &graph).unwrap();
    assert_eq!(result.rows.len(), 2);
    let pairs: Vec<(i64, i64)> = result
        .rows
        .iter()
        .map(|r| {
            (
                r.get("a.id").unwrap().as_i64().unwrap(),
                r.get("b.id").unwrap().as_i64().unwrap(),
            )
        })
        .collect();
    assert_eq!(pairs, vec![(1, 2), (2, 1)]);
}

#[test]
fn string_comparison_is_lexicographic() {
    let mut graph = Graph::new();
    graph.add_node(Node::new("a".to_string(), None, obj(vec![("value", s("10"))])));
    graph.add_node(Node::new("b".to_string(), None, obj(vec![("value", s("2"))])));
    let result = execute("MATCH (n) WHERE n.value > \"9\" RETURN n.value", &graph).unwrap();
    assert_eq!(result.rows.len(), 0);
    let result = execute("MATCH (n) WHERE n.value < \"9\" RETURN n.value", &graph).unwrap();
    assert_eq!(result.rows.len(), 2);
    assert_eq!(result.rows[0].get("n.value").unwrap().as_i64(), Some(10));
    assert_eq!(result.rows[1].get("n.value").unwrap().as_i64(), Some(2));
}

#[test]
fn sum_skips_nodes_without_the_property() {
    let mut graph = Graph::new();
    graph.add_node(Node::new("1".to_string(), None, obj(vec![("age", n(30))])));
    graph.add_node(Node::new("2".to_string(), None, obj(vec![("name", s("x"))])));
    graph.add_node(Node::new("3".to_string(), None, obj(vec![("age", s("old"))])));
    assert_eq!(single_i64(&graph, "MATCH (n) RETURN SUM(n.age)"), Some(30));
}

#[test]
fn mixed_return_is_an_execution_error() {
    let graph = create_test_graph();
    let r = execute("MATCH (n) RETURN n.id, COUNT(n)", &graph);
    assert!(matches!(r, Err(EngineError::ExecutionError(_))));
    let r = execute("MATCH (n) RETURN COUNT(n), n.id", &graph);
    assert!(matches!(r, Err(EngineError::ExecutionError(_))));
}

#[test]
fn typed_relationship_returns_both_ends() {
    let graph = create_test_graph();
    let result = execute("MATCH (a)-[:knows]->(b) RETURN a.id, b.id", &graph).unwrap();
    assert_eq!(result.columns, vec!["a.id".to_string(), "b.id".to_string()]);
    assert_eq!(result.rows.len(), 2);
    assert_eq!(result.rows[0].get("a.id").unwrap().as_i64(), Some(1));
    assert_eq!(result.rows[0].get("b.id").unwrap().as_i64(), Some(2));
    assert_eq!(result.rows[1].get("a.id").unwrap().as_i64(), Some(2));
    assert_eq!(result.rows[1].get("b.id").unwrap().as_i64(), Some(3));
}

#[test]
fn relationship_variable_and_directions() {
    let graph = create_test_graph();
    let result = execute("MATCH (a)-[r]->(b) RETURN r.type, r", &graph).unwrap();
    assert_eq!(result.rows.len(), 2);
    match result.rows[0].get("r.type").unwrap() {
        JsonValue::String(t) => assert_eq!(t, "knows"),
        _ => panic!("expected a string"),
    }
    let left = execute("MATCH (a)<-[]-(b) RETURN COUNT(a)", &graph).unwrap();
    assert_eq!(left.get_single_value().unwrap().as_i64(), Some(2));
    let both = execute("MATCH (a)-[]-(b) RETURN COUNT(a)", &graph).unwrap();
    assert_eq!(both.get_single_value().unwrap().as_i64(), Some(4));
    let none = execute("MATCH (a)-[:likes]->(b) RETURN COUNT(a)", &graph).unwrap();
    assert_eq!(none.get_single_value().unwrap().as_i64(), Some(0));
}

#[test]
fn projection_of_text_missing_values_and_comparisons() {
    let graph = create_test_graph();
    let result =
        execute("MATCH (n:user) RETURN n.role, n.missing, n.age > \"3\" AS older, n", &graph)
            .unwrap();
    assert_eq!(result.columns, vec!["n.role", "n.missing", "older", "n"]);
    let row = &result.rows[0];
    match row.get("n.role").unwrap() {
        JsonValue::String(t) => assert_eq!(t, "user"),
        _ => panic!("expected a string"),
    }
    match row.get("n.missing").unwrap() {
        JsonValue::String(t) => assert_eq!(t, "null"),
        _ => panic!("expected a string"),
    }
    assert!(matches!(row.get("older").unwrap(), JsonValue::Bool(false)));
    assert_eq!(row.get("n").unwrap().as_i64(), Some(2));
}

#[test]
fn where_truthiness_and_boolean_logic() {
    let mut graph = Graph::new();
    graph.add_node(Node::new("1".to_string(), None, obj(vec![("flag", s("yes")), ("k", n(1))])));
    graph.add_node(Node::new("2".to_string(), None, obj(vec![("flag", s("")), ("k", n(2))])));
    graph.add_node(Node::new("3".to_string(), None, obj(vec![("k", n(3))])));
    assert_eq!(single_i64(&graph, "MATCH (n) WHERE n.flag RETURN COUNT(n)"), Some(1));
    assert_eq!(
        single_i64(&graph, "MATCH (n) WHERE n.k = 1 OR n.k = 3 RETURN COUNT(n)"),
        Some(2)
    );
    assert_eq!(
        single_i64(&graph, "MATCH (n) WHERE n.k >= 2 AND n.k <> 3 RETURN COUNT(n)"),
        Some(1)
    );
    assert_eq!(single_i64(&graph, "MATCH (n) WHERE n.k <= \"1\" RETURN COUNT(n)"), Some(1));
}

#[test]
fn unmatched_pattern_gives_zero_rows_and_zero_aggregates() {
    let graph = create_test_graph();
    let rows = execute("MATCH (n:nobody) RETURN n.id", &graph).unwrap();
    assert_eq!(rows.rows.len(), 0);
    assert_eq!(single_i64(&graph, "MATCH (n:nobody) RETURN SUM(n.age)"), Some(0));
}

#[test]
fn several_aggregates_give_one_row() {
    let graph = create_test_graph();
    let result = execute("MATCH (n) RETURN COUNT(n), SUM(n.age) AS total", &graph).unwrap();
    assert_eq!(result.rows.len(), 1);
    assert_eq!(result.columns, vec!["COUNT(n)", "total"]);
    assert_eq!(result.rows[0].get("total").unwrap().as_i64(), Some(90));
    assert_eq!(result.get_single_value().map(|v| v.as_i64()), None);
}

#[test]
fn parse_failure_is_reported_as_parse_error() {
    let graph = create_test_graph();
    assert!(matches!(execute("MATCH n RETURN n", &graph), Err(EngineError::ParseError(_))));
}

#[test]
fn entity_ids_compare_by_value() {
    assert!(EntityId::Node(1) == EntityId::Node(1));
    assert!(EntityId::Node(1) != EntityId::Node(2));
    let a = EntityId::Relationship { from_idx: 0, to_idx: 1, rel: "knows".to_string() };
    let b = EntityId::Relationship { from_idx: 0, to_idx: 1, rel: "knows".to_string() };
    let c = EntityId::Relationship { from_idx: 0, to_idx: 1, rel: "likes".to_string() };
    assert!(a == b);
    assert!(a != c);
    assert!(a != EntityId::Node(0));
}

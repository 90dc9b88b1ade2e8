use cypher_rs::parser::ast::{
    AggregateFunction, ComparisonOperator, Direction, Expression, Literal, PatternChain, Term,
};
use cypher_rs::parser::{parse_query, ParseError};

#[test]
fn test_parse_basic() {
    let q = "MATCH (n:UC) RETURN n.id";
    let parsed = parse_query(q).unwrap();
    assert_eq!(parsed.match_clause.patterns.len(), 1);
    assert_eq!(parsed.return_clause.items.len(), 1);
}

#[test]
fn test_parse_relationship() {
    let q = "MATCH (n:UC)-[r:realized_by]->(m:FR) RETURN n, m";
    let parsed = parse_query(q).unwrap();
    assert_eq!(parsed.match_clause.patterns.len(), 1);
}

#[test]
fn test_parse_where() {
    let q = "MATCH (n) WHERE n.id = \"UC_001\" RETURN n";
    let parsed = parse_query(q).unwrap();
    assert!(parsed.where_clause.is_some());
}

#[test]
fn test_parse_alias() {
    let q = "MATCH (n) RETURN n.id AS identifier";
    let parsed = parse_query(q).unwrap();
    let item = &parsed.return_clause.items[0];
    assert_eq!(item.alias, Some("identifier".to_string()));
}

#[test]
fn test_parse_count() {
    let q = "MATCH (n) RETURN COUNT(n)";
    let parsed = parse_query(q).unwrap();
    assert_eq!(parsed.return_clause.items.len(), 1);
}

#[test]
fn test_parse_sum() {
    let q = "MATCH (n) RETURN SUM(n.value)";
    let parsed = parse_query(q).unwrap();
    assert_eq!(parsed.return_clause.items.len(), 1);
}

#[test]
fn parse_relationship_details() {
    let parsed = parse_query("MATCH (a:X:Y)<-[r:A|B*2..5]-(b) RETURN a").unwrap();
    let chains = &parsed.match_clause.patterns[0].chains;
    assert_eq!(chains.len(), 2);
    match &chains[0] {
        PatternChain::Node(np) => {
            assert_eq!(np.variable, Some("a".to_string()));
            assert_eq!(np.labels, vec!["X".to_string(), "Y".to_string()]);
        }
        _ => panic!("first link is not a node"),
    }
    match &chains[1] {
        PatternChain::Relationship(rp, np) => {
            assert!(matches!(rp.direction, Direction::Left));
            assert_eq!(rp.variable, Some("r".to_string()));
            assert_eq!(rp.rel_type, Some("A".to_string()));
            let range = rp.range.as_ref().unwrap();
            assert_eq!(range.start, Some(2));
            assert_eq!(range.end, Some(5));
            assert_eq!(np.variable, Some("b".to_string()));
        }
        _ => panic!("second link is not a relationship"),
    }
}

#[test]
fn parse_directions_and_exact_range() {
    let parsed = parse_query("MATCH (a)-[*3]-(b)-->(c) RETURN a").unwrap();
    let chains = &parsed.match_clause.patterns[0].chains;
    match &chains[1] {
        PatternChain::Relationship(rp, _) => {
            assert!(matches!(rp.direction, Direction::Both));
            let range = rp.range.as_ref().unwrap();
            assert_eq!(range.start, Some(3));
            assert_eq!(range.end, Some(3));
        }
        _ => panic!("expected a relationship"),
    }
    match &chains[2] {
        PatternChain::Relationship(rp, _) => assert!(matches!(rp.direction, Direction::Right)),
        _ => panic!("expected a relationship"),
    }
}

#[test]
fn parse_keywords_in_any_case_and_boolean_structure() {
    let parsed =
        parse_query("match (n) where n.a = 1 and n.b contains 'x' or n.c return n.a as A, sum(n.v)")
            .unwrap();
    match &parsed.where_clause.as_ref().unwrap().expression {
        Expression::Or(parts) => {
            assert_eq!(parts.len(), 2);
            match &parts[0] {
                Expression::And(cs) => {
                    assert_eq!(cs.len(), 2);
                    match &cs[0] {
                        Expression::Comparison(c) => {
                            assert!(matches!(c.operator, Some(ComparisonOperator::Eq)));
                            assert!(matches!(c.right, Some(Term::Literal(Literal::Number(1)))));
                        }
                        _ => panic!("expected a comparison"),
                    }
                    match &cs[1] {
                        Expression::Comparison(c) => {
                            assert!(matches!(c.operator, Some(ComparisonOperator::Contains)))
                        }
                        _ => panic!("expected a comparison"),
                    }
                }
                _ => panic!("expected AND"),
            }
            match &parts[1] {
                Expression::Comparison(c) => assert!(c.operator.is_none()),
                _ => panic!("expected a bare reference"),
            }
        }
        _ => panic!("expected OR"),
    }
    assert_eq!(parsed.return_clause.items[0].alias, Some("A".to_string()));
    match &parsed.return_clause.items[1].expression {
        Expression::Aggregate(agg) => {
            assert!(matches!(agg.func, AggregateFunction::Sum));
            assert_eq!(agg.property, Some("v".to_string()));
        }
        _ => panic!("expected an aggregate"),
    }
}

#[test]
fn parse_errors_are_distinct() {
    assert!(matches!(parse_query("RETURN n"), Err(ParseError::MissingMatch)));
    assert!(matches!(parse_query("  "), Err(ParseError::MissingMatch)));
    assert!(matches!(parse_query("MATCH (n)"), Err(ParseError::MissingReturn)));
    assert!(matches!(
        parse_query("MATCH (n) RETURN AVG(n.x)"),
        Err(ParseError::UnknownAggregate(_))
    ));
    match parse_query("MATCH (n RETURN n") {
        Err(ParseError::Syntax { position, fragment }) => {
            assert_eq!(position, 9);
            assert_eq!(fragment, "RETURN n");
        }
        _ => panic!("expected a syntax error"),
    }
    assert!(matches!(
        parse_query("MATCH (n) RETURN n extra"),
        Err(ParseError::Syntax { .. })
    ));
}

#[test]
fn relationship_alternatives_follow_a_type() {
    assert!(parse_query("MATCH (a)-[r:A|:B|C]->(b) RETURN a").is_ok());
    assert!(matches!(
        parse_query("MATCH (a)-[r|A]->(b) RETURN a"),
        Err(ParseError::Syntax { .. })
    ));
}

#[test]
fn range_bounds_hold_their_numbers() {
    let bounds = |q: &str| {
        let parsed = parse_query(q).unwrap();
        match &parsed.match_clause.patterns[0].chains[1] {
            PatternChain::Relationship(rp, _) => {
                let r = rp.range.as_ref().unwrap();
                (r.start, r.end)
            }
            _ => panic!("expected a relationship"),
        }
    };
    assert_eq!(bounds("MATCH (a)-[*1..3]->(b) RETURN a"), (Some(1), Some(3)));
    assert_eq!(bounds("MATCH (a)-[*..5]->(b) RETURN a"), (None, Some(5)));
    assert_eq!(bounds("MATCH (a)-[*2..]->(b) RETURN a"), (Some(2), None));
    assert_eq!(bounds("MATCH (a)-[*]->(b) RETURN a"), (None, None));
    assert_eq!(
        bounds("MATCH (a)-[*99999999999999999999999]->(b) RETURN a"),
        (None, None)
    );
}

#[test]
fn parse_error_messages_describe_the_fragment() {
    assert_eq!(parse_query("MATCH (n RETURN n").unwrap_err().message(), "Syntax error at: RETURN n");
    assert_eq!(
        parse_query("MATCH (n) RETURN avg(n.age)").unwrap_err().message(),
        "Unknown aggregate function: avg"
    );
    assert_eq!(parse_query("RETURN n").unwrap_err().message(), "Missing MATCH clause");
    assert_eq!(parse_query("MATCH (n)").unwrap_err().message(), "Missing RETURN clause");
}

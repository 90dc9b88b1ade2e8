//! The syntax tree of a query.
use vstd::prelude::*;

verus! {

/// `MATCH ... [WHERE ...] RETURN ...`.
#[derive(Debug)]
pub struct Query {
    pub match_clause: MatchClause,
    pub where_clause: Option<WhereClause>,
    pub return_clause: ReturnClause,
}

/// The comma-separated pattern parts after `MATCH`.
#[derive(Debug)]
pub struct MatchClause {
    pub patterns: Vec<PatternPart>,
}

/// A linear path pattern: a node pattern, then relationship and node patterns in turn.
#[derive(Debug)]
pub struct PatternPart {
    pub chains: Vec<PatternChain>,
}

/// One link of a path pattern.
#[derive(Debug)]
pub enum PatternChain {
    Node(NodePattern),
    Relationship(RelationshipPattern, NodePattern),
}

/// `(var:Label1:Label2)`; a node qualifies if its label is any of the labels,
/// or always when there are none.
#[derive(Debug)]
pub struct NodePattern {
    pub variable: Option<String>,
    pub labels: Vec<String>,
}

/// `-[var:TYPE*range]->` and its variants.
#[derive(Debug)]
pub struct RelationshipPattern {
    pub variable: Option<String>,
    pub rel_type: Option<String>,
    pub range: Option<Range>,
    pub direction: Direction,
}

/// `<-...-` is `Left`, `-...->` is `Right`, `-...-` is `Both`.
#[derive(Debug)]
pub enum Direction {
    Left,
    Right,
    Both,
}

/// A hop-range quantifier (`*N`, `*N..M`, `*N..`, `*..M`). It is kept in the
/// tree; matching is single-hop.
#[derive(Debug)]
pub struct Range {
    pub start: Option<usize>,
    pub end: Option<usize>,
}

#[derive(Debug)]
pub struct WhereClause {
    pub expression: Expression,
}

#[derive(Debug)]
pub struct ReturnClause {
    pub items: Vec<ReturnItem>,
}

/// `expression [AS alias]`.
#[derive(Debug)]
pub struct ReturnItem {
    pub expression: Expression,
    pub alias: Option<String>,
}

/// A boolean or projected expression.
#[derive(Debug)]
pub enum Expression {
    And(Vec<Expression>),
    Or(Vec<Expression>),
    Comparison(Comparison),
    Aggregate(AggregateExpression),
}

/// `left [operator right]`; without an operator it is a truthiness test.
#[derive(Debug)]
pub struct Comparison {
    pub left: PropertyOrVariable,
    pub operator: Option<ComparisonOperator>,
    pub right: Option<Term>,
}

#[derive(Debug)]
pub enum ComparisonOperator {
    Eq,
    NotEq,
    Lt,
    Gt,
    LtEq,
    GtEq,
    Contains,
}

#[derive(Debug)]
pub enum Term {
    Literal(Literal),
    PropertyOrVariable(PropertyOrVariable),
}

#[derive(Debug)]
pub enum Literal {
    String(String),
    Number(i64),
}

/// `variable` or `variable.property`.
#[derive(Debug)]
pub struct PropertyOrVariable {
    pub variable: String,
    pub property: Option<String>,
}

/// `FUNC(variable[.property])`.
#[derive(Debug)]
pub struct AggregateExpression {
    pub func: AggregateFunction,
    pub variable: String,
    pub property: Option<String>,
}

#[derive(Debug)]
pub enum AggregateFunction {
    Count,
    Sum,
}

} // verus!

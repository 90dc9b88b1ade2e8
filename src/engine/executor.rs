//! Pattern matching, predicate evaluation and projection of a parsed query.
use vstd::prelude::*;

use crate::assoc::{assoc_get, assoc_map};
use crate::engine::functions::aggregate::{aggregate_column, aggregate_value, context_views};
use crate::engine::functions::{AggregateEvaluator, EvalContext};
use crate::engine::{entries_are, EngineError, EngineResult, QueryResult, RowView};
use crate::parser::ast::{PatternChain, PatternPart, Query, ReturnClause, ReturnItem};
use crate::text::{i64_of_text, parse_i64};
use crate::value::{JsonNumber, JsonValue, Scalar};
use crate::graph::{Edge, Graph};
use crate::parser::ast::{
    Comparison, ComparisonOperator, Direction, Expression, Literal, NodePattern,
    PropertyOrVariable, RelationshipPattern, Term,
};
use crate::text::{i64_text, int_text, seq_contains, seq_lt, text_contains, text_eq, text_lt};
use crate::value::null_text;

verus! {

broadcast use vstd::std_specs::vec::axiom_vec_index_decreases;

/// What a variable is bound to: a node by index, or a relationship by its
/// end points and type.
#[derive(Debug)]
pub enum EntityId {
    Node(usize),
    Relationship { from_idx: usize, to_idx: usize, rel: String },
}

impl Clone for EntityId {
    fn clone(&self) -> (r: Self)
        ensures
            r == *self,
    {
        match self {
            EntityId::Node(i) => EntityId::Node(*i),
            EntityId::Relationship { from_idx, to_idx, rel } => EntityId::Relationship {
                from_idx: *from_idx,
                to_idx: *to_idx,
                rel: rel.clone(),
            },
        }
    }
}

impl PartialEq for EntityId {
    fn eq(&self, other: &EntityId) -> (r: bool) {
        match self {
            EntityId::Node(a) => match other {
                EntityId::Node(b) => *a == *b,
                _ => false,
            },
            EntityId::Relationship { from_idx: f1, to_idx: t1, rel: r1 } => match other {
                EntityId::Relationship { from_idx: f2, to_idx: t2, rel: r2 } => *f1 == *f2 && *t1
                    == *t2 && text_eq(r1.as_str(), r2.as_str()),
                _ => false,
            },
        }
    }
}

impl vstd::std_specs::cmp::PartialEqSpecImpl for EntityId {
    open spec fn obeys_eq_spec() -> bool {
        true
    }

    open spec fn eq_spec(&self, other: &EntityId) -> bool {
        match *self {
            EntityId::Node(a) => other matches EntityId::Node(b) && a == b,
            EntityId::Relationship { from_idx: f1, to_idx: t1, rel: r1 } => other matches EntityId::Relationship {
                from_idx: f2,
                to_idx: t2,
                rel: r2,
            } && f1 == f2 && t1 == t2 && r1@ == r2@,
        }
    }
}

/// Variables bound during matching; a later entry of a variable shadows an
/// earlier one.
#[derive(Debug)]
pub struct Bindings {
    pub entries: Vec<(String, EntityId)>,
}

impl View for Bindings {
    type V = Map<Seq<char>, EntityId>;

    open spec fn view(&self) -> Map<Seq<char>, EntityId> {
        assoc_map(self.entries@)
    }
}

impl Bindings {
    pub fn new() -> (r: Bindings)
        ensures
            r@ == Map::<Seq<char>, EntityId>::empty(),
    {
        Bindings { entries: Vec::new() }
    }

    pub fn get(&self, variable: &str) -> (r: Option<&EntityId>)
        ensures
            r matches Some(e) ==> self@.contains_key(variable@) && self@[variable@] == *e,
            r is None ==> !self@.contains_key(variable@),
    {
        assoc_get(&self.entries, variable)
    }

    pub fn insert(&mut self, variable: String, entity: EntityId)
        ensures
            final(self)@ == old(self)@.insert(variable@, entity),
    {
        self.entries.push((variable, entity));
        proof {
            assert(self.entries@.drop_last() == old(self).entries@);
        }
    }
}

impl Clone for Bindings {
    fn clone(&self) -> (r: Self)
        ensures
            r@ == self@,
    {
        let mut entries: Vec<(String, EntityId)> = Vec::new();
        let mut i: usize = 0;
        while i < self.entries.len()
            invariant
                i <= self.entries@.len(),
                entries@ == self.entries@.subrange(0, i as int),
            decreases self.entries.len() - i,
        {
            let key = self.entries[i].0.clone();
            let entity = self.entries[i].1.clone();
            entries.push((key, entity));
            i = i + 1;
            proof {
                assert(entries@ == self.entries@.subrange(0, i as int));
            }
        }
        proof {
            assert(entries@ == self.entries@);
        }
        Bindings { entries }
    }
}

/// What a set of bindings maps each variable to.
pub type BindingMap = Map<Seq<char>, EntityId>;

/// The views of a sequence of bindings.
pub open spec fn binding_views(s: Seq<Bindings>) -> Seq<BindingMap> {
    s.map_values(|b: Bindings| b@)
}

/// Every node that `b` binds is a node of `g`.
pub open spec fn in_graph(b: BindingMap, g: Graph) -> bool {
    forall|k: Seq<char>|
        #[trigger] b.contains_key(k) && b[k] is Node ==> b[k]->Node_0 < g.nodes@.len()
}

/// Every binding of `s` is `in_graph`.
pub open spec fn all_in_graph(s: Seq<Bindings>, g: Graph) -> bool {
    forall|j: int| 0 <= j < s.len() ==> in_graph(#[trigger] s[j]@, g)
}

/// A node qualifies when the pattern has no labels, or its label is one of them.
pub open spec fn label_matches(labels: Seq<String>, label: Option<String>) -> bool {
    labels.len() == 0 || (label matches Some(l) && exists|j: int|
        0 <= j < labels.len() && #[trigger] labels[j]@ == l@)
}

/// Binds the end variable `var` to node `idx` in `nb`, unless `old_b` already
/// binds it to something else (then the match is dropped).
pub open spec fn bind_end(old_b: BindingMap, nb: BindingMap, var: Option<String>, idx: usize) -> Option<BindingMap> {
    match var {
        None => Some(nb),
        Some(v) => if old_b.contains_key(v@) {
            if old_b[v@] == EntityId::Node(idx) {
                Some(nb)
            } else {
                None
            }
        } else {
            Some(nb.insert(v@, EntityId::Node(idx)))
        },
    }
}

pub open spec fn opt_seq(o: Option<BindingMap>) -> Seq<BindingMap> {
    match o {
        Some(m) => seq![m],
        None => Seq::empty(),
    }
}

/// The extension of `b` by node `i` for a node pattern, if any.
pub open spec fn node_step(pat: NodePattern, g: Graph, b: BindingMap, i: int) -> Option<BindingMap> {
    if label_matches(pat.labels@, g.nodes@[i].label) {
        bind_end(b, b, pat.variable, i as usize)
    } else {
        None
    }
}

/// The extensions of `b` by the first `n` nodes, in node order.
pub open spec fn node_candidates(pat: NodePattern, g: Graph, b: BindingMap, n: int) -> Seq<BindingMap>
    decreases n,
{
    if n <= 0 {
        Seq::empty()
    } else {
        node_candidates(pat, g, b, n - 1) + opt_seq(node_step(pat, g, b, n - 1))
    }
}

/// Joins each binding of `bs`, in order, with every node that the pattern admits.
pub open spec fn match_node(pat: NodePattern, g: Graph, bs: Seq<BindingMap>) -> Seq<BindingMap>
    decreases bs.len(),
{
    if bs.len() == 0 {
        Seq::empty()
    } else {
        match_node(pat, g, bs.drop_last()) + node_candidates(
            pat,
            g,
            bs.last(),
            g.nodes@.len() as int,
        )
    }
}

/// For each edge leaving `s`, in order: its target and type.
pub open spec fn out_pairs(edges: Seq<Edge>, s: usize) -> Seq<(usize, String)>
    decreases edges.len(),
{
    if edges.len() == 0 {
        Seq::empty()
    } else if edges.last().from == s {
        out_pairs(edges.drop_last(), s).push((edges.last().to, edges.last().rel_type))
    } else {
        out_pairs(edges.drop_last(), s)
    }
}

/// For each edge entering `s`, in order: its source and type.
pub open spec fn in_pairs(edges: Seq<Edge>, s: usize) -> Seq<(usize, String)>
    decreases edges.len(),
{
    if edges.len() == 0 {
        Seq::empty()
    } else if edges.last().to == s {
        in_pairs(edges.drop_last(), s).push((edges.last().from, edges.last().rel_type))
    } else {
        in_pairs(edges.drop_last(), s)
    }
}

/// The neighbours of `s` in a direction: outgoing, incoming, or outgoing then incoming.
pub open spec fn neighbor_pairs(g: Graph, s: usize, dir: Direction) -> Seq<(usize, String)> {
    match dir {
        Direction::Right => out_pairs(g.edges@, s),
        Direction::Left => in_pairs(g.edges@, s),
        Direction::Both => out_pairs(g.edges@, s) + in_pairs(g.edges@, s),
    }
}

/// The extension of `b` by one neighbour `p` of start node `s`, if any.
pub open spec fn rel_step(
    rel: RelationshipPattern,
    end: NodePattern,
    g: Graph,
    b: BindingMap,
    s: usize,
    p: (usize, String),
) -> Option<BindingMap> {
    let type_ok = match rel.rel_type {
        Some(t) => p.1@ == t@,
        None => true,
    };
    if type_ok && label_matches(end.labels@, g.nodes@[p.0 as int].label) {
        let nb = match rel.variable {
            Some(rv) => b.insert(
                rv@,
                EntityId::Relationship { from_idx: s, to_idx: p.0, rel: p.1 },
            ),
            None => b,
        };
        bind_end(b, nb, end.variable, p.0)
    } else {
        None
    }
}

/// The extensions of `b` by the neighbours `ps`, in order.
pub open spec fn rel_candidates(
    rel: RelationshipPattern,
    end: NodePattern,
    g: Graph,
    b: BindingMap,
    s: usize,
    ps: Seq<(usize, String)>,
) -> Seq<BindingMap>
    decreases ps.len(),
{
    if ps.len() == 0 {
        Seq::empty()
    } else {
        rel_candidates(rel, end, g, b, s, ps.drop_last()) + opt_seq(
            rel_step(rel, end, g, b, s, ps.last()),
        )
    }
}

/// The one-hop extensions of `b` from the node bound to `start`; none when
/// `start` is not bound to a node.
pub open spec fn rel_extensions(
    start: Seq<char>,
    rel: RelationshipPattern,
    end: NodePattern,
    g: Graph,
    b: BindingMap,
) -> Seq<BindingMap> {
    if b.contains_key(start) && b[start] is Node {
        let s = b[start]->Node_0;
        rel_candidates(rel, end, g, b, s, neighbor_pairs(g, s, rel.direction))
    } else {
        Seq::empty()
    }
}

/// Extends each binding of `bs`, in order, by one hop from `start`.
pub open spec fn match_rel(
    start: Seq<char>,
    rel: RelationshipPattern,
    end: NodePattern,
    g: Graph,
    bs: Seq<BindingMap>,
) -> Seq<BindingMap>
    decreases bs.len(),
{
    if bs.len() == 0 {
        Seq::empty()
    } else {
        match_rel(start, rel, end, g, bs.drop_last()) + rel_extensions(
            start,
            rel,
            end,
            g,
            bs.last(),
        )
    }
}

/// The text `type`.
pub open spec fn type_text() -> Seq<char> {
    seq!['t', 'y', 'p', 'e']
}

/// The text of a reference under a binding: a node's property (or `null`),
/// a node's id, a relationship's type; `null` when the variable is unbound.
pub open spec fn resolve(pv: PropertyOrVariable, b: BindingMap, g: Graph) -> Seq<char> {
    if b.contains_key(pv.variable@) {
        match b[pv.variable@] {
            EntityId::Node(idx) => match pv.property {
                Some(p) => match g.nodes@[idx as int].spec_property_text(p@) {
                    Some(t) => t,
                    None => null_text(),
                },
                None => g.nodes@[idx as int].id@,
            },
            EntityId::Relationship { rel, .. } => match pv.property {
                Some(p) => if p@ == type_text() {
                    rel@
                } else {
                    null_text()
                },
                None => rel@,
            },
        }
    } else {
        null_text()
    }
}

/// The text of the right-hand side of a comparison.
pub open spec fn term_text(t: Term, b: BindingMap, g: Graph) -> Seq<char> {
    match t {
        Term::Literal(Literal::String(s)) => s@,
        Term::Literal(Literal::Number(n)) => int_text(n as int),
        Term::PropertyOrVariable(pv) => resolve(pv, b, g),
    }
}

/// A bare reference holds when its text is neither empty nor `null`.
pub open spec fn truthy(s: Seq<char>) -> bool {
    s.len() > 0 && s != null_text()
}

/// Comparison of two texts: equality, lexicographic order, or containment.
pub open spec fn compare(op: ComparisonOperator, l: Seq<char>, r: Seq<char>) -> bool {
    match op {
        ComparisonOperator::Eq => l == r,
        ComparisonOperator::NotEq => l != r,
        ComparisonOperator::Lt => seq_lt(l, r),
        ComparisonOperator::Gt => seq_lt(r, l),
        ComparisonOperator::LtEq => !seq_lt(r, l),
        ComparisonOperator::GtEq => !seq_lt(l, r),
        ComparisonOperator::Contains => seq_contains(l, r),
    }
}

pub open spec fn comparison_holds(c: Comparison, b: BindingMap, g: Graph) -> bool {
    let l = resolve(c.left, b, g);
    match c.right {
        Some(t) => match c.operator {
            Some(op) => compare(op, l, term_text(t, b, g)),
            None => truthy(l),
        },
        None => truthy(l),
    }
}

/// The truth of a predicate under a binding. An aggregate holds.
pub open spec fn eval_bool(e: Expression, b: BindingMap, g: Graph) -> bool
    decreases e,
{
    match e {
        Expression::And(es) => all_hold(es@, b, g),
        Expression::Or(es) => any_holds(es@, b, g),
        Expression::Comparison(c) => comparison_holds(c, b, g),
        Expression::Aggregate(_) => true,
    }
}

/// Every predicate of `es` holds.
pub open spec fn all_hold(es: Seq<Expression>, b: BindingMap, g: Graph) -> bool
    decreases es,
{
    if es.len() == 0 {
        true
    } else {
        all_hold(es.subrange(0, es.len() - 1), b, g) && eval_bool(es[es.len() - 1], b, g)
    }
}

/// Some predicate of `es` holds.
pub open spec fn any_holds(es: Seq<Expression>, b: BindingMap, g: Graph) -> bool
    decreases es,
{
    if es.len() == 0 {
        false
    } else {
        any_holds(es.subrange(0, es.len() - 1), b, g) || eval_bool(es[es.len() - 1], b, g)
    }
}

proof fn lemma_all_hold_prefix(es: Seq<Expression>, n: int, b: BindingMap, g: Graph)
    requires
        0 <= n <= es.len(),
        all_hold(es, b, g),
    ensures
        all_hold(es.subrange(0, n), b, g),
    decreases es.len(),
{
    if n < es.len() {
        lemma_all_hold_prefix(es.subrange(0, es.len() - 1), n, b, g);
        assert(es.subrange(0, es.len() - 1).subrange(0, n) == es.subrange(0, n));
    } else {
        assert(es.subrange(0, n) == es);
    }
}

proof fn lemma_any_holds_prefix(es: Seq<Expression>, n: int, b: BindingMap, g: Graph)
    requires
        0 <= n <= es.len(),
        any_holds(es.subrange(0, n), b, g),
    ensures
        any_holds(es, b, g),
    decreases es.len(),
{
    if n < es.len() {
        assert(es.subrange(0, es.len() - 1).subrange(0, n) == es.subrange(0, n));
        lemma_any_holds_prefix(es.subrange(0, es.len() - 1), n, b, g);
    } else {
        assert(es.subrange(0, n) == es);
    }
}


/// The value of a projected expression under a binding: a bare reference
/// gives a number when its text is an integer, else its text; a comparison
/// gives its truth; anything else is null.
pub open spec fn value_scalar(e: Expression, b: BindingMap, g: Graph) -> Scalar {
    match e {
        Expression::Comparison(c) => if c.operator is None && c.right is None {
            let t = resolve(c.left, b, g);
            match i64_of_text(t) {
                Some(n) => Scalar::Int(n),
                None => Scalar::Text(t),
            }
        } else {
            Scalar::Bool(eval_bool(e, b, g))
        },
        _ => Scalar::Null,
    }
}

/// The text `expression`.
pub open spec fn expression_text() -> Seq<char> {
    seq!['e', 'x', 'p', 'r', 'e', 's', 's', 'i', 'o', 'n']
}

/// The default column name of an expression: `var.prop` or `var` for a bare
/// reference, `FUNC(...)` for an aggregate, else `expression`.
pub open spec fn expression_column(e: Expression) -> Seq<char> {
    match e {
        Expression::Comparison(c) => if c.operator is None && c.right is None {
            match c.left.property {
                Some(p) => c.left.variable@ + seq!['.'] + p@,
                None => c.left.variable@,
            }
        } else {
            expression_text()
        },
        Expression::Aggregate(agg) => aggregate_column(agg),
        _ => expression_text(),
    }
}

/// The column name of a RETURN item: its alias, else the default name.
pub open spec fn item_column(item: ReturnItem) -> Seq<char> {
    match item.alias {
        Some(a) => a@,
        None => expression_column(item.expression),
    }
}

/// The column names of RETURN items, in order.
pub open spec fn item_columns(items: Seq<ReturnItem>) -> Seq<Seq<char>> {
    items.map_values(|it: ReturnItem| item_column(it))
}

/// The first position of `key` in a row.
pub open spec fn key_pos(row: RowView, key: Seq<char>) -> Option<int>
    decreases row.len(),
{
    if row.len() == 0 {
        None
    } else {
        match key_pos(row.drop_last(), key) {
            Some(i) => Some(i),
            None => if row.last().0 == key {
                Some(row.len() - 1)
            } else {
                None
            },
        }
    }
}

/// Sets `key` to `v` in a row: in place where the key is present, else at the end.
pub open spec fn set_entry(row: RowView, key: Seq<char>, v: Scalar) -> RowView {
    match key_pos(row, key) {
        Some(i) => row.update(i, (key, v)),
        None => row.push((key, v)),
    }
}

/// The row of one binding, from the first `n` RETURN items.
pub open spec fn normal_row(items: Seq<ReturnItem>, b: BindingMap, g: Graph, n: int) -> RowView
    decreases n,
{
    if n <= 0 {
        Seq::empty()
    } else {
        set_entry(
            normal_row(items, b, g, n - 1),
            item_column(items[n - 1]),
            value_scalar(items[n - 1].expression, b, g),
        )
    }
}

/// The rows of all bindings, in order.
pub open spec fn normal_rows(items: Seq<ReturnItem>, bs: Seq<BindingMap>, g: Graph) -> Seq<RowView> {
    bs.map_values(|b: BindingMap| normal_row(items, b, g, items.len() as int))
}

/// The node bindings of a binding, as an evaluation context sees them.
pub open spec fn ctx_of(b: BindingMap) -> Map<Seq<char>, usize> {
    Map::new(|k: Seq<char>| b.contains_key(k) && b[k] is Node, |k: Seq<char>| b[k]->Node_0)
}

pub open spec fn contexts_of(bs: Seq<BindingMap>) -> Seq<Map<Seq<char>, usize>> {
    bs.map_values(|b: BindingMap| ctx_of(b))
}

pub open spec fn is_aggregate(item: ReturnItem) -> bool {
    item.expression is Aggregate
}

pub open spec fn has_aggregate(items: Seq<ReturnItem>) -> bool {
    exists|j: int| 0 <= j < items.len() && is_aggregate(#[trigger] items[j])
}

pub open spec fn all_aggregate(items: Seq<ReturnItem>) -> bool {
    forall|j: int| 0 <= j < items.len() ==> is_aggregate(#[trigger] items[j])
}

/// The single row of an all-aggregate RETURN, from its first `n` items.
pub open spec fn aggregate_row(
    items: Seq<ReturnItem>,
    ctxs: Seq<Map<Seq<char>, usize>>,
    g: Graph,
    n: int,
) -> RowView
    decreases n,
{
    if n <= 0 {
        Seq::empty()
    } else {
        set_entry(
            aggregate_row(items, ctxs, g, n - 1),
            item_column(items[n - 1]),
            Scalar::Int(aggregate_value(items[n - 1].expression->Aggregate_0, ctxs, g)),
        )
    }
}

pub open spec fn opt_view(o: Option<String>) -> Option<Seq<char>> {
    match o {
        Some(s) => Some(s@),
        None => None,
    }
}

/// One link of a pattern chain applied to the bindings and the last node
/// variable seen. A relationship with no node variable before it is skipped.
pub open spec fn run_chain(
    g: Graph,
    st: (Seq<BindingMap>, Option<Seq<char>>),
    c: PatternChain,
) -> (Seq<BindingMap>, Option<Seq<char>>) {
    match c {
        PatternChain::Node(np) => (
            match_node(np, g, st.0),
            match np.variable {
                Some(v) => Some(v@),
                None => st.1,
            },
        ),
        PatternChain::Relationship(rp, np) => match st.1 {
            Some(sv) => (
                match_rel(sv, rp, np, g, st.0),
                match np.variable {
                    Some(v) => Some(v@),
                    None => st.1,
                },
            ),
            None => st,
        },
    }
}

/// A pattern part's chain applied left to right.
pub open spec fn run_chains(g: Graph, chains: Seq<PatternChain>, bs: Seq<BindingMap>) -> (
    Seq<BindingMap>,
    Option<Seq<char>>,
)
    decreases chains.len(),
{
    if chains.len() == 0 {
        (bs, None)
    } else {
        run_chain(g, run_chains(g, chains.drop_last(), bs), chains.last())
    }
}

/// The pattern parts applied in turn, each to the bindings of the one before.
pub open spec fn run_patterns(g: Graph, parts: Seq<PatternPart>, bs: Seq<BindingMap>) -> Seq<
    BindingMap,
>
    decreases parts.len(),
{
    if parts.len() == 0 {
        bs
    } else {
        run_chains(g, parts.last().chains@, run_patterns(g, parts.drop_last(), bs)).0
    }
}

/// The bindings that the MATCH clause produces, from a single empty binding.
pub open spec fn matched(q: Query, g: Graph) -> Seq<BindingMap> {
    run_patterns(g, q.match_clause.patterns@, seq![Map::<Seq<char>, EntityId>::empty()])
}

/// The bindings of `bs` under which `e` holds, in order.
pub open spec fn filter_true(e: Expression, bs: Seq<BindingMap>, g: Graph) -> Seq<BindingMap>
    decreases bs.len(),
{
    if bs.len() == 0 {
        Seq::empty()
    } else if eval_bool(e, bs.last(), g) {
        filter_true(e, bs.drop_last(), g).push(bs.last())
    } else {
        filter_true(e, bs.drop_last(), g)
    }
}

/// The bindings that survive WHERE.
pub open spec fn filtered(q: Query, g: Graph) -> Seq<BindingMap> {
    match q.where_clause {
        Some(w) => filter_true(w.expression, matched(q, g), g),
        None => matched(q, g),
    }
}

/// The RETURN clause mixes aggregate and non-aggregate items.
pub open spec fn mixed_return(items: Seq<ReturnItem>) -> bool {
    has_aggregate(items) && !all_aggregate(items)
}

/// The table that a query yields, where it does not mix aggregates: one row of
/// aggregates, or one row per surviving binding.
pub open spec fn result_rows(q: Query, g: Graph) -> Seq<RowView> {
    let items = q.return_clause.items@;
    if has_aggregate(items) {
        seq![aggregate_row(items, contexts_of(filtered(q, g)), g, items.len() as int)]
    } else {
        normal_rows(items, filtered(q, g), g)
    }
}

proof fn lemma_entries_update(
    es: Seq<(String, JsonValue)>,
    row: RowView,
    i: int,
    e: (String, JsonValue),
    x: (Seq<char>, Scalar),
)
    requires
        entries_are(es, row),
        0 <= i < es.len(),
        e.0@ == x.0,
        e.1.spec_is(x.1),
    ensures
        entries_are(es.update(i, e), row.update(i, x)),
{
    assert forall|k: int| 0 <= k < es.len() implies #[trigger] es.update(i, e)[k].0@ == row.update(
        i,
        x,
    )[k].0 && es.update(i, e)[k].1.spec_is(row.update(i, x)[k].1) by {
        if k != i {
            assert(es[k].0@ == row[k].0);
        }
    }
}

proof fn lemma_entries_push(
    es: Seq<(String, JsonValue)>,
    row: RowView,
    e: (String, JsonValue),
    x: (Seq<char>, Scalar),
)
    requires
        entries_are(es, row),
        e.0@ == x.0,
        e.1.spec_is(x.1),
    ensures
        entries_are(es.push(e), row.push(x)),
{
    assert forall|k: int| 0 <= k < es.len() + 1 implies #[trigger] es.push(e)[k].0@ == row.push(
        x,
    )[k].0 && es.push(e)[k].1.spec_is(row.push(x)[k].1) by {
        if k < es.len() {
            assert(es[k].0@ == row[k].0);
        }
    }
}

proof fn lemma_key_pos_prefix(row: RowView, m: int, key: Seq<char>)
    requires
        0 <= m <= row.len(),
        key_pos(row.subrange(0, m), key) is Some,
    ensures
        key_pos(row, key) == key_pos(row.subrange(0, m), key),
    decreases row.len(),
{
    if m < row.len() {
        assert(row.drop_last().subrange(0, m) == row.subrange(0, m));
        lemma_key_pos_prefix(row.drop_last(), m, key);
    } else {
        assert(row.subrange(0, m) == row);
    }
}

fn labels_match(labels: &Vec<String>, label: &Option<String>) -> (r: bool)
    ensures
        r == label_matches(labels@, *label),
{
    if labels.len() == 0 {
        return true;
    }
    match label {
        None => false,
        Some(l) => {
            let mut j: usize = 0;
            while j < labels.len()
                invariant
                    *label == Some(*l),
                    j <= labels@.len(),
                    forall|q: int| 0 <= q < j ==> labels@[q]@ != l@,
                decreases labels.len() - j,
            {
                if text_eq(labels[j].as_str(), l.as_str()) {
                    proof {
                        let jj = j as int;
                        assert(labels@[jj]@ == l@);
                        assert(0 <= jj < labels@.len() && labels@[jj]@ == l@);
                        assert(*label == Some(*l));
                    }
                    return true;
                }
                j = j + 1;
            }
            false
        },
    }
}

/// The neighbours of node `start` in direction `dir`.
fn neighbors(graph: &Graph, start: usize, dir: &Direction) -> (r: Vec<(usize, String)>)
    requires
        graph.wf(),
    ensures
        r@ == neighbor_pairs(*graph, start, *dir),
        forall|k: int| 0 <= k < r@.len() ==> #[trigger] r@[k].0 < graph.nodes@.len(),
{
    let mut r: Vec<(usize, String)> = Vec::new();
    match dir {
        Direction::Left => {},
        _ => {
            let mut i: usize = 0;
            while i < graph.edges.len()
                invariant
                    graph.wf(),
                    i <= graph.edges@.len(),
                    r@ == out_pairs(graph.edges@.subrange(0, i as int), start),
                    forall|k: int| 0 <= k < r@.len() ==> #[trigger] r@[k].0 < graph.nodes@.len(),
                decreases graph.edges.len() - i,
            {
                proof {
                    assert(graph.edges@.subrange(0, i + 1).drop_last() == graph.edges@.subrange(
                        0,
                        i as int,
                    ));
                }
                let e = &graph.edges[i];
                if e.from == start {
                    r.push((e.to, e.rel_type.clone()));
                }
                i = i + 1;
            }
            proof {
                assert(graph.edges@.subrange(0, i as int) == graph.edges@);
            }
        },
    }
    match dir {
        Direction::Right => {},
        _ => {
            let mut i: usize = 0;
            let ghost front = r@;
            while i < graph.edges.len()
                invariant
                    graph.wf(),
                    i <= graph.edges@.len(),
                    r@ == front + in_pairs(graph.edges@.subrange(0, i as int), start),
                    forall|k: int| 0 <= k < r@.len() ==> #[trigger] r@[k].0 < graph.nodes@.len(),
                decreases graph.edges.len() - i,
            {
                proof {
                    assert(graph.edges@.subrange(0, i + 1).drop_last() == graph.edges@.subrange(
                        0,
                        i as int,
                    ));
                }
                let e = &graph.edges[i];
                if e.to == start {
                    r.push((e.from, e.rel_type.clone()));
                    proof {
                        assert(r@ =~= front + in_pairs(
                            graph.edges@.subrange(0, i + 1),
                            start,
                        ));
                    }
                }
                i = i + 1;
            }
            proof {
                assert(graph.edges@.subrange(0, i as int) == graph.edges@);
                assert(r@ =~= front + in_pairs(graph.edges@, start));
            }
        },
    }
    r
}


/// Sets `key` to `value` in a row object's entries, as `set_entry` does.
fn set_row_entry(
    row: &mut Vec<(String, JsonValue)>,
    key: String,
    value: JsonValue,
    Ghost(rv): Ghost<RowView>,
    Ghost(sv): Ghost<Scalar>,
)
    requires
        entries_are(old(row)@, rv),
        value.spec_is(sv),
    ensures
        entries_are(final(row)@, set_entry(rv, key@, sv)),
{
    let mut i: usize = 0;
    proof {
        assert(rv.subrange(0, 0) =~= Seq::<(Seq<char>, Scalar)>::empty());
    }
    while i < row.len()
        invariant
            row@ == old(row)@,
            value.spec_is(sv),
            entries_are(row@, rv),
            i <= row@.len(),
            key_pos(rv.subrange(0, i as int), key@) is None,
        decreases row.len() - i,
    {
        proof {
            assert(rv.subrange(0, i + 1).drop_last() == rv.subrange(0, i as int));
            assert(row@[i as int].0@ == rv[i as int].0);
        }
        if text_eq(row[i].0.as_str(), key.as_str()) {
            proof {
                assert(key_pos(rv.subrange(0, i + 1), key@) == Some(i as int));
                lemma_key_pos_prefix(rv, i + 1, key@);
            }
            proof {
                lemma_entries_update(row@, rv, i as int, (key, value), (key@, sv));
            }
            row.set(i, (key, value));
            return;
        }
        i = i + 1;
    }
    proof {
        assert(rv.subrange(0, i as int) == rv);
    }
    proof {
        lemma_entries_push(row@, rv, (key, value), (key@, sv));
    }
    row.push((key, value));
}

/// The evaluation context of a binding: its node bindings.
fn context_of(bindings: &Bindings) -> (r: EvalContext)
    ensures
        r@ == ctx_of(bindings@),
{
    let mut ctx = EvalContext::new();
    let mut i: usize = 0;
    let ghost b = bindings@;
    proof {
        assert(assoc_map(bindings.entries@.subrange(0, 0)) == Map::<Seq<char>, EntityId>::empty());
        assert(ctx@ =~= Map::new(
            |k: Seq<char>|
                assoc_map(bindings.entries@.subrange(0, 0)).contains_key(k) && b.contains_key(
                    k,
                ) && b[k] is Node,
            |k: Seq<char>| b[k]->Node_0,
        ));
    }
    while i < bindings.entries.len()
        invariant
            b == bindings@,
            i <= bindings.entries@.len(),
            ctx@ == Map::new(
                |k: Seq<char>|
                    assoc_map(bindings.entries@.subrange(0, i as int)).contains_key(k)
                        && b.contains_key(k) && b[k] is Node,
                |k: Seq<char>| b[k]->Node_0,
            ),
        decreases bindings.entries.len() - i,
    {
        let key = &bindings.entries[i].0;
        let ghost pre = bindings.entries@.subrange(0, i + 1);
        proof {
            assert(pre.drop_last() == bindings.entries@.subrange(0, i as int));
            assert(pre.last() == bindings.entries@[i as int]);
        }
        match bindings.get(key.as_str()) {
            Some(EntityId::Node(idx)) => {
                ctx.bind(key.clone(), *idx);
            },
            _ => {},
        }
        i = i + 1;
        proof {
            assert(ctx@ =~= Map::new(
                |k: Seq<char>|
                    assoc_map(bindings.entries@.subrange(0, i as int)).contains_key(k)
                        && b.contains_key(k) && b[k] is Node,
                |k: Seq<char>| b[k]->Node_0,
            ));
        }
    }
    proof {
        assert(bindings.entries@.subrange(0, i as int) == bindings.entries@);
        assert(ctx@ =~= ctx_of(b));
    }
    ctx
}

/// Cypher query executor.
#[derive(Debug)]
pub struct QueryExecutor;

impl QueryExecutor {
    /// Joins each binding with every node that the pattern admits.
    pub fn match_node_pattern(
        node_pat: &NodePattern,
        graph: &Graph,
        current_bindings: Vec<Bindings>,
    ) -> (r: Vec<Bindings>)
        requires
            all_in_graph(current_bindings@, *graph),
        ensures
            binding_views(r@) == match_node(*node_pat, *graph, binding_views(current_bindings@)),
            all_in_graph(r@, *graph),
    {
        let mut next: Vec<Bindings> = Vec::new();
        let ghost cur = binding_views(current_bindings@);
        let mut i: usize = 0;
        while i < current_bindings.len()
            invariant
                i <= current_bindings@.len(),
                cur == binding_views(current_bindings@),
                all_in_graph(current_bindings@, *graph),
                binding_views(next@) == match_node(*node_pat, *graph, cur.subrange(0, i as int)),
                all_in_graph(next@, *graph),
            decreases current_bindings.len() - i,
        {
            let bindings = &current_bindings[i];
            let ghost b = bindings@;
            let ghost before = binding_views(next@);
            proof {
                assert(cur.subrange(0, i + 1).drop_last() == cur.subrange(0, i as int));
                assert(cur.subrange(0, i + 1).last() == b);
                assert(before + node_candidates(*node_pat, *graph, b, 0) == before);
            }
            let mut n: usize = 0;
            while n < graph.nodes.len()
                invariant
                    n <= graph.nodes@.len(),
                    b == bindings@,
                    in_graph(b, *graph),
                    binding_views(next@) == before + node_candidates(*node_pat, *graph, b, n as int),
                    all_in_graph(next@, *graph),
                decreases graph.nodes.len() - n,
            {
                let node = &graph.nodes[n];
                let ghost prev = binding_views(next@);
                if labels_match(&node_pat.labels, &node.label) {
                    match &node_pat.variable {
                        Some(var) => {
                            match bindings.get(var.as_str()) {
                                Some(entity) => {
                                    match entity {
                                        EntityId::Node(prev_idx) => {
                                            if *prev_idx == n {
                                                next.push(bindings.clone());
                                            }
                                        },
                                        _ => {},
                                    }
                                },
                                None => {
                                    let mut nb = bindings.clone();
                                    nb.insert(var.clone(), EntityId::Node(n));
                                    next.push(nb);
                                },
                            }
                        },
                        None => {
                            next.push(bindings.clone());
                        },
                    }
                }
                proof {
                    let step = opt_seq(node_step(*node_pat, *graph, b, n as int));
                    assert(binding_views(next@) =~= prev + step);
                    assert(before + node_candidates(*node_pat, *graph, b, n + 1) =~= prev + step);
                }
                n = n + 1;
            }
            i = i + 1;
        }
        proof {
            assert(cur.subrange(0, i as int) == cur);
        }
        next
    }

    /// Extends each binding by one hop from the node bound to `start_node_var`,
    /// along edges in the pattern's direction, of its type, to nodes that the
    /// end pattern admits. Bindings where the start is not a node are dropped.
    pub fn match_relationship_pattern(
        start_node_var: &str,
        rel_pat: &RelationshipPattern,
        end_node_pat: &NodePattern,
        graph: &Graph,
        current_bindings: Vec<Bindings>,
    ) -> (r: Vec<Bindings>)
        requires
            graph.wf(),
            all_in_graph(current_bindings@, *graph),
        ensures
            binding_views(r@) == match_rel(
                start_node_var@,
                *rel_pat,
                *end_node_pat,
                *graph,
                binding_views(current_bindings@),
            ),
            all_in_graph(r@, *graph),
    {
        // The neighbours of every node in the pattern's direction, built once.
        let mut adjacency: Vec<Vec<(usize, String)>> = Vec::new();
        let mut node: usize = 0;
        while node < graph.nodes.len()
            invariant
                graph.wf(),
                node <= graph.nodes@.len(),
                adjacency@.len() == node,
                forall|n: int| 0 <= n < node ==> (#[trigger] adjacency@[n])@ == neighbor_pairs(
                    *graph,
                    n as usize,
                    rel_pat.direction,
                ),
                forall|n: int, q: int|
                    0 <= n < node && 0 <= q < adjacency@[n]@.len() ==> #[trigger] adjacency@[n]@[q].0
                        < graph.nodes@.len(),
            decreases graph.nodes.len() - node,
        {
            adjacency.push(neighbors(graph, node, &rel_pat.direction));
            node = node + 1;
        }
        let mut next: Vec<Bindings> = Vec::new();
        let ghost cur = binding_views(current_bindings@);
        let ghost start = start_node_var@;
        let mut i: usize = 0;
        while i < current_bindings.len()
            invariant
                graph.wf(),
                adjacency@.len() == graph.nodes@.len(),
                forall|n: int| 0 <= n < adjacency@.len() ==> (#[trigger] adjacency@[n])@ == neighbor_pairs(
                    *graph,
                    n as usize,
                    rel_pat.direction,
                ),
                forall|n: int, q: int|
                    0 <= n < adjacency@.len() && 0 <= q < adjacency@[n]@.len() ==> #[trigger] adjacency@[n]@[q].0
                        < graph.nodes@.len(),
                i <= current_bindings@.len(),
                cur == binding_views(current_bindings@),
                start == start_node_var@,
                all_in_graph(current_bindings@, *graph),
                binding_views(next@) == match_rel(
                    start,
                    *rel_pat,
                    *end_node_pat,
                    *graph,
                    cur.subrange(0, i as int),
                ),
                all_in_graph(next@, *graph),
            decreases current_bindings.len() - i,
        {
            let bindings = &current_bindings[i];
            let ghost b = bindings@;
            let ghost before = binding_views(next@);
            proof {
                assert(cur.subrange(0, i + 1).drop_last() == cur.subrange(0, i as int));
                assert(cur.subrange(0, i + 1).last() == b);
            }
            match bindings.get(start_node_var) {
                Some(EntityId::Node(start_idx)) => {
                    let start_idx = *start_idx;
                    proof {
                        assert(in_graph(b, *graph));
                        assert(b.contains_key(start_node_var@));
                    }
                    let neighbors = &adjacency[start_idx];
                    proof {
                        assert(neighbors@ == neighbor_pairs(*graph, start_idx, rel_pat.direction));
                        assert forall|q: int| 0 <= q < neighbors@.len() implies #[trigger] neighbors@[q].0 < graph.nodes@.len() by {
                            assert(adjacency@[start_idx as int]@[q].0 < graph.nodes@.len());
                        }
                    }
                    let ghost ps = neighbors@;
                    proof {
                        assert(ps.subrange(0, 0) =~= Seq::<(usize, String)>::empty());
                        assert(before + rel_candidates(*rel_pat, *end_node_pat, *graph, b, start_idx, ps.subrange(0, 0)) =~= before);
                    }
                    let mut k: usize = 0;
                    while k < neighbors.len()
                        invariant
                            k <= neighbors@.len(),
                            ps == neighbors@,
                            b == bindings@,
                            in_graph(b, *graph),
                            forall|q: int| 0 <= q < neighbors@.len() ==> #[trigger] neighbors@[q].0 < graph.nodes@.len(),
                            binding_views(next@) == before + rel_candidates(
                                *rel_pat,
                                *end_node_pat,
                                *graph,
                                b,
                                start_idx,
                                ps.subrange(0, k as int),
                            ),
                            all_in_graph(next@, *graph),
                        decreases neighbors.len() - k,
                    {
                        let next_idx = neighbors[k].0;
                        let rel = &neighbors[k].1;
                        let ghost prev = binding_views(next@);
                        proof {
                            assert(ps.subrange(0, k + 1).drop_last() == ps.subrange(0, k as int));
                            assert(ps.subrange(0, k + 1).last() == ps[k as int]);
                        }
                        let rel_match = match &rel_pat.rel_type {
                            Some(t) => text_eq(rel.as_str(), t.as_str()),
                            None => true,
                        };
                        if rel_match {
                            let node = &graph.nodes[next_idx];
                            if labels_match(&end_node_pat.labels, &node.label) {
                                let mut new_bindings = bindings.clone();
                                if let Some(r_var) = &rel_pat.variable {
                                    new_bindings.insert(
                                        r_var.clone(),
                                        EntityId::Relationship {
                                            from_idx: start_idx,
                                            to_idx: next_idx,
                                            rel: rel.clone(),
                                        },
                                    );
                                }
                                match &end_node_pat.variable {
                                    Some(var) => {
                                        match bindings.get(var.as_str()) {
                                            Some(EntityId::Node(prev_idx)) => {
                                                if *prev_idx == next_idx {
                                                    next.push(new_bindings);
                                                }
                                            },
                                            Some(_) => {},
                                            None => {
                                                new_bindings.insert(var.clone(), EntityId::Node(next_idx));
                                                next.push(new_bindings);
                                            },
                                        }
                                    },
                                    None => {
                                        next.push(new_bindings);
                                    },
                                }
                            }
                        }
                        proof {
                            let step = opt_seq(rel_step(*rel_pat, *end_node_pat, *graph, b, start_idx, ps[k as int]));
                            assert(binding_views(next@) =~= prev + step);
                            assert(before + rel_candidates(*rel_pat, *end_node_pat, *graph, b, start_idx, ps.subrange(0, k + 1)) =~= prev + step);
                        }
                        k = k + 1;
                    }
                    proof {
                        assert(ps.subrange(0, k as int) == ps);
                        assert(binding_views(next@) =~= before + rel_extensions(start, *rel_pat, *end_node_pat, *graph, b));
                    }
                },
                _ => {
                    proof {
                        assert(binding_views(next@) =~= before + rel_extensions(start, *rel_pat, *end_node_pat, *graph, b));
                    }
                },
            }
            i = i + 1;
        }
        proof {
            assert(cur.subrange(0, i as int) == cur);
        }
        next
    }

    /// The text of a reference under a binding, as `resolve` gives it.
    pub fn evaluate_property_or_variable(
        pv: &PropertyOrVariable,
        bindings: &Bindings,
        graph: &Graph,
    ) -> (r: String)
        requires
            in_graph(bindings@, *graph),
        ensures
            r@ == resolve(*pv, bindings@, *graph),
    {
        proof {
            reveal_strlit("null");
            reveal_strlit("type");
            assert("null"@ =~= null_text());
            assert("type"@ =~= type_text());
        }
        match bindings.get(pv.variable.as_str()) {
            Some(entity) => match entity {
                EntityId::Node(idx) => {
                    let node = &graph.nodes[*idx];
                    match &pv.property {
                        Some(prop) => match node.get_property_as_string(prop.as_str()) {
                            Some(s) => s,
                            None => String::from_str("null"),
                        },
                        None => node.id.clone(),
                    }
                },
                EntityId::Relationship { rel, .. } => match &pv.property {
                    Some(prop) => if text_eq(prop.as_str(), "type") {
                        rel.clone()
                    } else {
                        String::from_str("null")
                    },
                    None => rel.clone(),
                },
            },
            None => String::from_str("null"),
        }
    }

    /// The truth of a predicate under a binding, as `eval_bool` gives it.
    pub fn evaluate_expression(expr: &Expression, bindings: &Bindings, graph: &Graph) -> (r: bool)
        requires
            in_graph(bindings@, *graph),
        ensures
            r == eval_bool(*expr, bindings@, *graph),
        decreases expr,
    {
        match expr {
            Expression::And(exprs) => {
                let mut i: usize = 0;
                proof {
                    assert(exprs@.subrange(0, 0) =~= Seq::<Expression>::empty());
                }
                while i < exprs.len()
                    invariant
                        *expr == Expression::And(*exprs),
                        in_graph(bindings@, *graph),
                        i <= exprs@.len(),
                        all_hold(exprs@.subrange(0, i as int), bindings@, *graph),
                    decreases exprs.len() - i,
                {
                    proof {
                        assert(decreases_to!(*expr => expr->And_0));
                        assert(decreases_to!(*expr => exprs[i as int]));
                    }
                    let ok = Self::evaluate_expression(&exprs[i], bindings, graph);
                    proof {
                        let pre = exprs@.subrange(0, i + 1);
                        assert(pre.subrange(0, pre.len() - 1) == exprs@.subrange(0, i as int));
                        assert(pre[pre.len() - 1] == exprs@[i as int]);
                    }
                    if !ok {
                        proof {
                            if all_hold(exprs@, bindings@, *graph) {
                                lemma_all_hold_prefix(exprs@, i + 1, bindings@, *graph);
                            }
                        }
                        return false;
                    }
                    i = i + 1;
                }
                proof {
                    assert(exprs@.subrange(0, i as int) == exprs@);
                }
                true
            },
            Expression::Or(exprs) => {
                let mut i: usize = 0;
                proof {
                    assert(exprs@.subrange(0, 0) =~= Seq::<Expression>::empty());
                }
                while i < exprs.len()
                    invariant
                        *expr == Expression::Or(*exprs),
                        in_graph(bindings@, *graph),
                        i <= exprs@.len(),
                        !any_holds(exprs@.subrange(0, i as int), bindings@, *graph),
                    decreases exprs.len() - i,
                {
                    proof {
                        assert(decreases_to!(*expr => expr->Or_0));
                        assert(decreases_to!(*expr => exprs[i as int]));
                    }
                    let ok = Self::evaluate_expression(&exprs[i], bindings, graph);
                    proof {
                        let pre = exprs@.subrange(0, i + 1);
                        assert(pre.subrange(0, pre.len() - 1) == exprs@.subrange(0, i as int));
                        assert(pre[pre.len() - 1] == exprs@[i as int]);
                    }
                    if ok {
                        proof {
                            lemma_any_holds_prefix(exprs@, i + 1, bindings@, *graph);
                        }
                        return true;
                    }
                    i = i + 1;
                }
                proof {
                    assert(exprs@.subrange(0, i as int) == exprs@);
                }
                false
            },
            Expression::Comparison(comp) => {
                let left_val = Self::evaluate_property_or_variable(&comp.left, bindings, graph);
                match &comp.right {
                    Some(right_term) => {
                        let right_val = match right_term {
                            Term::Literal(Literal::String(s)) => s.clone(),
                            Term::Literal(Literal::Number(n)) => i64_text(*n),
                            Term::PropertyOrVariable(pv) => Self::evaluate_property_or_variable(
                                pv,
                                bindings,
                                graph,
                            ),
                        };
                        match &comp.operator {
                            Some(op) => match op {
                                ComparisonOperator::Eq => left_val == right_val,
                                ComparisonOperator::NotEq => !(left_val == right_val),
                                ComparisonOperator::Contains => text_contains(
                                    left_val.as_str(),
                                    right_val.as_str(),
                                ),
                                ComparisonOperator::Lt => text_lt(left_val.as_str(), right_val.as_str()),
                                ComparisonOperator::Gt => text_lt(right_val.as_str(), left_val.as_str()),
                                ComparisonOperator::LtEq => !text_lt(right_val.as_str(), left_val.as_str()),
                                ComparisonOperator::GtEq => !text_lt(left_val.as_str(), right_val.as_str()),
                            },
                            None => Self::is_truthy(&left_val),
                        }
                    },
                    None => Self::is_truthy(&left_val),
                }
            },
            Expression::Aggregate(_) => true,
        }
    }

    /// The value of a projected expression, as `value_scalar` gives it.
    pub fn evaluate_expression_value(expr: &Expression, bindings: &Bindings, graph: &Graph) -> (r:
        JsonValue)
        requires
            in_graph(bindings@, *graph),
        ensures
            r.spec_is(value_scalar(*expr, bindings@, *graph)),
    {
        match expr {
            Expression::Comparison(comp) => {
                if comp.operator.is_none() && comp.right.is_none() {
                    let val = Self::evaluate_property_or_variable(&comp.left, bindings, graph);
                    match parse_i64(val.as_str()) {
                        Some(n) => JsonValue::Number(JsonNumber::Int(n)),
                        None => JsonValue::String(val),
                    }
                } else {
                    JsonValue::Bool(Self::evaluate_expression(expr, bindings, graph))
                }
            },
            _ => JsonValue::Null,
        }
    }

    /// The default column name of an expression, as `expression_column` gives it.
    pub fn expression_column_name(expr: &Expression) -> (r: String)
        ensures
            r@ == expression_column(*expr),
    {
        proof {
            reveal_strlit("expression");
            reveal_strlit(".");
            assert("expression"@ =~= expression_text());
        }
        match expr {
            Expression::Comparison(comp) => {
                if comp.operator.is_none() && comp.right.is_none() {
                    match &comp.left.property {
                        Some(prop) => comp.left.variable.clone().concat(".").concat(prop.as_str()),
                        None => comp.left.variable.clone(),
                    }
                } else {
                    String::from_str("expression")
                }
            },
            Expression::Aggregate(agg) => AggregateEvaluator::column_name(agg),
            _ => String::from_str("expression"),
        }
    }

    /// The column name of a RETURN item, as `item_column` gives it.
    fn item_column_name(item: &ReturnItem) -> (r: String)
        ensures
            r@ == item_column(*item),
    {
        match &item.alias {
            Some(a) => a.clone(),
            None => Self::expression_column_name(&item.expression),
        }
    }

    /// One row per binding, one column per RETURN item.
    pub fn execute_normal_return(
        return_clause: &ReturnClause,
        bindings_list: Vec<Bindings>,
        graph: &Graph,
    ) -> (r: EngineResult<QueryResult>)
        requires
            all_in_graph(bindings_list@, *graph),
        ensures
            r matches Ok(res) && res.is_table(
                item_columns(return_clause.items@),
                normal_rows(return_clause.items@, binding_views(bindings_list@), *graph),
            ),
    {
        let items = &return_clause.items;
        let mut columns: Vec<String> = Vec::new();
        let mut j: usize = 0;
        while j < items.len()
            invariant
                j <= items@.len(),
                columns@.len() == j,
                forall|q: int| 0 <= q < j ==> #[trigger] columns@[q]@ == item_column(items@[q]),
            decreases items.len() - j,
        {
            columns.push(Self::item_column_name(&items[j]));
            j = j + 1;
        }
        let mut rows: Vec<JsonValue> = Vec::new();
        let ghost views = binding_views(bindings_list@);
        let mut i: usize = 0;
        while i < bindings_list.len()
            invariant
                i <= bindings_list@.len(),
                views == binding_views(bindings_list@),
                all_in_graph(bindings_list@, *graph),
                columns@.len() == items@.len(),
                forall|q: int| 0 <= q < items@.len() ==> #[trigger] columns@[q]@ == item_column(items@[q]),
                rows@.len() == i,
                forall|r: int| 0 <= r < i ==> crate::engine::row_is(
                    #[trigger] rows@[r],
                    normal_row(items@, views[r], *graph, items@.len() as int),
                ),
            decreases bindings_list.len() - i,
        {
            let bindings = &bindings_list[i];
            proof {
                assert(in_graph(bindings_list@[i as int]@, *graph));
            }
            let mut row: Vec<(String, JsonValue)> = Vec::new();
            let mut k: usize = 0;
            while k < items.len()
                invariant
                    k <= items@.len(),
                    in_graph(bindings@, *graph),
                    columns@.len() == items@.len(),
                    forall|q: int| 0 <= q < items@.len() ==> #[trigger] columns@[q]@ == item_column(items@[q]),
                    entries_are(row@, normal_row(items@, bindings@, *graph, k as int)),
                decreases items.len() - k,
            {
                let value = Self::evaluate_expression_value(&items[k].expression, bindings, graph);
                set_row_entry(
                    &mut row,
                    columns[k].clone(),
                    value,
                    Ghost(normal_row(items@, bindings@, *graph, k as int)),
                    Ghost(value_scalar(items@[k as int].expression, bindings@, *graph)),
                );
                k = k + 1;
            }
            rows.push(JsonValue::Object(row));
            i = i + 1;
        }
        let res = QueryResult { columns, rows };
        proof {
            let cols = item_columns(items@);
            assert forall|q: int| 0 <= q < cols.len() implies #[trigger] res.columns@[q]@ == cols[q] by {
                assert(res.columns@[q]@ == item_column(items@[q]));
            }
            let want = normal_rows(items@, views, *graph);
            assert forall|r: int| 0 <= r < want.len() implies crate::engine::row_is(#[trigger] res.rows@[r], want[r]) by {
                assert(crate::engine::row_is(res.rows@[r], normal_row(items@, views[r], *graph, items@.len() as int)));
            }
        }
        Ok(res)
    }

    /// The single row of an all-aggregate RETURN; an error when an item is not
    /// an aggregate.
    pub fn execute_aggregate_return(
        return_clause: &ReturnClause,
        bindings_list: Vec<Bindings>,
        graph: &Graph,
    ) -> (r: EngineResult<QueryResult>)
        requires
            all_in_graph(bindings_list@, *graph),
        ensures
            r is Err <==> !all_aggregate(return_clause.items@),
            r matches Err(e) ==> e is ExecutionError,
            r matches Ok(res) ==> res.is_table(
                item_columns(return_clause.items@),
                seq![
                    aggregate_row(
                        return_clause.items@,
                        contexts_of(binding_views(bindings_list@)),
                        *graph,
                        return_clause.items@.len() as int,
                    ),
                ],
            ),
    {
        let items = &return_clause.items;
        let ghost ctx_views = contexts_of(binding_views(bindings_list@));
        let mut contexts: Vec<EvalContext> = Vec::new();
        let mut i: usize = 0;
        while i < bindings_list.len()
            invariant
                i <= bindings_list@.len(),
                all_in_graph(bindings_list@, *graph),
                ctx_views == contexts_of(binding_views(bindings_list@)),
                context_views(contexts@) == ctx_views.subrange(0, i as int),
            decreases bindings_list.len() - i,
        {
            let ctx = context_of(&bindings_list[i]);
            let ghost before = contexts@;
            proof {
                assert(binding_views(bindings_list@)[i as int] == bindings_list@[i as int]@);
                assert(ctx_views[i as int] == ctx@);
            }
            contexts.push(ctx);
            proof {
                assert(context_views(before.push(ctx)) =~= context_views(before).push(ctx@));
                assert(ctx_views.subrange(0, i + 1) =~= ctx_views.subrange(0, i as int).push(ctx_views[i as int]));
            }
            i = i + 1;
        }
        proof {
            assert(ctx_views.subrange(0, i as int) == ctx_views);
        }
        let mut columns: Vec<String> = Vec::new();
        let mut row: Vec<(String, JsonValue)> = Vec::new();
        let mut k: usize = 0;
        while k < items.len()
            invariant
                items@ == return_clause.items@,
                k <= items@.len(),
                all_in_graph(bindings_list@, *graph),
                ctx_views == contexts_of(binding_views(bindings_list@)),
                context_views(contexts@) == ctx_views,
                forall|q: int| 0 <= q < k ==> is_aggregate(#[trigger] items@[q]),
                columns@.len() == k,
                forall|q: int| 0 <= q < k ==> #[trigger] columns@[q]@ == item_column(items@[q]),
                entries_are(row@, aggregate_row(items@, ctx_views, *graph, k as int)),
            decreases items.len() - k,
        {
            let column_name = Self::item_column_name(&items[k]);
            match &items[k].expression {
                Expression::Aggregate(agg) => {
                    proof {
                        assert forall|c: int|
                            0 <= c < ctx_views.len() && #[trigger] ctx_views[c].contains_key(
                                agg.variable@,
                            ) implies ctx_views[c][agg.variable@] < graph.nodes@.len() by {
                            assert(in_graph(bindings_list@[c]@, *graph));
                            assert(binding_views(bindings_list@)[c] == bindings_list@[c]@);
                        }
                    }
                    let value = match AggregateEvaluator::evaluate(agg, contexts.as_slice(), graph) {
                        Ok(v) => v,
                        Err(_) => {
                            proof {
                                assert(false);
                            }
                            JsonValue::Null
                        },
                    };
                    columns.push(column_name.clone());
                    set_row_entry(
                        &mut row,
                        column_name,
                        value,
                        Ghost(aggregate_row(items@, ctx_views, *graph, k as int)),
                        Ghost(Scalar::Int(aggregate_value(*agg, ctx_views, *graph))),
                    );
                },
                _ => {
                    proof {
                        assert(!is_aggregate(items@[k as int]));
                    }
                    return Err(
                        EngineError::ExecutionError(
                            String::from_str("Mixed aggregate and non-aggregate in RETURN"),
                        ),
                    );
                },
            }
            k = k + 1;
        }
        let mut rows: Vec<JsonValue> = Vec::new();
        rows.push(JsonValue::Object(row));
        let res = QueryResult { columns, rows };
        proof {
            let cols = item_columns(items@);
            assert forall|q: int| 0 <= q < cols.len() implies #[trigger] res.columns@[q]@ == cols[q] by {
                assert(res.columns@[q]@ == item_column(items@[q]));
            }
        }
        Ok(res)
    }

    /// Runs a parsed query: matches every pattern part in turn from a single
    /// empty binding, keeps the bindings that satisfy WHERE, then projects
    /// them with RETURN. A RETURN that mixes aggregates with other items is
    /// an execution error.
    pub fn execute(query: &Query, graph: &Graph) -> (r: EngineResult<QueryResult>)
        requires
            graph.wf(),
        ensures
            r is Err <==> mixed_return(query.return_clause.items@),
            r matches Err(e) ==> e is ExecutionError,
            r matches Ok(res) ==> res.is_table(
                item_columns(query.return_clause.items@),
                result_rows(*query, *graph),
            ),
    {
        let mut bindings_list: Vec<Bindings> = Vec::new();
        bindings_list.push(Bindings::new());
        let ghost init = binding_views(bindings_list@);
        proof {
            assert(init =~= seq![Map::<Seq<char>, EntityId>::empty()]);
        }
        let patterns = &query.match_clause.patterns;
        let mut p: usize = 0;
        while p < patterns.len()
            invariant
                graph.wf(),
                p <= patterns@.len(),
                binding_views(bindings_list@) == run_patterns(
                    *graph,
                    patterns@.subrange(0, p as int),
                    init,
                ),
                all_in_graph(bindings_list@, *graph),
            decreases patterns.len() - p,
        {
            let chains = &patterns[p].chains;
            let ghost base = binding_views(bindings_list@);
            let mut last_node_variable: Option<String> = None;
            let mut c: usize = 0;
            proof {
                assert(chains@.subrange(0, 0) =~= Seq::<PatternChain>::empty());
            }
            while c < chains.len()
                invariant
                    graph.wf(),
                    c <= chains@.len(),
                    (binding_views(bindings_list@), opt_view(last_node_variable)) == run_chains(
                        *graph,
                        chains@.subrange(0, c as int),
                        base,
                    ),
                    all_in_graph(bindings_list@, *graph),
                decreases chains.len() - c,
            {
                proof {
                    assert(chains@.subrange(0, c + 1).drop_last() == chains@.subrange(0, c as int));
                    assert(chains@.subrange(0, c + 1).last() == chains@[c as int]);
                }
                match &chains[c] {
                    PatternChain::Node(node_pat) => {
                        if let Some(v) = &node_pat.variable {
                            last_node_variable = Some(v.clone());
                        }
                        bindings_list = Self::match_node_pattern(node_pat, graph, bindings_list);
                    },
                    PatternChain::Relationship(rel_pat, node_pat) => {
                        match &last_node_variable {
                            Some(start_var) => {
                                bindings_list = Self::match_relationship_pattern(
                                    start_var.as_str(),
                                    rel_pat,
                                    node_pat,
                                    graph,
                                    bindings_list,
                                );
                                if let Some(v) = &node_pat.variable {
                                    last_node_variable = Some(v.clone());
                                }
                            },
                            None => {},
                        }
                    },
                }
                c = c + 1;
            }
            proof {
                assert(chains@.subrange(0, c as int) == chains@);
                assert(patterns@.subrange(0, p + 1).drop_last() == patterns@.subrange(0, p as int));
                assert(patterns@.subrange(0, p + 1).last() == patterns@[p as int]);
            }
            p = p + 1;
        }
        proof {
            assert(patterns@.subrange(0, p as int) == patterns@);
        }
        if let Some(where_clause) = &query.where_clause {
            let ghost all = binding_views(bindings_list@);
            let mut kept: Vec<Bindings> = Vec::new();
            let mut i: usize = 0;
            proof {
                assert(all.subrange(0, 0) =~= Seq::<BindingMap>::empty());
            }
            while i < bindings_list.len()
                invariant
                    i <= bindings_list@.len(),
                    all == binding_views(bindings_list@),
                    all_in_graph(bindings_list@, *graph),
                    all_in_graph(kept@, *graph),
                    binding_views(kept@) == filter_true(
                        where_clause.expression,
                        all.subrange(0, i as int),
                        *graph,
                    ),
                decreases bindings_list.len() - i,
            {
                proof {
                    assert(all.subrange(0, i + 1).drop_last() == all.subrange(0, i as int));
                    assert(all.subrange(0, i + 1).last() == bindings_list@[i as int]@);
                    assert(in_graph(bindings_list@[i as int]@, *graph));
                }
                if Self::evaluate_expression(&where_clause.expression, &bindings_list[i], graph) {
                    kept.push(bindings_list[i].clone());
                    proof {
                        assert(binding_views(kept@) =~= filter_true(
                            where_clause.expression,
                            all.subrange(0, i + 1),
                            *graph,
                        ));
                    }
                }
                i = i + 1;
            }
            proof {
                assert(all.subrange(0, i as int) == all);
            }
            bindings_list = kept;
        }
        let items = &query.return_clause.items;
        let mut has_aggregate = false;
        let mut j: usize = 0;
        while j < items.len()
            invariant
                j <= items@.len(),
                has_aggregate <==> exists|q: int| 0 <= q < j && is_aggregate(#[trigger] items@[q]),
            decreases items.len() - j,
        {
            if let Expression::Aggregate(_) = &items[j].expression {
                has_aggregate = true;
                proof {
                    assert(is_aggregate(items@[j as int]));
                }
            }
            j = j + 1;
        }
        if has_aggregate {
            Self::execute_aggregate_return(&query.return_clause, bindings_list, graph)
        } else {
            Self::execute_normal_return(&query.return_clause, bindings_list, graph)
        }
    }

    fn is_truthy(s: &String) -> (r: bool)
        ensures
            r == truthy(s@),
    {
        proof {
            reveal_strlit("null");
            assert("null"@ =~= null_text());
        }
        s.as_str().unicode_len() > 0 && !text_eq(s.as_str(), "null")
    }
}

} // verus!

//! Properties of query execution, stated over the specification functions
//! that the executor's contracts use, and proved.
use vstd::prelude::*;

use crate::engine::executor::{
    aggregate_row, all_aggregate, contexts_of, filtered, has_aggregate, is_aggregate,
    item_column, item_columns, label_matches, match_node, match_rel, matched, mixed_return,
    node_candidates, node_step, opt_seq, rel_candidates, rel_extensions, rel_step, result_rows,
    run_chains, run_patterns, set_entry, neighbor_pairs, BindingMap, EntityId,
};
use crate::engine::functions::aggregate::{sum_over, sum_term};
use crate::engine::{row_is, QueryResult};
use crate::graph::{Graph, Node};
use crate::parser::ast::{
    AggregateExpression, Expression, NodePattern, PatternChain, PatternPart, Query,
    RelationshipPattern, ReturnItem,
};
use crate::parser::{
    and_list, and_link, and_reads, char_at, chain_ends, chain_link, comparison_reads, expr_reads,
    ident_stop, item_link, item_reads, items_read, keyword_at, label_link, labels_read,
    node_reads, node_var_end, or_list, or_link, part_reads, pattern_link, patterns_read,
    query_reads, where_reads, ws_end,
};
use crate::value::{JsonValue, Scalar};

verus! {

/// The number of the first `k` nodes whose label is exactly `label`.
pub open spec fn label_count(nodes: Seq<Node>, label: Seq<char>, k: int) -> nat
    decreases k,
{
    if k <= 0 {
        0
    } else {
        label_count(nodes, label, k - 1) + if nodes[k - 1].label matches Some(l) && l@
            == label {
            1nat
        } else {
            0nat
        }
    }
}

/// `q` is `MATCH (v[:Label...]) RETURN COUNT(...)` with the node pattern `np`,
/// no WHERE, and a single COUNT item.
pub open spec fn single_node_count(q: Query, np: NodePattern) -> bool {
    &&& q.match_clause.patterns@.len() == 1
    &&& q.match_clause.patterns@[0].chains@ == seq![PatternChain::Node(np)]
    &&& np.variable is Some
    &&& q.where_clause is None
    &&& q.return_clause.items@.len() == 1
    &&& q.return_clause.items@[0].expression matches Expression::Aggregate(agg) && agg.func
        is Count
}

/// Two results hold the same values: a string by its characters, any other
/// scalar as it is.
pub open spec fn same_scalar(a: JsonValue, b: JsonValue) -> bool {
    match a {
        JsonValue::String(x) => b matches JsonValue::String(y) && x@ == y@,
        JsonValue::Null => b is Null,
        JsonValue::Bool(_) => a == b,
        JsonValue::Number(_) => a == b,
        _ => false,
    }
}

/// Two query results have the same columns and the same rows.
pub open spec fn same_table(r1: QueryResult, r2: QueryResult) -> bool {
    &&& r1.columns@.len() == r2.columns@.len()
    &&& forall|i: int| 0 <= i < r1.columns@.len() ==> #[trigger] r1.columns@[i]@ == r2.columns@[i]@
    &&& r1.rows@.len() == r2.rows@.len()
    &&& forall|r: int|
        0 <= r < r1.rows@.len() ==> (#[trigger] r1.rows@[r] matches JsonValue::Object(e1) && r2.rows@[r] matches JsonValue::Object(e2)
            && e1@.len() == e2@.len() && forall|k: int|
            0 <= k < e1@.len() ==> #[trigger] e1@[k].0@ == e2@[k].0@ && same_scalar(
                e1@[k].1,
                e2@[k].1,
            ))
}

/// `m` extends one of the bindings of `bs`, keeping every variable that it bound.
pub open spec fn extends_one_of(m: BindingMap, bs: Seq<BindingMap>) -> bool {
    exists|j: int| 0 <= j < bs.len() && #[trigger] bs[j].submap_of(m)
}

proof fn lemma_entry_at(es: Seq<(String, JsonValue)>, row: crate::engine::RowView, k: int)
    requires
        crate::engine::entries_are(es, row),
        0 <= k < es.len(),
    ensures
        es[k].0@ == row[k].0,
        es[k].1.spec_is(row[k].1),
{
}

proof fn lemma_count_candidates(np: NodePattern, g: Graph, b: BindingMap, k: int)
    requires
        0 <= k <= g.nodes@.len(),
        np.variable matches Some(v) && !b.contains_key(v@),
        np.labels@.len() == 0,
    ensures
        node_candidates(np, g, b, k).len() == k,
    decreases k,
{
    if k > 0 {
        lemma_count_candidates(np, g, b, k - 1);
    }
}

proof fn lemma_label_candidates(np: NodePattern, g: Graph, b: BindingMap, k: int)
    requires
        0 <= k <= g.nodes@.len(),
        np.variable matches Some(v) && !b.contains_key(v@),
        np.labels@.len() == 1,
    ensures
        node_candidates(np, g, b, k).len() == label_count(g.nodes@, np.labels@[0]@, k),
    decreases k,
{
    if k > 0 {
        lemma_label_candidates(np, g, b, k - 1);
        let label = g.nodes@[k - 1].label;
        if label matches Some(l) && l@ == np.labels@[0]@ {
            assert(label_matches(np.labels@, label));
        } else {
            if label_matches(np.labels@, label) {
                let j = choose|j: int| 0 <= j < np.labels@.len() && #[trigger] np.labels@[j]@ == label->Some_0@;
                assert(j == 0);
            }
        }
    }
}

/// The one-node COUNT query: its single row holds the number of candidate bindings.
proof fn lemma_single_node_count_rows(q: Query, g: Graph, np: NodePattern)
    requires
        single_node_count(q, np),
    ensures
        !mixed_return(q.return_clause.items@),
        result_rows(q, g) == seq![
            seq![
                (
                    item_column(q.return_clause.items@[0]),
                    Scalar::Int(
                        node_candidates(
                            np,
                            g,
                            Map::<Seq<char>, EntityId>::empty(),
                            g.nodes@.len() as int,
                        ).len() as i64,
                    ),
                ),
            ],
        ],
{
    let items = q.return_clause.items@;
    let parts = q.match_clause.patterns@;
    let init = seq![Map::<Seq<char>, EntityId>::empty()];
    assert(is_aggregate(items[0]));
    assert(has_aggregate(items));
    assert(all_aggregate(items));
    assert(parts.drop_last().len() == 0);
    assert(run_patterns(g, parts.drop_last(), init) == init);
    let chains = parts[0].chains@;
    assert(chains.drop_last().len() == 0);
    assert(run_chains(g, chains.drop_last(), init) == (init, Option::<Seq<char>>::None));
    assert(init.drop_last().len() == 0);
    assert(match_node(np, g, init.drop_last()) == Seq::<BindingMap>::empty());
    let cands = node_candidates(np, g, Map::<Seq<char>, EntityId>::empty(), g.nodes@.len() as int);
    assert(match_node(np, g, init) =~= cands);
    assert(matched(q, g) == cands);
    assert(filtered(q, g) == cands);
    let row0 = aggregate_row(items, contexts_of(cands), g, 0);
    assert(row0 == Seq::<(Seq<char>, Scalar)>::empty());
    let col = item_column(items[0]);
    let v = Scalar::Int(contexts_of(cands).len() as i64);
    assert(set_entry(row0, col, v) =~= seq![(col, v)]);
}

/// `MATCH (n) RETURN COUNT(n)` yields one row whose single value is the
/// number of nodes of the graph.
pub proof fn law_count_all_nodes(q: Query, g: Graph, np: NodePattern)
    requires
        single_node_count(q, np),
        np.labels@.len() == 0,
    ensures
        !mixed_return(q.return_clause.items@),
        result_rows(q, g) == seq![
            seq![
                (
                    item_column(q.return_clause.items@[0]),
                    Scalar::Int(g.nodes@.len() as i64),
                ),
            ],
        ],
{
    lemma_single_node_count_rows(q, g, np);
    lemma_count_candidates(np, g, Map::<Seq<char>, EntityId>::empty(), g.nodes@.len() as int);
}

/// `MATCH (n:L) RETURN COUNT(n)` yields one row whose single value is the
/// number of nodes whose label is exactly `L`.
pub proof fn law_count_labelled_nodes(q: Query, g: Graph, np: NodePattern)
    requires
        single_node_count(q, np),
        np.labels@.len() == 1,
    ensures
        !mixed_return(q.return_clause.items@),
        result_rows(q, g) == seq![
            seq![
                (
                    item_column(q.return_clause.items@[0]),
                    Scalar::Int(label_count(g.nodes@, np.labels@[0]@, g.nodes@.len() as int) as i64),
                ),
            ],
        ],
{
    lemma_single_node_count_rows(q, g, np);
    lemma_label_candidates(np, g, Map::<Seq<char>, EntityId>::empty(), g.nodes@.len() as int);
}

/// Executing the same query twice against the same graph gives the same
/// table: a result is determined by the query and the graph alone.
pub proof fn law_execute_idempotent(q: Query, g: Graph, r1: QueryResult, r2: QueryResult)
    requires
        r1.is_table(item_columns(q.return_clause.items@), result_rows(q, g)),
        r2.is_table(item_columns(q.return_clause.items@), result_rows(q, g)),
    ensures
        same_table(r1, r2),
{
    let rows = result_rows(q, g);
    assert forall|i: int| 0 <= i < r1.columns@.len() implies #[trigger] r1.columns@[i]@
        == r2.columns@[i]@ by {
        assert(r1.columns@[i]@ == item_columns(q.return_clause.items@)[i]);
    }
    assert forall|r: int| 0 <= r < r1.rows@.len() implies (#[trigger] r1.rows@[r] matches JsonValue::Object(e1) && r2.rows@[r] matches JsonValue::Object(e2)
        && e1@.len() == e2@.len() && forall|k: int|
        0 <= k < e1@.len() ==> #[trigger] e1@[k].0@ == e2@[k].0@ && same_scalar(
            e1@[k].1,
            e2@[k].1,
        )) by {
        assert(row_is(r1.rows@[r], rows[r]));
        assert(row_is(r2.rows@[r], rows[r]));
        let e1 = r1.rows@[r]->Object_0;
        let e2 = r2.rows@[r]->Object_0;
        assert(crate::engine::entries_are(e1@, rows[r]));
        assert(crate::engine::entries_are(e2@, rows[r]));
        assert forall|k: int| 0 <= k < e1@.len() implies #[trigger] e1@[k].0@ == e2@[k].0@
            && same_scalar(e1@[k].1, e2@[k].1) by {
            lemma_entry_at(e1@, rows[r], k);
            lemma_entry_at(e2@, rows[r], k);
        }
    }
}

proof fn lemma_node_candidates_extend(np: NodePattern, g: Graph, b: BindingMap, k: int)
    ensures
        forall|i: int|
            0 <= i < node_candidates(np, g, b, k).len() ==> b.submap_of(
                #[trigger] node_candidates(np, g, b, k)[i],
            ),
    decreases k,
{
    if k > 0 {
        lemma_node_candidates_extend(np, g, b, k - 1);
        let prev = node_candidates(np, g, b, k - 1);
        let step = opt_seq(node_step(np, g, b, k - 1));
        assert forall|i: int| 0 <= i < (prev + step).len() implies b.submap_of(
            #[trigger] (prev + step)[i],
        ) by {
            if i >= prev.len() {
                assert((prev + step)[i] == step[i - prev.len()]);
            }
        }
    }
}

/// Matching a node pattern keeps every binding it was given: each result
/// extends one of the inputs, so a variable bound before (a reused one)
/// keeps its first value.
pub proof fn law_node_match_keeps_bindings(np: NodePattern, g: Graph, bs: Seq<BindingMap>)
    ensures
        forall|k: int|
            0 <= k < match_node(np, g, bs).len() ==> extends_one_of(
                #[trigger] match_node(np, g, bs)[k],
                bs,
            ),
    decreases bs.len(),
{
    if bs.len() > 0 {
        law_node_match_keeps_bindings(np, g, bs.drop_last());
        let front = match_node(np, g, bs.drop_last());
        let cands = node_candidates(np, g, bs.last(), g.nodes@.len() as int);
        lemma_node_candidates_extend(np, g, bs.last(), g.nodes@.len() as int);
        assert forall|k: int| 0 <= k < (front + cands).len() implies extends_one_of(
            #[trigger] (front + cands)[k],
            bs,
        ) by {
            if k < front.len() {
                let m = front[k];
                assert(extends_one_of(m, bs.drop_last()));
                let j = choose|j: int| 0 <= j < bs.drop_last().len() && #[trigger] bs.drop_last()[j].submap_of(m);
                assert(bs[j] == bs.drop_last()[j]);
            } else {
                assert((front + cands)[k] == cands[k - front.len()]);
                assert(bs[bs.len() - 1] == bs.last());
            }
        }
    }
}

proof fn lemma_rel_candidates_extend(
    rel: RelationshipPattern,
    end: NodePattern,
    g: Graph,
    b: BindingMap,
    s: usize,
    ps: Seq<(usize, String)>,
)
    requires
        rel.variable is None,
    ensures
        forall|i: int|
            0 <= i < rel_candidates(rel, end, g, b, s, ps).len() ==> b.submap_of(
                #[trigger] rel_candidates(rel, end, g, b, s, ps)[i],
            ),
    decreases ps.len(),
{
    if ps.len() > 0 {
        lemma_rel_candidates_extend(rel, end, g, b, s, ps.drop_last());
        let prev = rel_candidates(rel, end, g, b, s, ps.drop_last());
        let step = opt_seq(rel_step(rel, end, g, b, s, ps.last()));
        assert forall|i: int| 0 <= i < (prev + step).len() implies b.submap_of(
            #[trigger] (prev + step)[i],
        ) by {
            if i >= prev.len() {
                assert((prev + step)[i] == step[i - prev.len()]);
            }
        }
    }
}

/// Matching an anonymous relationship keeps every binding it was given: each
/// result extends one of the inputs, so an end variable that was bound
/// before must land on the same node again.
pub proof fn law_relationship_match_keeps_bindings(
    start: Seq<char>,
    rel: RelationshipPattern,
    end: NodePattern,
    g: Graph,
    bs: Seq<BindingMap>,
)
    requires
        rel.variable is None,
    ensures
        forall|k: int|
            0 <= k < match_rel(start, rel, end, g, bs).len() ==> extends_one_of(
                #[trigger] match_rel(start, rel, end, g, bs)[k],
                bs,
            ),
    decreases bs.len(),
{
    if bs.len() > 0 {
        law_relationship_match_keeps_bindings(start, rel, end, g, bs.drop_last());
        let front = match_rel(start, rel, end, g, bs.drop_last());
        let b = bs.last();
        let ext = rel_extensions(start, rel, end, g, b);
        if b.contains_key(start) && b[start] is Node {
            let s = b[start]->Node_0;
            lemma_rel_candidates_extend(rel, end, g, b, s, crate::engine::executor::neighbor_pairs(g, s, rel.direction));
        }
        assert forall|k: int| 0 <= k < (front + ext).len() implies extends_one_of(
            #[trigger] (front + ext)[k],
            bs,
        ) by {
            if k < front.len() {
                let m = front[k];
                assert(extends_one_of(m, bs.drop_last()));
                let j = choose|j: int| 0 <= j < bs.drop_last().len() && #[trigger] bs.drop_last()[j].submap_of(m);
                assert(bs[j] == bs.drop_last()[j]);
            } else {
                assert((front + ext)[k] == ext[k - front.len()]);
                assert(bs[bs.len() - 1] == b);
            }
        }
    }
}

/// SUM passes over a context whose node lacks the property: it adds 0 and
/// raises no error.
pub proof fn law_sum_skips_missing_property(
    agg: AggregateExpression,
    ctxs: Seq<Map<Seq<char>, usize>>,
    ctx: Map<Seq<char>, usize>,
    g: Graph,
)
    requires
        agg.func is Sum,
        agg.property matches Some(p) && (ctx.contains_key(agg.variable@) ==> g.nodes@[ctx[agg.variable@] as int].data.spec_get(p@) is None),
    ensures
        sum_term(agg, ctx, g) == 0,
        sum_over(agg, ctxs.push(ctx), g) == sum_over(agg, ctxs, g),
{
    assert(ctxs.push(ctx).drop_last() == ctxs);
}

/// A RETURN clause that holds an aggregate and a non-aggregate item is a
/// mixed RETURN, which execution rejects with an execution error.
pub proof fn law_mixed_return_rejected(q: Query, i: int, j: int)
    requires
        0 <= i < q.return_clause.items@.len(),
        0 <= j < q.return_clause.items@.len(),
        q.return_clause.items@[i].expression is Aggregate,
        !(q.return_clause.items@[j].expression is Aggregate),
    ensures
        mixed_return(q.return_clause.items@),
{
    assert(is_aggregate(q.return_clause.items@[i]));
    assert(!is_aggregate(q.return_clause.items@[j]));
}

/// The text of the query that counts all nodes.
pub open spec fn count_all_text() -> Seq<char> {
    seq![
        'M', 'A', 'T', 'C', 'H', ' ', '(', 'n', ')', ' ', 'R', 'E', 'T', 'U', 'R', 'N', ' ', 'C',
        'O', 'U', 'N', 'T', '(', 'n', ')'
    ]
}

proof fn lemma_count_all_text_shape(q: Query) -> (np: NodePattern)
    requires
        query_reads(count_all_text(), q),
    ensures
        single_node_count(q, np),
        np.labels@.len() == 0,
        item_column(q.return_clause.items@[0]) == seq!['C', 'O', 'U', 'N', 'T', '(', 'n', ')'],
{
    let s = count_all_text();
    assert(s.len() == 25);
    assert(ws_end(s, 0) == 0);
    assert(ws_end(s, 6) == 6);
    assert(ws_end(s, 5) == 6);
    let pats = q.match_clause.patterns@;
    let pe = choose|pe: Seq<int>|
        #[trigger] patterns_read(s, ws_end(s, ws_end(s, 0) + 5), pats, pe) && exists|r: int|
            #[trigger] where_reads(s, ws_end(s, pe.last()), q.where_clause, r) && keyword_at(
                s,
                r,
                seq!['R', 'E', 'T', 'U', 'R', 'N'],
            ) && exists|ie: Seq<int>|
                #[trigger] items_read(s, ws_end(s, r + 6), q.return_clause.items@, ie)
                    && crate::parser::ends_query(s, ie.last());
    assert(patterns_read(s, 6, pats, pe));
    // The single pattern part: `(n)`.
    let part = pats[0];
    let cends = choose|ends: Seq<int>|
        #[trigger] chain_ends(s, 6, part.chains@, ends) && pe[0] == ends.last() && {
            let qq = ws_end(s, pe[0]);
            !(char_at(s, qq, '<') || char_at(s, qq, '-'))
        };
    let chains = part.chains@;
    let np = chains[0]->Node_0;
    assert(node_reads(s, 6, np, cends[0]));
    assert(ws_end(s, 7) == 7);
    assert(ident_stop(s, 8) == 8);
    assert(ident_stop(s, 7) == 8);
    assert(ws_end(s, 8) == 8);
    assert(node_var_end(s, 6) == 8);
    let lends = choose|ends: Seq<int>|
        #[trigger] labels_read(s, node_var_end(s, 6), np.labels@, ends) && {
            let last = if ends.len() == 0 {
                node_var_end(s, 6)
            } else {
                ends.last()
            };
            char_at(s, last, ')') && cends[0] == last + 1
        };
    if np.labels@.len() > 0 {
        assert(label_link(s, 8, np.labels@, lends, 0));
    }
    assert(np.labels@.len() == 0);
    assert(cends[0] == 9);
    assert(ws_end(s, 10) == 10);
    assert(ws_end(s, 9) == 10);
    if chains.len() > 1 {
        assert(chain_link(s, chains, cends, 1));
    }
    assert(chains.len() == 1);
    assert(chains =~= seq![PatternChain::Node(np)]);
    if pats.len() > 1 {
        assert(pattern_link(s, pats, pe, 1));
    }
    assert(pats.len() == 1);
    assert(pe.last() == 9);
    // No WHERE; RETURN at 10.
    let r = choose|r: int|
        #[trigger] where_reads(s, ws_end(s, pe.last()), q.where_clause, r) && keyword_at(
            s,
            r,
            seq!['R', 'E', 'T', 'U', 'R', 'N'],
        ) && exists|ie: Seq<int>|
            #[trigger] items_read(s, ws_end(s, r + 6), q.return_clause.items@, ie)
                && crate::parser::ends_query(s, ie.last());
    assert(!keyword_at(s, 10, seq!['W', 'H', 'E', 'R', 'E'])) by {
        assert(!crate::text::char_eq_ignore_case(s[10int], 'W'));
    }
    assert(q.where_clause is None);
    assert(r == 10);
    assert(ws_end(s, 17) == 17);
    assert(ws_end(s, 16) == 17);
    let items = q.return_clause.items@;
    let ie = choose|ie: Seq<int>|
        #[trigger] items_read(s, ws_end(s, r + 6), items, ie) && crate::parser::ends_query(s, ie.last());
    assert(items_read(s, 17, items, ie));
    let item = items[0];
    let m = choose|m: int|
        #[trigger] expr_reads(s, 17, item.expression, m) && {
            let qq = ws_end(s, m);
            if keyword_at(s, qq, seq!['A', 'S']) {
                let t = ws_end(s, qq + 2);
                crate::parser::name_at(s, t) && ie[0] == ident_stop(s, t) && (item.alias matches Some(x)
                    && x@ == crate::parser::name_text(s, t))
            } else {
                item.alias is None && ie[0] == m
            }
        };
    // The expression: the aggregate call `COUNT(n)`, ending at 25.
    let (ops, oends) = choose|ps: Seq<Expression>, ends: Seq<int>|
        #[trigger] or_list(s, 17, ps, ends) && ends.last() == m && !keyword_at(
            s,
            ws_end(s, m),
            seq!['O', 'R'],
        ) && crate::parser::joined(ps, item.expression, false);
    let (aps, aends) = choose|ps: Seq<Expression>, ends: Seq<int>|
        #[trigger] and_list(s, 17, ps, ends) && ends.last() == oends[0] && !keyword_at(
            s,
            ws_end(s, oends[0]),
            seq!['A', 'N', 'D'],
        ) && crate::parser::joined(ps, ops[0], true);
    assert(comparison_reads(s, 17, aps[0], aends[0]));
    assert(ident_stop(s, 22) == 22);
    assert(ident_stop(s, 21) == 22);
    assert(ident_stop(s, 20) == 22);
    assert(ident_stop(s, 19) == 22);
    assert(ident_stop(s, 18) == 22);
    assert(ident_stop(s, 17) == 22);
    assert(ws_end(s, 22) == 22);
    assert(ws_end(s, 23) == 23);
    assert(ident_stop(s, 24) == 24);
    assert(ident_stop(s, 23) == 24);
    assert(ws_end(s, 24) == 24);
    assert(s.subrange(17, 22) =~= seq!['C', 'O', 'U', 'N', 'T']);
    assert(crate::parser::same_word(s.subrange(17, 22), seq!['C', 'O', 'U', 'N', 'T']));
    assert(s.subrange(23, 24) =~= seq!['n']);
    assert(aends[0] == 25);
    assert(ws_end(s, 25) == 25);
    if aps.len() > 1 {
        assert(and_link(s, aps, aends, 1));
    }
    assert(aps.len() == 1);
    assert(oends[0] == 25);
    if ops.len() > 1 {
        assert(or_link(s, ops, oends, 1));
    }
    assert(ops.len() == 1);
    assert(m == 25);
    assert(item.alias is None);
    if items.len() > 1 {
        assert(item_link(s, items, ie, 1));
    }
    assert(items.len() == 1);
    assert(item.expression matches Expression::Aggregate(agg) && agg.func is Count && agg.variable@
        == seq!['n'] && agg.property is None);
    assert(item_column(item) =~= seq!['C', 'O', 'U', 'N', 'T', '(', 'n', ')']);
    np
}

/// Every query that the text `MATCH (n) RETURN COUNT(n)` reads as yields one
/// row, in the column `COUNT(n)`, whose value is the number of nodes.
pub proof fn law_count_all_nodes_query_text(q: Query, g: Graph)
    requires
        query_reads(count_all_text(), q),
    ensures
        !mixed_return(q.return_clause.items@),
        result_rows(q, g) == seq![
            seq![
                (seq!['C', 'O', 'U', 'N', 'T', '(', 'n', ')'], Scalar::Int(g.nodes@.len() as i64)),
            ],
        ],
{
    let np = lemma_count_all_text_shape(q);
    law_count_all_nodes(q, g, np);
}

/// The text of the query that counts the nodes labelled `label`.
#[verifier::opaque]
pub open spec fn count_label_text(label: Seq<char>) -> Seq<char> {
    seq!['M', 'A', 'T', 'C', 'H', ' ', '(', 'n', ':'] + label + seq![
        ')', ' ', 'R', 'E', 'T', 'U', 'R', 'N', ' ', 'C', 'O', 'U', 'N', 'T', '(', 'n', ')'
    ]
}

proof fn lemma_ident_run(s: Seq<char>, i: int, j: int)
    requires
        0 <= i <= j < s.len(),
        forall|t: int| i <= t < j ==> crate::parser::is_ident_char(#[trigger] s[t]),
        !crate::parser::is_ident_char(s[j]),
    ensures
        ident_stop(s, i) == j,
    decreases j - i,
{
    if i < j {
        lemma_ident_run(s, i + 1, j);
    }
}

/// The characters of the labelled count query that the proofs below use.
pub open spec fn label_text_facts(s: Seq<char>, label: Seq<char>) -> bool {
    let k = label.len() as int;
    &&& s.len() == 26 + k
    &&& s[0] == 'M' && s[5] == ' ' && s[6] == '(' && s[7] == 'n' && s[8] == ':'
    &&& s.subrange(9, 9 + k) == label
    &&& forall|t: int| 9 <= t < 9 + k ==> #[trigger] s[t] == label[t - 9]
    &&& s[9 + k] == ')' && s[10 + k] == ' ' && s[11 + k] == 'R' && s[17 + k] == ' '
    &&& s[18 + k] == 'C' && s[19 + k] == 'O' && s[20 + k] == 'U' && s[21 + k] == 'N'
    &&& s[22 + k] == 'T' && s[23 + k] == '(' && s[24 + k] == 'n' && s[25 + k] == ')'
}

proof fn lemma_label_text_facts(label: Seq<char>)
    ensures
        label_text_facts(count_label_text(label), label),
{
    reveal(count_label_text);
    let s = count_label_text(label);
    let k = label.len() as int;
    let pre = seq!['M', 'A', 'T', 'C', 'H', ' ', '(', 'n', ':'];
    let post = seq![')', ' ', 'R', 'E', 'T', 'U', 'R', 'N', ' ', 'C', 'O', 'U', 'N', 'T', '(', 'n', ')'];
    assert(s == pre + label + post);
    assert(s.subrange(9, 9 + k) =~= label);
    assert forall|t: int| 9 <= t < 9 + k implies #[trigger] s[t] == label[t - 9] by {
        assert(s.subrange(9, 9 + k)[t - 9] == s[t]);
    }
    assert(s[9 + k] == post[0]);
    assert(s[10 + k] == post[1]);
    assert(s[11 + k] == post[2]);
    assert(s[17 + k] == post[8]);
    assert(s[18 + k] == post[9]);
    assert(s[19 + k] == post[10]);
    assert(s[20 + k] == post[11]);
    assert(s[21 + k] == post[12]);
    assert(s[22 + k] == post[13]);
    assert(s[23 + k] == post[14]);
    assert(s[24 + k] == post[15]);
    assert(s[25 + k] == post[16]);
}

#[verifier::rlimit(100)]
proof fn lemma_label_match_part(s: Seq<char>, label: Seq<char>, pats: Seq<PatternPart>, pe: Seq<int>) -> (np: NodePattern)
    requires
        crate::parser::is_ident(label),
        label_text_facts(s, label),
        patterns_read(s, 6, pats, pe),
    ensures
        pats.len() == 1,
        pats[0].chains@ == seq![PatternChain::Node(np)],
        np.variable is Some,
        np.labels@.len() == 1,
        np.labels@[0]@ == label,
        pe.last() == 10 + label.len(),
{
    let k = label.len() as int;
    let part = pats[0];
    let cends = choose|ends: Seq<int>|
        #[trigger] chain_ends(s, 6, part.chains@, ends) && pe[0] == ends.last() && {
            let qq = ws_end(s, pe[0]);
            !(char_at(s, qq, '<') || char_at(s, qq, '-'))
        };
    let chains = part.chains@;
    let np = chains[0]->Node_0;
    assert(node_reads(s, 6, np, cends[0]));
    assert(ws_end(s, 7) == 7);
    assert(ident_stop(s, 8) == 8);
    assert(ident_stop(s, 7) == 8);
    assert(ws_end(s, 8) == 8);
    assert(node_var_end(s, 6) == 8);
    assert(ws_end(s, 9) == 9);
    lemma_ident_run(s, 9, 9 + k);
    assert(ws_end(s, 9 + k) == 9 + k);
    let lends = choose|ends: Seq<int>|
        #[trigger] labels_read(s, node_var_end(s, 6), np.labels@, ends) && {
            let last = if ends.len() == 0 {
                node_var_end(s, 6)
            } else {
                ends.last()
            };
            char_at(s, last, ')') && cends[0] == last + 1
        };
    assert(np.labels@.len() > 0);
    assert(label_link(s, 8, np.labels@, lends, 0));
    assert(lends[0] == 9 + k);
    if np.labels@.len() > 1 {
        assert(label_link(s, 8, np.labels@, lends, 1));
    }
    assert(np.labels@.len() == 1);
    assert(cends[0] == 10 + k);
    assert(ws_end(s, 11 + k) == 11 + k);
    assert(ws_end(s, 10 + k) == 11 + k);
    if chains.len() > 1 {
        assert(chain_link(s, chains, cends, 1));
    }
    assert(chains.len() == 1);
    assert(chains =~= seq![PatternChain::Node(np)]);
    if pats.len() > 1 {
        assert(pattern_link(s, pats, pe, 1));
    }
    np
}

#[verifier::rlimit(100)]
proof fn lemma_label_return_part(s: Seq<char>, label: Seq<char>, items: Seq<ReturnItem>, ie: Seq<int>)
    requires
        label_text_facts(s, label),
        items_read(s, 18 + label.len() as int, items, ie),
    ensures
        items.len() == 1,
        item_column(items[0]) == seq!['C', 'O', 'U', 'N', 'T', '(', 'n', ')'],
        items[0].expression matches Expression::Aggregate(agg) && agg.func is Count,
{
    let k = label.len() as int;
    let item = items[0];
    let m = choose|m: int|
        #[trigger] expr_reads(s, 18 + k, item.expression, m) && {
            let qq = ws_end(s, m);
            if keyword_at(s, qq, seq!['A', 'S']) {
                let t = ws_end(s, qq + 2);
                crate::parser::name_at(s, t) && ie[0] == ident_stop(s, t) && (item.alias matches Some(x)
                    && x@ == crate::parser::name_text(s, t))
            } else {
                item.alias is None && ie[0] == m
            }
        };
    let (ops, oends) = choose|ps: Seq<Expression>, ends: Seq<int>|
        #[trigger] or_list(s, 18 + k, ps, ends) && ends.last() == m && !keyword_at(
            s,
            ws_end(s, m),
            seq!['O', 'R'],
        ) && crate::parser::joined(ps, item.expression, false);
    let (aps, aends) = choose|ps: Seq<Expression>, ends: Seq<int>|
        #[trigger] and_list(s, 18 + k, ps, ends) && ends.last() == oends[0] && !keyword_at(
            s,
            ws_end(s, oends[0]),
            seq!['A', 'N', 'D'],
        ) && crate::parser::joined(ps, ops[0], true);
    assert(comparison_reads(s, 18 + k, aps[0], aends[0]));
    lemma_ident_run(s, 18 + k, 23 + k);
    assert(ws_end(s, 23 + k) == 23 + k);
    assert(ws_end(s, 24 + k) == 24 + k);
    lemma_ident_run(s, 24 + k, 25 + k);
    assert(ws_end(s, 25 + k) == 25 + k);
    assert(s.subrange(18 + k, 23 + k) =~= seq!['C', 'O', 'U', 'N', 'T']);
    assert(crate::parser::same_word(s.subrange(18 + k, 23 + k), seq!['C', 'O', 'U', 'N', 'T']));
    assert(s.subrange(24 + k, 25 + k) =~= seq!['n']);
    assert(aends[0] == 26 + k);
    assert(ws_end(s, 26 + k) == 26 + k);
    if aps.len() > 1 {
        assert(and_link(s, aps, aends, 1));
    }
    assert(aps.len() == 1);
    assert(oends[0] == 26 + k);
    if ops.len() > 1 {
        assert(or_link(s, ops, oends, 1));
    }
    assert(ops.len() == 1);
    assert(m == 26 + k);
    assert(item.alias is None);
    if items.len() > 1 {
        assert(item_link(s, items, ie, 1));
    }
    assert(item.expression matches Expression::Aggregate(agg) && agg.func is Count && agg.variable@
        == seq!['n'] && agg.property is None);
    assert(item_column(item) =~= seq!['C', 'O', 'U', 'N', 'T', '(', 'n', ')']);
}

#[verifier::rlimit(100)]
proof fn lemma_count_label_text_shape(s: Seq<char>, label: Seq<char>, q: Query) -> (np: NodePattern)
    requires
        crate::parser::is_ident(label),
        label_text_facts(s, label),
        query_reads(s, q),
    ensures
        single_node_count(q, np),
        np.labels@.len() == 1,
        np.labels@[0]@ == label,
        item_column(q.return_clause.items@[0]) == seq!['C', 'O', 'U', 'N', 'T', '(', 'n', ')'],
{
    let k = label.len() as int;
    assert(ws_end(s, 0) == 0);
    assert(ws_end(s, 6) == 6);
    assert(ws_end(s, 5) == 6);
    let pats = q.match_clause.patterns@;
    let (pe, r, ie) = crate::parser::lemma_query_parts(s, q);
    let np = lemma_label_match_part(s, label, pats, pe);
    assert(ws_end(s, 11 + k) == 11 + k);
    assert(ws_end(s, 10 + k) == 11 + k);
    assert(!keyword_at(s, 11 + k, seq!['W', 'H', 'E', 'R', 'E'])) by {
        assert(!crate::text::char_eq_ignore_case(s[11 + k + 0], 'W'));
    }
    assert(q.where_clause is None);
    assert(r == 11 + k);
    assert(ws_end(s, 18 + k) == 18 + k);
    assert(ws_end(s, 17 + k) == 18 + k);
    lemma_label_return_part(s, label, q.return_clause.items@, ie);
    np
}

/// Every query that the text `MATCH (n:L) RETURN COUNT(n)` reads as, for a
/// label name `L`, yields one row, in the column `COUNT(n)`, whose value is
/// the number of nodes whose label is exactly `L`.
pub proof fn law_count_labelled_nodes_query_text(label: Seq<char>, q: Query, g: Graph)
    requires
        crate::parser::is_ident(label),
        query_reads(count_label_text(label), q),
    ensures
        !mixed_return(q.return_clause.items@),
        result_rows(q, g) == seq![
            seq![
                (
                    seq!['C', 'O', 'U', 'N', 'T', '(', 'n', ')'],
                    Scalar::Int(label_count(g.nodes@, label, g.nodes@.len() as int) as i64),
                ),
            ],
        ],
{
    lemma_label_text_facts(label);
    let np = lemma_count_label_text_shape(count_label_text(label), label, q);
    law_count_labelled_nodes(q, g, np);
}

/// A result that is the table of a query read from `MATCH (n) RETURN COUNT(n)`
/// (which `execute` returns on that text whenever it succeeds) has the
/// single column `COUNT(n)` and one row holding the number of nodes.
pub proof fn law_count_all_nodes_table(q: Query, g: Graph, res: QueryResult)
    requires
        query_reads(count_all_text(), q),
        res.is_table(item_columns(q.return_clause.items@), result_rows(q, g)),
    ensures
        res.columns@.len() == 1,
        res.columns@[0]@ == seq!['C', 'O', 'U', 'N', 'T', '(', 'n', ')'],
        res.rows@.len() == 1,
        row_is(
            res.rows@[0],
            seq![(seq!['C', 'O', 'U', 'N', 'T', '(', 'n', ')'], Scalar::Int(g.nodes@.len() as i64))],
        ),
{
    let np = lemma_count_all_text_shape(q);
    law_count_all_nodes(q, g, np);
    assert(res.columns@[0]@ == item_columns(q.return_clause.items@)[0]);
}

/// A result that is the table of a query read from `MATCH (n:L) RETURN
/// COUNT(n)` has the single column `COUNT(n)` and one row holding the number
/// of nodes labelled exactly `L`.
pub proof fn law_count_labelled_nodes_table(label: Seq<char>, q: Query, g: Graph, res: QueryResult)
    requires
        crate::parser::is_ident(label),
        query_reads(count_label_text(label), q),
        res.is_table(item_columns(q.return_clause.items@), result_rows(q, g)),
    ensures
        res.columns@.len() == 1,
        res.columns@[0]@ == seq!['C', 'O', 'U', 'N', 'T', '(', 'n', ')'],
        res.rows@.len() == 1,
        row_is(
            res.rows@[0],
            seq![
                (
                    seq!['C', 'O', 'U', 'N', 'T', '(', 'n', ')'],
                    Scalar::Int(label_count(g.nodes@, label, g.nodes@.len() as int) as i64),
                ),
            ],
        ),
{
    lemma_label_text_facts(label);
    let np = lemma_count_label_text_shape(count_label_text(label), label, q);
    law_count_labelled_nodes(q, g, np);
    assert(res.columns@[0]@ == item_columns(q.return_clause.items@)[0]);
}

/// `m` binds the end variable (if any) to the target of one of the hops `ps`.
pub open spec fn lands_on(m: BindingMap, end: NodePattern, ps: Seq<(usize, String)>) -> bool {
    end.variable matches Some(v) ==> m.contains_key(v@) && exists|q: int|
        0 <= q < ps.len() && m[v@] == EntityId::Node(#[trigger] ps[q].0)
}

/// `m` is one hop from binding `b`: `b` binds `start` to a node, `m` keeps
/// every binding of `b`, and the end variable names a neighbour of that node.
pub open spec fn hop_from(
    m: BindingMap,
    b: BindingMap,
    start: Seq<char>,
    rel: RelationshipPattern,
    end: NodePattern,
    g: Graph,
) -> bool {
    &&& b.contains_key(start)
    &&& b[start] is Node
    &&& b.submap_of(m)
    &&& lands_on(m, end, neighbor_pairs(g, b[start]->Node_0, rel.direction))
}

proof fn lemma_rel_candidates_land(
    rel: RelationshipPattern,
    end: NodePattern,
    g: Graph,
    b: BindingMap,
    s: usize,
    ps: Seq<(usize, String)>,
)
    requires
        rel.variable is None,
    ensures
        forall|i: int|
            0 <= i < rel_candidates(rel, end, g, b, s, ps).len() ==> lands_on(
                #[trigger] rel_candidates(rel, end, g, b, s, ps)[i],
                end,
                ps,
            ),
    decreases ps.len(),
{
    if ps.len() > 0 {
        lemma_rel_candidates_land(rel, end, g, b, s, ps.drop_last());
        let prev = rel_candidates(rel, end, g, b, s, ps.drop_last());
        let step = opt_seq(rel_step(rel, end, g, b, s, ps.last()));
        assert forall|i: int| 0 <= i < (prev + step).len() implies lands_on(
            #[trigger] (prev + step)[i],
            end,
            ps,
        ) by {
            if i >= prev.len() {
                assert((prev + step)[i] == step[i - prev.len()]);
                let qq = ps.len() - 1;
                assert(ps[qq] == ps.last());
            } else {
                let m = prev[i];
                assert((prev + step)[i] == m);
                assert(lands_on(m, end, ps.drop_last()));
                if let Some(v) = end.variable {
                    let q = choose|q: int|
                        0 <= q < ps.drop_last().len() && m[v@] == EntityId::Node(#[trigger] ps.drop_last()[q].0);
                    assert(ps.drop_last()[q] == ps[q]);
                }
            }
        }
    }
}

/// Join coherence. Matching an anonymous relationship from `start` gives
/// only bindings that extend an input binding whose `start` is a node, keep
/// all its variables, and bind the end variable to a neighbour of that node
/// in the pattern's direction. So an end variable bound before (a reused
/// variable) is kept only where the hop lands on the node it was bound to.
pub proof fn law_relationship_join_coherence(
    start: Seq<char>,
    rel: RelationshipPattern,
    end: NodePattern,
    g: Graph,
    bs: Seq<BindingMap>,
)
    requires
        rel.variable is None,
    ensures
        forall|k: int|
            0 <= k < match_rel(start, rel, end, g, bs).len() ==> exists|j: int|
                0 <= j < bs.len() && hop_from(
                    #[trigger] match_rel(start, rel, end, g, bs)[k],
                    bs[j],
                    start,
                    rel,
                    end,
                    g,
                ),
    decreases bs.len(),
{
    if bs.len() > 0 {
        law_relationship_join_coherence(start, rel, end, g, bs.drop_last());
        let front = match_rel(start, rel, end, g, bs.drop_last());
        let b = bs.last();
        let ext = rel_extensions(start, rel, end, g, b);
        if b.contains_key(start) && b[start] is Node {
            let s = b[start]->Node_0;
            lemma_rel_candidates_extend(rel, end, g, b, s, neighbor_pairs(g, s, rel.direction));
            lemma_rel_candidates_land(rel, end, g, b, s, neighbor_pairs(g, s, rel.direction));
        }
        assert forall|k: int| 0 <= k < (front + ext).len() implies exists|j: int|
            0 <= j < bs.len() && hop_from(#[trigger] (front + ext)[k], bs[j], start, rel, end, g) by {
            if k < front.len() {
                let m = front[k];
                assert((front + ext)[k] == m);
                let j = choose|j: int|
                    0 <= j < bs.drop_last().len() && hop_from(m, bs.drop_last()[j], start, rel, end, g);
                assert(bs[j] == bs.drop_last()[j]);
            } else {
                assert((front + ext)[k] == ext[k - front.len()]);
                assert(bs[bs.len() - 1] == b);
            }
        }
    }
}

/// The text of a query whose RETURN mixes a property with a count.
pub open spec fn mixed_text() -> Seq<char> {
    seq![
        'M', 'A', 'T', 'C', 'H', ' ', '(', 'n', ')', ' ', 'R', 'E', 'T', 'U', 'R', 'N', ' ', 'n',
        '.', 'i', 'd', ',', ' ', 'C', 'O', 'U', 'N', 'T', '(', 'n', ')'
    ]
}

/// An expression read at `a`, whose first comparison starts with a name
/// not followed by `(`, is not an aggregate.
proof fn lemma_not_aggregate_at(s: Seq<char>, a: int, e: Expression, b: int)
    requires
        expr_reads(s, a, e, b),
        !char_at(s, ws_end(s, ident_stop(s, a)), '('),
    ensures
        !(e is Aggregate),
{
    let (ops, oends) = choose|ps: Seq<Expression>, ends: Seq<int>|
        #[trigger] or_list(s, a, ps, ends) && ends.last() == b && !keyword_at(s, ws_end(s, b), seq!['O', 'R'])
            && crate::parser::joined(ps, e, false);
    if ops.len() == 1 {
        assert(and_reads(s, a, ops[0], oends[0]));
        let (aps, aends) = choose|ps: Seq<Expression>, ends: Seq<int>|
            #[trigger] and_list(s, a, ps, ends) && ends.last() == oends[0] && !keyword_at(
                s,
                ws_end(s, oends[0]),
                seq!['A', 'N', 'D'],
            ) && crate::parser::joined(ps, ops[0], true);
        assert(comparison_reads(s, a, aps[0], aends[0]));
    }
}

#[verifier::rlimit(100)]
proof fn lemma_mixed_text_items(q: Query)
    requires
        query_reads(mixed_text(), q),
    ensures
        q.return_clause.items@.len() >= 2,
        !(q.return_clause.items@[0].expression is Aggregate),
        q.return_clause.items@[1].expression is Aggregate,
{
    let s = mixed_text();
    assert(s.len() == 31);
    assert(ws_end(s, 0) == 0);
    assert(ws_end(s, 6) == 6);
    assert(ws_end(s, 5) == 6);
    let (pe, r, ie) = crate::parser::lemma_query_parts(s, q);
    let pats = q.match_clause.patterns@;
    let part = pats[0];
    let cends = choose|ends: Seq<int>|
        #[trigger] chain_ends(s, 6, part.chains@, ends) && pe[0] == ends.last() && {
            let qq = ws_end(s, pe[0]);
            !(char_at(s, qq, '<') || char_at(s, qq, '-'))
        };
    let chains = part.chains@;
    let np = chains[0]->Node_0;
    assert(node_reads(s, 6, np, cends[0]));
    assert(ws_end(s, 7) == 7);
    assert(ident_stop(s, 8) == 8);
    assert(ident_stop(s, 7) == 8);
    assert(ws_end(s, 8) == 8);
    assert(node_var_end(s, 6) == 8);
    let lends = choose|ends: Seq<int>|
        #[trigger] labels_read(s, node_var_end(s, 6), np.labels@, ends) && {
            let last = if ends.len() == 0 {
                node_var_end(s, 6)
            } else {
                ends.last()
            };
            char_at(s, last, ')') && cends[0] == last + 1
        };
    if np.labels@.len() > 0 {
        assert(label_link(s, 8, np.labels@, lends, 0));
    }
    assert(cends[0] == 9);
    assert(ws_end(s, 10) == 10);
    assert(ws_end(s, 9) == 10);
    if chains.len() > 1 {
        assert(chain_link(s, chains, cends, 1));
    }
    if pats.len() > 1 {
        assert(pattern_link(s, pats, pe, 1));
    }
    assert(pe.last() == 9);
    assert(!keyword_at(s, 10, seq!['W', 'H', 'E', 'R', 'E'])) by {
        assert(!crate::text::char_eq_ignore_case(s[10int], 'W'));
    }
    assert(r == 10);
    assert(ws_end(s, 17) == 17);
    assert(ws_end(s, 16) == 17);
    let items = q.return_clause.items@;
    assert(items_read(s, 17, items, ie));
    // The first item, `n.id`, is a property reference.
    let item0 = items[0];
    assert(item_reads(s, 17, item0, ie[0]));
    let m0 = choose|m: int|
        #[trigger] expr_reads(s, 17, item0.expression, m) && {
            let qq = ws_end(s, m);
            if keyword_at(s, qq, seq!['A', 'S']) {
                let t = ws_end(s, qq + 2);
                crate::parser::name_at(s, t) && ie[0] == ident_stop(s, t) && (item0.alias matches Some(x)
                    && x@ == crate::parser::name_text(s, t))
            } else {
                item0.alias is None && ie[0] == m
            }
        };
    assert(ident_stop(s, 18) == 18);
    assert(ident_stop(s, 17) == 18);
    assert(ws_end(s, 18) == 18);
    lemma_not_aggregate_at(s, 17, item0.expression, m0);
    // It ends at the comma, so a second item follows.
    let (ops, oends) = choose|ps: Seq<Expression>, ends: Seq<int>|
        #[trigger] or_list(s, 17, ps, ends) && ends.last() == m0 && !keyword_at(s, ws_end(s, m0), seq!['O', 'R'])
            && crate::parser::joined(ps, item0.expression, false);
    let (aps, aends) = choose|ps: Seq<Expression>, ends: Seq<int>|
        #[trigger] and_list(s, 17, ps, ends) && ends.last() == oends[0] && !keyword_at(
            s,
            ws_end(s, oends[0]),
            seq!['A', 'N', 'D'],
        ) && crate::parser::joined(ps, ops[0], true);
    assert(comparison_reads(s, 17, aps[0], aends[0]));
    assert(ws_end(s, 19) == 19);
    assert(ident_stop(s, 21) == 21);
    assert(ident_stop(s, 20) == 21);
    assert(ident_stop(s, 19) == 21);
    assert(ws_end(s, 21) == 21);
    assert(aends[0] == 21);
    if aps.len() > 1 {
        assert(and_link(s, aps, aends, 1));
    }
    assert(oends[0] == 21);
    if ops.len() > 1 {
        assert(or_link(s, ops, oends, 1));
    }
    assert(m0 == 21);
    assert(ie[0] == 21);
    assert(items.len() >= 2);
    assert(item_link(s, items, ie, 1));
    assert(ws_end(s, 23) == 23);
    assert(ws_end(s, 22) == 23);
    // The second item, `COUNT(n)`, is an aggregate call ending the text.
    let item1 = items[1];
    assert(item_reads(s, 23, item1, ie[1]));
    let m1 = choose|m: int|
        #[trigger] expr_reads(s, 23, item1.expression, m) && {
            let qq = ws_end(s, m);
            if keyword_at(s, qq, seq!['A', 'S']) {
                let t = ws_end(s, qq + 2);
                crate::parser::name_at(s, t) && ie[1] == ident_stop(s, t) && (item1.alias matches Some(x)
                    && x@ == crate::parser::name_text(s, t))
            } else {
                item1.alias is None && ie[1] == m
            }
        };
    let (ops1, oends1) = choose|ps: Seq<Expression>, ends: Seq<int>|
        #[trigger] or_list(s, 23, ps, ends) && ends.last() == m1 && !keyword_at(s, ws_end(s, m1), seq!['O', 'R'])
            && crate::parser::joined(ps, item1.expression, false);
    let (aps1, aends1) = choose|ps: Seq<Expression>, ends: Seq<int>|
        #[trigger] and_list(s, 23, ps, ends) && ends.last() == oends1[0] && !keyword_at(
            s,
            ws_end(s, oends1[0]),
            seq!['A', 'N', 'D'],
        ) && crate::parser::joined(ps, ops1[0], true);
    assert(comparison_reads(s, 23, aps1[0], aends1[0]));
    lemma_ident_run(s, 23, 28);
    assert(ws_end(s, 28) == 28);
    assert(ws_end(s, 29) == 29);
    lemma_ident_run(s, 29, 30);
    assert(ws_end(s, 30) == 30);
    assert(aps1[0] is Aggregate);
    assert(aends1[0] == 31);
    assert(ws_end(s, 31) == 31);
    if aps1.len() > 1 {
        assert(and_link(s, aps1, aends1, 1));
    }
    assert(oends1[0] == 31);
    if ops1.len() > 1 {
        assert(or_link(s, ops1, oends1, 1));
    }
    assert(item1.expression is Aggregate);
}

/// `MATCH (n) RETURN n.id, COUNT(n)` mixes an aggregate with a property in
/// every reading, so `execute` on this text never returns a result: where
/// the text reads as a query the call fails with an `ExecutionError`.
pub proof fn law_mixed_return_text(q: Query)
    requires
        query_reads(mixed_text(), q),
    ensures
        mixed_return(q.return_clause.items@),
{
    lemma_mixed_text_items(q);
    law_mixed_return_rejected(q, 1, 0);
}

} // verus!

//! An interpreter for a subset of the Cypher graph query language
//! (MATCH / WHERE / RETURN with COUNT and SUM), run against an in-memory
//! property graph.
use vstd::prelude::*;

pub mod assoc;
pub mod config;
pub mod engine;
pub mod graph;
pub mod laws;
pub mod parser;
pub mod schema;
pub mod text;
pub mod value;

pub use config::GraphConfig;
pub use engine::storage::SyncStorage;
pub use engine::storage::{JsonStorage, MemoryStorage, MemoryStorageBuilder};
pub use engine::{EngineError, EngineResult, QueryResult};
pub use graph::{Edge, Graph, Node};
pub use schema::{SchemaAnalyzer, SchemaDetection, SchemaError};
pub use value::{JsonNumber, JsonValue};

use engine::executor::{item_columns, mixed_return, result_rows};
use engine::storage::json::{build_graph_from_json, node_array};
use parser::{query_reads, query_wf};
use text::{text_eq, text_lt};

verus! {

/// Why an engine could not be built or a query not run.
#[derive(Debug)]
pub enum CypherError {
    /// The graph could not be built from the data.
    GraphBuild(String),
    /// The query failed.
    QueryExecution(EngineError),
}

impl CypherError {
    /// A one-line description of the error.
    pub fn message(&self) -> (r: String)
        ensures
            self matches CypherError::GraphBuild(m) ==> r@ == seq![
                'G', 'r', 'a', 'p', 'h', ' ', 'b', 'u', 'i', 'l', 'd', ' ', 'e', 'r', 'r', 'o', 'r', ':', ' '
            ] + m@,
            self matches CypherError::QueryExecution(e) ==> r@ == "Query execution error: "@
                + e.spec_message(),
    {
        proof {
            reveal_strlit("Graph build error: ");
        }
        match self {
            CypherError::GraphBuild(m) => String::from_str("Graph build error: ").concat(m.as_str()),
            CypherError::QueryExecution(e) => String::from_str("Query execution error: ").concat(
                e.message().as_str(),
            ),
        }
    }
}

impl From<EngineError> for CypherError {
    fn from(err: EngineError) -> (r: CypherError) {
        CypherError::QueryExecution(err)
    }
}

impl vstd::std_specs::convert::FromSpecImpl<EngineError> for CypherError {
    open spec fn obeys_from_spec() -> bool {
        true
    }

    open spec fn from_spec(err: EngineError) -> CypherError {
        CypherError::QueryExecution(err)
    }
}

/// A graph built from data, ready to be queried.
#[derive(Debug)]
pub struct CypherEngine {
    graph: Graph,
}

impl CypherEngine {
    #[verifier::type_invariant]
    spec fn inv(&self) -> bool {
        self.graph.wf()
    }

    /// The graph that queries run against.
    pub closed spec fn spec_graph(&self) -> Graph {
        self.graph
    }

    /// An engine over a graph that is already built.
    pub fn from_graph(graph: Graph) -> (r: Option<CypherEngine>)
        ensures
            graph.wf() ==> (r matches Some(e) && e.spec_graph() == graph),
            !graph.wf() ==> r is None,
    {
        let mut k: usize = 0;
        while k < graph.edges.len()
            invariant
                k <= graph.edges@.len(),
                forall|i: int|
                    0 <= i < k ==> #[trigger] graph.edges@[i].from < graph.nodes@.len()
                        && graph.edges@[i].to < graph.nodes@.len(),
            decreases graph.edges.len() - k,
        {
            if !(graph.edges[k].from < graph.nodes.len() && graph.edges[k].to < graph.nodes.len()) {
                return None;
            }
            k = k + 1;
        }
        Some(CypherEngine { graph })
    }

    /// Builds the graph that `config` reads from `json`.
    pub fn from_json(json: &JsonValue, config: GraphConfig) -> (r: Result<CypherEngine, CypherError>)
        ensures
            r is Err <==> !(node_array(*json, config) matches Some(arr)
                && engine::storage::json::all_have_ids(arr, config)),
            r matches Err(e) ==> e is GraphBuild,
            r matches Err(CypherError::GraphBuild(m)) ==> m@ == seq![
                'I', 'n', 'v', 'a', 'l', 'i', 'd', ' ', 'd', 'a', 't', 'a', ' ', 's', 't', 'r', 'u', 'c', 't', 'u', 'r', 'e', ':', ' '
            ] + engine::storage::json::build_error_text(*json, config),
            r matches Ok(e) ==> (node_array(*json, config) matches Some(arr) && e.spec_graph().nodes@.len() == arr.len()
                && forall|i: int| 0 <= i < arr.len() ==> engine::storage::json::node_read_from(
                #[trigger] e.spec_graph().nodes@[i],
                arr[i],
                config,
            )),
            r matches Ok(e) ==> (node_array(*json, config) matches Some(arr)
                && engine::storage::json::edge_views(e.spec_graph().edges@)
                == engine::storage::json::all_edges(e.spec_graph().nodes@, arr, config, arr.len() as int)),
    {
        match build_graph_from_json(json, &config) {
            Ok(graph) => Ok(CypherEngine { graph }),
            Err(e) => Err(CypherError::GraphBuild(e.message())),
        }
    }

    /// Runs a query against the graph.
    /// Text that reads as a query always parses, and yields the table of that
    /// query or, for a RETURN that mixes aggregates with other items, an
    /// `ExecutionError`. Only text that reads as no query gives a `ParseError`.
    pub fn execute(&self, query: &str) -> (r: EngineResult<QueryResult>)
        ensures
            r matches Err(e) ==> e is ParseError || e is ExecutionError,
        r matches Err(EngineError::ParseError(e)) ==> parser::parse_failure(query@, e),
        !parser::keyword_at(query@, parser::ws_end(query@, 0), parser::match_keyword()) ==> (r matches Err(
            EngineError::ParseError(parser::ParseError::MissingMatch),
        )),
            r matches Err(EngineError::ParseError(_)) ==> !exists|q: parser::ast::Query|
                #[trigger] query_reads(query@, q),
            forall|q: parser::ast::Query|
                #[trigger] query_reads(query@, q) ==> (!mixed_return(q.return_clause.items@) <==> r is Ok),
            forall|q: parser::ast::Query|
                #[trigger] query_reads(query@, q) && mixed_return(q.return_clause.items@) ==> (r matches Err(
                    EngineError::ExecutionError(_),
                )),
            r matches Ok(res) ==> exists|q: parser::ast::Query|
                query_reads(query@, q) && query_wf(q) && !mixed_return(q.return_clause.items@) && res.is_table(
                    item_columns(q.return_clause.items@),
                    result_rows(q, self.spec_graph()),
                ),
    {
        proof {
            use_type_invariant(self);
        }
        engine::execute(query, &self.graph)
    }

    pub fn graph(&self) -> (r: &Graph)
        ensures
            *r == self.spec_graph(),
            r.wf(),
    {
        proof {
            use_type_invariant(self);
        }
        &self.graph
    }
    /// Builds the graph with the configuration that schema analysis infers.
    pub fn from_json_auto(json: &JsonValue) -> (r: Result<CypherEngine, CypherError>)
        ensures
            r matches Err(e) ==> e is GraphBuild,
            schema::arrays_in(*json, Seq::empty()).len() == 0 ==> r is Err,
            r is Err ==> schema::arrays_in(*json, Seq::empty()).len() == 0 || schema::no_config(*json)
                || exists|c: GraphConfig|
                schema::inferred_config(*json, c) && !(node_array(*json, c) matches Some(arr)
                    && engine::storage::json::all_have_ids(arr, c)),
            r matches Ok(e) ==> exists|c: GraphConfig|
                schema::inferred_config(*json, c) && (node_array(*json, c) matches Some(arr)
                    && e.spec_graph().nodes@.len() == arr.len() && forall|i: int|
                    0 <= i < arr.len() ==> engine::storage::json::node_read_from(
                        #[trigger] e.spec_graph().nodes@[i],
                        arr[i],
                        c,
                    )),
    {
        match schema::SchemaAnalyzer::infer_graph_config(json) {
            Ok(config) => {
                let ghost c = config;
                let r = Self::from_json(json, config);
                proof {
                    assert(schema::inferred_config(*json, c));
                }
                r
            },
            Err(e) => Err(CypherError::GraphBuild(schema_error_message(&e))),
        }
    }

    /// The schema analysis of `json`.
    pub fn analyze_schema(json: &JsonValue) -> (r: Result<SchemaDetection, CypherError>)
        ensures
            r is Err <==> schema::arrays_in(*json, Seq::empty()).len() == 0,
            r matches Err(e) ==> e is GraphBuild,
            r matches Ok(d) ==> schema::extends_with(
                Seq::empty(),
                d.array_schemas@,
                schema::arrays_in(*json, Seq::empty()),
            ),
            r matches Ok(d) ==> (d.primary_recommendation is None <==> schema::best_index(
                d.array_schemas@,
            ) is None),
            r matches Ok(d) ==> (d.primary_recommendation matches Some(a) ==> schema::best_index(
                d.array_schemas@,
            ) matches Some(i) && a.path == d.array_schemas@[i].path && a.element_count
                == d.array_schemas@[i].element_count && a.fields@ == d.array_schemas@[i].fields@
                && a.recommended_id_field == d.array_schemas@[i].recommended_id_field
                && a.recommended_label_field == d.array_schemas@[i].recommended_label_field
                && a.recommended_relation_fields@ == d.array_schemas@[i].recommended_relation_fields@),
    {
        match schema::SchemaAnalyzer::analyze(json) {
            Ok(d) => Ok(d),
            Err(e) => Err(CypherError::GraphBuild(schema_error_message(&e))),
        }
    }

    /// A text overview of the graph: node labels with their counts, the
    /// properties of the first node of each label, and the relationship
    /// types with the labels they join. Unlabelled nodes count as `Node`.
    pub fn get_schema(&self) -> (r: String)
        ensures
            r@.len() >= "Graph Schema\n============\n\n"@.len(),
            r@.subrange(0, "Graph Schema\n============\n\n"@.len() as int) == "Graph Schema\n============\n\n"@,
            self.spec_graph().nodes@.len() == 0 ==> r@ == "Graph Schema\n============\n\n"@ + "No nodes in graph\n"@,
    {
        proof {
            use_type_invariant(self);
        }
        let header = String::from_str("Graph Schema\n============\n\n");
        let ghost h = header@;
        if self.graph.nodes.len() == 0 {
            return header.concat("No nodes in graph\n");
        }
        let mut body = String::new();
        // Group the nodes by label, in order of first appearance.
        let mut groups: Vec<(String, Vec<usize>)> = Vec::new();
        let mut i: usize = 0;
        while i < self.graph.nodes.len()
            invariant
                i <= self.graph.nodes@.len(),
                forall|g: int, k: int|
                    0 <= g < groups@.len() && 0 <= k < groups@[g].1@.len() ==> #[trigger] groups@[g].1@[k]
                        < self.graph.nodes@.len(),
            decreases self.graph.nodes.len() - i,
        {
            let label = node_label(&self.graph.nodes[i]);
            let mut g: usize = 0;
            while g < groups.len() && !text_eq(groups[g].0.as_str(), label.as_str())
                invariant
                    g <= groups@.len(),
                decreases groups.len() - g,
            {
                g = g + 1;
            }
            if g < groups.len() {
                let (name, mut members) = groups.remove(g);
                members.push(i);
                groups.insert(g, (name, members));
            } else {
                let mut members: Vec<usize> = Vec::new();
                members.push(i);
                groups.push((label, members));
            }
            i = i + 1;
        }
        // Labels in lexicographic order.
        let mut order: Vec<usize> = Vec::new();
        let mut g: usize = 0;
        while g < groups.len()
            invariant
                g <= groups@.len(),
                forall|k: int| 0 <= k < order@.len() ==> #[trigger] order@[k] < groups@.len(),
            decreases groups.len() - g,
        {
            let mut pos: usize = 0;
            while pos < order.len() && !text_lt(groups[g].0.as_str(), groups[order[pos]].0.as_str())
                invariant
                    pos <= order@.len(),
                    g < groups@.len(),
                    forall|k: int| 0 <= k < order@.len() ==> #[trigger] order@[k] < groups@.len(),
                decreases order.len() - pos,
            {
                pos = pos + 1;
            }
            order.insert(pos, g);
            g = g + 1;
        }
        body = body.concat("Node Types:\n");
        let mut k: usize = 0;
        while k < order.len()
            invariant
                forall|q: int| 0 <= q < order@.len() ==> #[trigger] order@[q] < groups@.len(),
            decreases order.len() - k,
        {
            let grp = &groups[order[k]];
            body = body.concat("  (:").concat(grp.0.as_str()).concat(" ").concat(
                text::u64_text(grp.1.len() as u64).as_str(),
            ).concat(" nodes)\n");
            k = k + 1;
        }
        body = body.concat("\n");
        body = body.concat("Properties:\n");
        let mut k: usize = 0;
        while k < order.len()
            invariant
                forall|q: int| 0 <= q < order@.len() ==> #[trigger] order@[q] < groups@.len(),
                forall|gg: int, m: int|
                    0 <= gg < groups@.len() && 0 <= m < groups@[gg].1@.len() ==> #[trigger] groups@[gg].1@[m]
                        < self.graph.nodes@.len(),
            decreases order.len() - k,
        {
            let grp = &groups[order[k]];
            if grp.1.len() > 0 {
                let first = &self.graph.nodes[grp.1[0]];
                let mut props: Vec<String> = Vec::new();
                if let JsonValue::Object(entries) = &first.data {
                    let mut e: usize = 0;
                    while e < entries.len()
                        decreases entries.len() - e,
                    {
                        let t = match &entries[e].1 {
                            JsonValue::String(_) => "STRING",
                            JsonValue::Number(_) => "NUMBER",
                            JsonValue::Bool(_) => "BOOLEAN",
                            JsonValue::Array(_) => "ARRAY",
                            JsonValue::Object(_) => "OBJECT",
                            JsonValue::Null => "NULL",
                        };
                        props.push(entries[e].0.clone().concat(": ").concat(t));
                        e = e + 1;
                    }
                }
                if props.len() > 0 {
                    let mut joined = String::new();
                    let mut p: usize = 0;
                    while p < props.len()
                        decreases props.len() - p,
                    {
                        if p > 0 {
                            joined = joined.concat(", ");
                        }
                        joined = joined.concat(props[p].as_str());
                        p = p + 1;
                    }
                    body = body.concat("  :").concat(grp.0.as_str()).concat(" {").concat(
                        joined.as_str(),
                    ).concat("}\n");
                }
            }
            k = k + 1;
        }
        body = body.concat("\n");
        if self.graph.edges.len() > 0 {
            body = body.concat("Relationship Types:\n");
            // Relationship types with the labels at their ends, each in order of first appearance.
            let mut rels: Vec<(String, Vec<String>, Vec<String>)> = Vec::new();
            let mut e: usize = 0;
            while e < self.graph.edges.len()
                invariant
                    self.graph.wf(),
                decreases self.graph.edges.len() - e,
            {
                let edge = &self.graph.edges[e];
                let from_label = node_label(&self.graph.nodes[edge.from]);
                let to_label = node_label(&self.graph.nodes[edge.to]);
                let mut r: usize = 0;
                while r < rels.len() && !text_eq(rels[r].0.as_str(), edge.rel_type.as_str())
                    invariant
                        r <= rels@.len(),
                    decreases rels.len() - r,
                {
                    r = r + 1;
                }
                if r < rels.len() {
                    let (name, mut froms, mut tos) = rels.remove(r);
                    add_distinct(&mut froms, from_label);
                    add_distinct(&mut tos, to_label);
                    rels.insert(r, (name, froms, tos));
                } else {
                    let mut froms: Vec<String> = Vec::new();
                    froms.push(from_label);
                    let mut tos: Vec<String> = Vec::new();
                    tos.push(to_label);
                    rels.push((edge.rel_type.clone(), froms, tos));
                }
                e = e + 1;
            }
            let mut rorder: Vec<usize> = Vec::new();
            let mut r: usize = 0;
            while r < rels.len()
                invariant
                    r <= rels@.len(),
                    forall|q: int| 0 <= q < rorder@.len() ==> #[trigger] rorder@[q] < rels@.len(),
                decreases rels.len() - r,
            {
                let mut pos: usize = 0;
                while pos < rorder.len() && !text_lt(rels[r].0.as_str(), rels[rorder[pos]].0.as_str())
                    invariant
                        pos <= rorder@.len(),
                        r < rels@.len(),
                        forall|q: int| 0 <= q < rorder@.len() ==> #[trigger] rorder@[q] < rels@.len(),
                    decreases rorder.len() - pos,
                {
                    pos = pos + 1;
                }
                rorder.insert(pos, r);
                r = r + 1;
            }
            let mut q: usize = 0;
            while q < rorder.len()
                invariant
                    forall|x: int| 0 <= x < rorder@.len() ==> #[trigger] rorder@[x] < rels@.len(),
                decreases rorder.len() - q,
            {
                let rel = &rels[rorder[q]];
                let mut a: usize = 0;
                while a < rel.1.len()
                    decreases rel.1.len() - a,
                {
                    let mut b: usize = 0;
                    while b < rel.2.len()
                        invariant
                            a < rel.1@.len(),
                        decreases rel.2.len() - b,
                    {
                        body = body.concat("  (:").concat(rel.1[a].as_str()).concat(")-[:").concat(
                            rel.0.as_str(),
                        ).concat("]->(:").concat(rel.2[b].as_str()).concat(")\n");
                        b = b + 1;
                    }
                    a = a + 1;
                }
                q = q + 1;
            }
        }
        let out = header.concat(body.as_str());
        proof {
            assert(out@.subrange(0, h.len() as int) =~= h);
        }
        out
    }
}

/// A node's label, or `Node` when it has none.
fn node_label(n: &Node) -> (r: String)
    ensures
        n.label matches Some(l) ==> r@ == l@,
        n.label is None ==> r@ == "Node"@,
{
    match &n.label {
        Some(l) => l.clone(),
        None => String::from_str("Node"),
    }
}

/// Appends `s` unless an equal string is already there.
fn add_distinct(v: &mut Vec<String>, s: String) {
    let mut i: usize = 0;
    while i < v.len()
        decreases v.len() - i,
    {
        if text_eq(v[i].as_str(), s.as_str()) {
            return;
        }
        i = i + 1;
    }
    v.push(s);
}

/// A one-line description of a schema error.
fn schema_error_message(e: &SchemaError) -> (r: String) {
    match e {
        SchemaError::InvalidJson(m) => String::from_str("Invalid JSON structure: ").concat(m.as_str()),
        SchemaError::NoArrayFound => String::from_str("No suitable array found in JSON"),
        SchemaError::EmptyJson => String::from_str("Empty JSON object"),
    }
}

} // verus!

//! A backend that builds graphs from a JSON document.
use vstd::prelude::*;

use crate::config::GraphConfig;
use crate::engine::storage::storage_trait::{
    StorageError, StorageFeature, StorageMetadata, StorageResult, SyncStorage,
};
use crate::graph::{last_index_of, Edge, Graph, Node};
use crate::text::{chars_of, text_eq};
use crate::value::{copy_json, JsonValue};

verus! {

/// The pieces of `s` between dots; a text without dots is one piece.
pub open spec fn split_dot(s: Seq<char>) -> Seq<Seq<char>>
    decreases s.len(),
{
    if s.len() == 0 {
        seq![Seq::empty()]
    } else {
        let prev = split_dot(s.drop_last());
        if s.last() == '.' {
            prev.push(Seq::empty())
        } else {
            prev.update(prev.len() - 1, prev.last().push(s.last()))
        }
    }
}

pub(crate) proof fn lemma_split_dot_nonempty(s: Seq<char>)
    ensures
        split_dot(s).len() > 0,
    decreases s.len(),
{
    if s.len() > 0 {
        lemma_split_dot_nonempty(s.drop_last());
    }
}

pub open spec fn string_views(v: Seq<String>) -> Seq<Seq<char>> {
    v.map_values(|s: String| s@)
}

/// Follows `steps` from `v`: each step enters an object's field, `*` stays put.
pub open spec fn navigate(v: JsonValue, steps: Seq<Seq<char>>) -> Option<JsonValue>
    decreases steps.len(),
{
    if steps.len() == 0 {
        Some(v)
    } else {
        let next = if steps[0] == seq!['*'] {
            Some(v)
        } else {
            v.spec_get(steps[0])
        };
        match next {
            Some(n) => navigate(n, steps.drop_first()),
            None => None,
        }
    }
}

/// The array of node objects that `config.node_path` leads to, if any.
pub open spec fn node_array(json: JsonValue, config: GraphConfig) -> Option<Seq<JsonValue>> {
    match navigate(json, split_dot(config.node_path@)) {
        Some(JsonValue::Array(a)) => Some(a@),
        _ => None,
    }
}

/// Every element of `arr` has a string under the id field.
pub open spec fn all_have_ids(arr: Seq<JsonValue>, config: GraphConfig) -> bool {
    forall|i: int| 0 <= i < arr.len() ==> #[trigger] arr[i].spec_get(config.id_field@) matches Some(JsonValue::String(_))
}

/// `node` was read from `elem`: its id and label are the element's fields,
/// and its property bag is the element itself.
pub open spec fn node_read_from(node: Node, elem: JsonValue, config: GraphConfig) -> bool {
    &&& crate::value::json_eq(elem, node.data)
    &&& elem.spec_get(config.id_field@) matches Some(JsonValue::String(id)) && node.id@ == id@
    &&& match config.label_field {
        Some(f) => match elem.spec_get(f@) {
            Some(JsonValue::String(l)) => node.label matches Some(x) && x@ == l@,
            _ => node.label is None,
        },
        None => node.label is None,
    }
}

/// Splits a path at its dots.
pub fn split_path(path: &str) -> (r: Vec<String>)
    ensures
        string_views(r@) == split_dot(path@),
{
    let cs = chars_of(path);
    let mut parts: Vec<String> = Vec::new();
    let mut start: usize = 0;
    let mut i: usize = 0;
    proof {
        assert(path@.subrange(0, 0) =~= Seq::<char>::empty());
        assert(string_views(parts@).push(path@.subrange(0, 0)) =~= split_dot(path@.subrange(0, 0)));
    }
    while i < cs.len()
        invariant
            cs@ == path@,
            start <= i <= cs@.len(),
            string_views(parts@).push(path@.subrange(start as int, i as int)) == split_dot(
                path@.subrange(0, i as int),
            ),
        decreases cs.len() - i,
    {
        let ghost pre = path@.subrange(0, i + 1);
        proof {
            assert(pre.drop_last() == path@.subrange(0, i as int));
            assert(pre.last() == cs@[i as int]);
        }
        if cs[i] == '.' {
            let ghost before = parts@;
            parts.push(path.substring_char(start, i).to_owned());
            proof {
                assert(string_views(parts@) =~= string_views(before).push(path@.subrange(start as int, i as int)));
                assert(path@.subrange(i + 1, i + 1) =~= Seq::<char>::empty());
            }
            start = i + 1;
        } else {
            proof {
                assert(path@.subrange(start as int, i + 1) =~= path@.subrange(start as int, i as int).push(cs@[i as int]));
                let prev = split_dot(path@.subrange(0, i as int));
                assert(string_views(parts@).push(path@.subrange(start as int, i + 1)) =~= prev.update(prev.len() - 1, prev.last().push(cs@[i as int])));
            }
        }
        i = i + 1;
    }
    let ghost before = parts@;
    parts.push(path.substring_char(start, i).to_owned());
    proof {
        assert(string_views(parts@) =~= string_views(before).push(path@.subrange(start as int, i as int)));
        assert(path@.subrange(0, i as int) == path@);
    }
    parts
}

/// Follows a dot-separated path from `json`; a `*` step stays in place.
pub fn navigate_json_path<'a>(json: &'a JsonValue, path: &str) -> (r: Option<&'a JsonValue>)
    ensures
        r matches Some(v) ==> navigate(*json, split_dot(path@)) == Some(*v),
        r is None ==> navigate(*json, split_dot(path@)) is None,
{
    let parts = split_path(path);
    let ghost steps = split_dot(path@);
    let mut current = json;
    let mut i: usize = 0;
    proof {
        assert(steps.subrange(0, steps.len() as int) == steps);
    }
    while i < parts.len()
        invariant
            steps == split_dot(path@),
            string_views(parts@) == steps,
            i <= parts@.len(),
            navigate(*json, steps) == navigate(*current, steps.subrange(i as int, steps.len() as int)),
        decreases parts.len() - i,
    {
        let ghost rest = steps.subrange(i as int, steps.len() as int);
        proof {
            assert(rest[0] == parts@[i as int]@);
            assert(rest.drop_first() == steps.subrange(i + 1, steps.len() as int));
            reveal_strlit("*");
            assert("*"@ =~= seq!['*']);
        }
        if text_eq(parts[i].as_str(), "*") {
        } else {
            match current.get(parts[i].as_str()) {
                Some(next) => {
                    current = next;
                },
                None => {
                    proof {
                        assert(rest[0] != seq!['*']);
                        assert(current.spec_get(rest[0]) is None);
                        assert(navigate(*current, rest) is None);
                    }
                    return None;
                },
            }
        }
        i = i + 1;
    }
    proof {
        assert(steps.subrange(i as int, steps.len() as int).len() == 0);
    }
    Some(current)
}

/// Every edge of `g` has the type of one of `fields`.
pub open spec fn edges_typed_by(g: Graph, fields: Seq<String>) -> bool {
    forall|k: int|
        0 <= k < g.edges@.len() ==> exists|f: int|
            0 <= f < fields.len() && #[trigger] g.edges@[k].rel_type == fields[f]
}

/// The message of a failed graph build: the path leads nowhere, or to
/// something other than an array, or to an element without a string id.
pub open spec fn build_error_text(json: JsonValue, config: GraphConfig) -> Seq<char> {
    match navigate(json, split_dot(config.node_path@)) {
        None => "Cannot find node path: "@ + config.node_path@,
        Some(v) => if !(v is Array) {
            "Node path is not an array"@ + ""@
        } else {
            "Node is missing a string id field: "@ + config.id_field@
        },
    }
}

/// An edge as the contracts speak of it: source, target and type.
pub type EdgeView = (usize, usize, Seq<char>);

pub open spec fn edge_views(edges: Seq<Edge>) -> Seq<EdgeView> {
    edges.map_values(|e: Edge| (e.from, e.to, e.rel_type@))
}

/// The node that a related id names: the last node with that id.
pub open spec fn target_of(nodes: Seq<Node>, v: JsonValue) -> Seq<usize> {
    match v {
        JsonValue::String(t) => match last_index_of(nodes, t@) {
            Some(j) => seq![j as usize],
            None => Seq::empty(),
        },
        _ => Seq::empty(),
    }
}

/// The nodes that the ids of an array name, in order; other elements and
/// unknown ids are passed over.
pub open spec fn targets_in(nodes: Seq<Node>, items: Seq<JsonValue>) -> Seq<usize>
    decreases items.len(),
{
    if items.len() == 0 {
        Seq::empty()
    } else {
        targets_in(nodes, items.drop_last()) + target_of(nodes, items.last())
    }
}

/// The nodes that a relation field names: an array of ids or a single id.
pub open spec fn rel_targets(nodes: Seq<Node>, v: Option<JsonValue>) -> Seq<usize> {
    match v {
        Some(JsonValue::Array(a)) => targets_in(nodes, a@),
        Some(x) => target_of(nodes, x),
        None => Seq::empty(),
    }
}

/// Edges from `from` of type `field` to the nodes of `targets`.
pub open spec fn edges_to_targets(from: usize, targets: Seq<usize>, field: Seq<char>) -> Seq<EdgeView> {
    targets.map_values(|t: usize| (from, t, field))
}

/// The edges of one element from its first `nf` relation fields.
pub open spec fn field_edges(nodes: Seq<Node>, elem: JsonValue, fields: Seq<String>, from: usize, nf: int) -> Seq<EdgeView>
    decreases nf,
{
    if nf <= 0 {
        Seq::empty()
    } else {
        field_edges(nodes, elem, fields, from, nf - 1) + edges_to_targets(
            from,
            rel_targets(nodes, elem.spec_get(fields[nf - 1]@)),
            fields[nf - 1]@,
        )
    }
}

/// The edges of one element, from the last node with its id.
pub open spec fn element_edges(nodes: Seq<Node>, elem: JsonValue, config: GraphConfig) -> Seq<EdgeView> {
    match elem.spec_get(config.id_field@) {
        Some(JsonValue::String(id)) => match last_index_of(nodes, id@) {
            Some(from) => field_edges(
                nodes,
                elem,
                config.relation_fields@,
                from as usize,
                config.relation_fields@.len() as int,
            ),
            None => Seq::empty(),
        },
        _ => Seq::empty(),
    }
}

/// The edges of the first `n` elements, element by element.
pub open spec fn all_edges(nodes: Seq<Node>, arr: Seq<JsonValue>, config: GraphConfig, n: int) -> Seq<EdgeView>
    decreases n,
{
    if n <= 0 {
        Seq::empty()
    } else {
        all_edges(nodes, arr, config, n - 1) + element_edges(nodes, arr[n - 1], config)
    }
}

/// Adds an edge whose type is the relation field `fields[f]`.
fn add_link(
    graph: &mut Graph,
    from_idx: usize,
    to_idx: usize,
    rel_field: &String,
    Ghost(fields): Ghost<Seq<String>>,
    Ghost(f): Ghost<int>,
)
    requires
        old(graph).wf(),
        from_idx < old(graph).nodes@.len(),
        to_idx < old(graph).nodes@.len(),
        0 <= f < fields.len(),
        *rel_field == fields[f],
        edges_typed_by(*old(graph), fields),
    ensures
        final(graph).nodes@ == old(graph).nodes@,
        final(graph).wf(),
        edges_typed_by(*final(graph), fields),
        final(graph).id_map == old(graph).id_map,
        edge_views(final(graph).edges@) == edge_views(old(graph).edges@).push(
            (from_idx, to_idx, rel_field@),
        ),
{
    let ghost before = graph.edges@;
    graph.add_edge(Edge::new(from_idx, to_idx, rel_field.clone()));
    proof {
        assert(edge_views(graph.edges@) =~= edge_views(before).push((from_idx, to_idx, rel_field@)));
        assert forall|k: int| 0 <= k < graph.edges@.len() implies exists|f2: int|
            0 <= f2 < fields.len() && #[trigger] graph.edges@[k].rel_type == fields[f2] by {
            if k < before.len() {
                assert(graph.edges@[k] == before[k]);
                assert(exists|f2: int| 0 <= f2 < fields.len() && #[trigger] old(graph).edges@[k].rel_type == fields[f2]);
            } else {
                assert(graph.edges@[k].rel_type == fields[f]);
            }
        }
        assert forall|k: int| 0 <= k < graph.edges@.len() implies #[trigger] graph.edges@[k].from < graph.nodes@.len()
            && graph.edges@[k].to < graph.nodes@.len() by {
            if k < before.len() {
                assert(graph.edges@[k] == before[k]);
                assert(old(graph).edges@[k].from < old(graph).nodes@.len());
            }
        }
    }
}

fn invalid(message: &str, detail: &str) -> (r: StorageError)
    ensures
        r matches StorageError::InvalidData(m) && m@ == message@ + detail@,
{
    StorageError::InvalidData(message.to_owned().concat(detail))
}

/// Builds a graph from the array of objects at `config.node_path`: one node
/// per element, in order, with the element's id, label and data; then, for
/// each element and relation field, an edge to each node whose id the field
/// holds (an id, or an array of ids; unknown ids are passed over). Fails when
/// the path leads nowhere, to something other than an array, or to an
/// element without a string id.
pub fn build_graph_from_json(json: &JsonValue, config: &GraphConfig) -> (r: StorageResult<Graph>)
    ensures
        r is Err <==> !(node_array(*json, *config) matches Some(arr) && all_have_ids(arr, *config)),
        r matches Err(e) ==> e is InvalidData,
        r matches Err(StorageError::InvalidData(m)) ==> m@ == build_error_text(*json, *config),
        r matches Ok(g) ==> g.wf() && edges_typed_by(g, config.relation_fields@) && (node_array(
            *json,
            *config,
        ) matches Some(arr) && g.nodes@.len() == arr.len() && forall|i: int|
            0 <= i < arr.len() ==> node_read_from(#[trigger] g.nodes@[i], arr[i], *config)),
        r matches Ok(g) ==> (node_array(*json, *config) matches Some(arr) && edge_views(g.edges@)
            == all_edges(g.nodes@, arr, *config, arr.len() as int)),
{
    proof {
        reveal_strlit("Cannot find node path: ");
        reveal_strlit("Node path is not an array");
    }
    let nodes_value = match navigate_json_path(json, config.node_path.as_str()) {
        Some(v) => v,
        None => {
            return Err(invalid("Cannot find node path: ", config.node_path.as_str()));
        },
    };
    let nodes_arr = match nodes_value.as_array() {
        Some(a) => a,
        None => {
            return Err(invalid("Node path is not an array", ""));
        },
    };
    let ghost arr = nodes_arr@;
    let mut graph = Graph::new();
    let mut idx: usize = 0;
    while idx < nodes_arr.len()
        invariant
            node_array(*json, *config) == Some(arr),
            arr == nodes_arr@,
            idx <= arr.len(),
            graph.nodes@.len() == idx,
            graph.edges@.len() == 0,
            graph.wf(),
            graph.index_table_ok(),
            forall|j: int| 0 <= j < idx ==> #[trigger] arr[j].spec_get(config.id_field@) matches Some(JsonValue::String(_)),
            forall|j: int| 0 <= j < idx ==> node_read_from(#[trigger] graph.nodes@[j], arr[j], *config),
        decreases nodes_arr.len() - idx,
    {
        let node_json = &nodes_arr[idx];
        let id = match node_json.get(config.id_field.as_str()) {
            Some(JsonValue::String(s)) => s.clone(),
            _ => {
                proof {
                    assert(!all_have_ids(arr, *config)) by {
                        assert(!(arr[idx as int].spec_get(config.id_field@) matches Some(JsonValue::String(_))));
                    }
                }
                return Err(invalid("Node is missing a string id field: ", config.id_field.as_str()));
            },
        };
        let label = match &config.label_field {
            Some(field) => match node_json.get(field.as_str()) {
                Some(JsonValue::String(l)) => Some(l.clone()),
                _ => None,
            },
            None => None,
        };
        let node = Node::new(id, label, copy_json(node_json));
        proof {
            assert(node_read_from(node, arr[idx as int], *config));
        }
        graph.add_node(node);
        idx = idx + 1;
    }
    let ghost nodes = graph.nodes@;
    let mut i: usize = 0;
    proof {
        assert(edge_views(graph.edges@) =~= all_edges(nodes, arr, *config, 0));
    }
    while i < nodes_arr.len()
        invariant
            node_array(*json, *config) == Some(arr),
            arr == nodes_arr@,
            all_have_ids(arr, *config),
            i <= arr.len(),
            graph.nodes@.len() == arr.len(),
            graph.wf(),
            graph.index_table_ok(),
            forall|j: int| 0 <= j < arr.len() ==> node_read_from(#[trigger] graph.nodes@[j], arr[j], *config),
            edges_typed_by(graph, config.relation_fields@),
            nodes == graph.nodes@,
            edge_views(graph.edges@) == all_edges(nodes, arr, *config, i as int),
        decreases nodes_arr.len() - i,
    {
        let node_json = &nodes_arr[i];
        let ghost done = all_edges(nodes, arr, *config, i as int);
        let from_idx = match node_json.get(config.id_field.as_str()) {
            Some(JsonValue::String(from_id)) => graph.get_node_index(from_id.as_str()),
            _ => None,
        };
        if let Some(from_idx) = from_idx {
            let mut f: usize = 0;
            proof {
                assert(done + field_edges(nodes, arr[i as int], config.relation_fields@, from_idx, 0) =~= done);
            }
            while f < config.relation_fields.len()
                invariant
                    nodes == graph.nodes@,
                    i < arr.len(),
                    arr == nodes_arr@,
                    *node_json == arr[i as int],
                    edge_views(graph.edges@) == done + field_edges(
                        nodes,
                        arr[i as int],
                        config.relation_fields@,
                        from_idx,
                        f as int,
                    ),
                    graph.nodes@.len() == arr.len(),
                    from_idx < graph.nodes@.len(),
                    f <= config.relation_fields@.len(),
                    graph.wf(),
                    graph.index_table_ok(),
            graph.index_table_ok(),
                    forall|j: int| 0 <= j < arr.len() ==> node_read_from(#[trigger] graph.nodes@[j], arr[j], *config),
                    edges_typed_by(graph, config.relation_fields@),
                decreases config.relation_fields.len() - f,
            {
                let rel_field = &config.relation_fields[f];
                let ghost base = edge_views(graph.edges@);
                let ghost targets = rel_targets(nodes, arr[i as int].spec_get(rel_field@));
                match node_json.get(rel_field.as_str()) {
                    Some(rel_value) => {
                        match rel_value {
                            JsonValue::Array(rel_array) => {
                                let mut t: usize = 0;
                                proof {
                                    assert(base + edges_to_targets(from_idx, targets_in(nodes, rel_array@.subrange(0, 0)), rel_field@) =~= base);
                                }
                                while t < rel_array.len()
                                    invariant
                                        t <= rel_array@.len(),
                                        nodes == graph.nodes@,
                                        edge_views(graph.edges@) == base + edges_to_targets(
                                            from_idx,
                                            targets_in(nodes, rel_array@.subrange(0, t as int)),
                                            rel_field@,
                                        ),
                                        graph.nodes@.len() == arr.len(),
                                        from_idx < graph.nodes@.len(),
                                        f < config.relation_fields@.len(),
                                        *rel_field == config.relation_fields@[f as int],
                                        graph.wf(),
                                        graph.index_table_ok(),
                    graph.index_table_ok(),
            graph.index_table_ok(),
                                        forall|j: int| 0 <= j < arr.len() ==> node_read_from(#[trigger] graph.nodes@[j], arr[j], *config),
                                        edges_typed_by(graph, config.relation_fields@),
                                    decreases rel_array.len() - t,
                                {
                                    let ghost pre = rel_array@.subrange(0, t as int);
                                    let ghost post = rel_array@.subrange(0, t + 1);
                                    proof {
                                        assert(post.drop_last() == pre);
                                        assert(post.last() == rel_array@[t as int]);
                                    }
                                    if let JsonValue::String(to_id) = &rel_array[t] {
                                        if let Some(to_idx) = graph.get_node_index(to_id.as_str()) {
                                            add_link(&mut graph, from_idx, to_idx, rel_field, Ghost(config.relation_fields@), Ghost(f as int));
                                        }
                                    }
                                    proof {
                                        assert(edge_views(graph.edges@) =~= base + edges_to_targets(
                                            from_idx,
                                            targets_in(nodes, post),
                                            rel_field@,
                                        ));
                                    }
                                    t = t + 1;
                                }
                                proof {
                                    assert(rel_array@.subrange(0, t as int) == rel_array@);
                                }
                            },
                            JsonValue::String(to_id) => {
                                if let Some(to_idx) = graph.get_node_index(to_id.as_str()) {
                                    add_link(&mut graph, from_idx, to_idx, rel_field, Ghost(config.relation_fields@), Ghost(f as int));
                                }
                                proof {
                                    assert(edge_views(graph.edges@) =~= base + edges_to_targets(from_idx, targets, rel_field@));
                                }
                            },
                            _ => {
                                proof {
                                    assert(edge_views(graph.edges@) =~= base + edges_to_targets(from_idx, targets, rel_field@));
                                }
                            },
                        }
                    },
                    None => {
                        proof {
                            assert(edge_views(graph.edges@) =~= base + edges_to_targets(from_idx, targets, rel_field@));
                        }
                    },
                }
                proof {
                    assert(edge_views(graph.edges@) == base + edges_to_targets(from_idx, targets, rel_field@));
                    assert(field_edges(nodes, arr[i as int], config.relation_fields@, from_idx, f + 1)
                        == field_edges(nodes, arr[i as int], config.relation_fields@, from_idx, f as int)
                        + edges_to_targets(from_idx, targets, config.relation_fields@[f as int]@));
                    assert(edge_views(graph.edges@) =~= done + field_edges(nodes, arr[i as int], config.relation_fields@, from_idx, f + 1));
                }
                f = f + 1;
            }
            proof {
                assert(element_edges(nodes, arr[i as int], *config) == field_edges(
                    nodes,
                    arr[i as int],
                    config.relation_fields@,
                    from_idx,
                    config.relation_fields@.len() as int,
                ));
            }
        } else {
            proof {
                assert(element_edges(nodes, arr[i as int], *config) =~= Seq::<EdgeView>::empty());
            }
        }
        proof {
            assert(all_edges(nodes, arr, *config, i + 1) == done + element_edges(nodes, arr[i as int], *config));
            assert(edge_views(graph.edges@) =~= all_edges(nodes, arr, *config, i + 1));
        }
        i = i + 1;
    }
    Ok(graph)
}

/// A graph source backed by a JSON document.
#[derive(Debug)]
pub struct JsonStorage {
    data: JsonValue,
    metadata: StorageMetadata,
}

impl JsonStorage {
    /// The document this backend reads.
    pub closed spec fn spec_data(&self) -> JsonValue {
        self.data
    }

    /// The metadata.
    pub closed spec fn spec_metadata(&self) -> StorageMetadata {
        self.metadata
    }

    /// A backend over `data`: `json` 1.0.0, concurrent reads.
    pub fn from_value(data: JsonValue) -> (r: JsonStorage)
        ensures
            r.spec_data() == data,
            r.spec_metadata().name@ == seq!['j', 's', 'o', 'n'],
            r.spec_metadata().features@ == seq![StorageFeature::ConcurrentReads],
    {
        proof {
            reveal_strlit("json");
        }
        let metadata = StorageMetadata::new("json", "1.0.0").with_feature(
            StorageFeature::ConcurrentReads,
        ).with_property("data_type", "json");
        JsonStorage { data, metadata }
    }

    /// A backend over `data` with the given metadata.
    pub fn with_metadata(data: JsonValue, metadata: StorageMetadata) -> (r: JsonStorage)
        ensures
            r.spec_data() == data,
            r.spec_metadata() == metadata,
    {
        JsonStorage { data, metadata }
    }

    pub fn data(&self) -> (r: &JsonValue)
        ensures
            *r == self.spec_data(),
    {
        &self.data
    }
}

impl SyncStorage for JsonStorage {
    /// The graph that `config` reads from the document.
    fn load_graph_sync(&self, config: &GraphConfig) -> (r: StorageResult<Graph>)
        ensures
            r is Err <==> !(node_array(self.spec_data(), *config) matches Some(arr) && all_have_ids(
                arr,
                *config,
            )),
            r matches Ok(g) ==> g.wf() && edges_typed_by(g, config.relation_fields@) && (node_array(
                self.spec_data(),
                *config,
            ) matches Some(arr) && g.nodes@.len() == arr.len() && forall|i: int|
                0 <= i < arr.len() ==> node_read_from(#[trigger] g.nodes@[i], arr[i], *config)),
            r matches Ok(g) ==> (node_array(self.spec_data(), *config) matches Some(arr) && edge_views(
                g.edges@,
            ) == all_edges(g.nodes@, arr, *config, arr.len() as int)),
            r matches Err(StorageError::InvalidData(m)) ==> m@ == build_error_text(self.spec_data(), *config),
    {
        build_graph_from_json(&self.data, config)
    }

    /// Node lookup is not offered by this backend: always `None`.
    fn get_node_sync(&self, id: &str) -> (r: StorageResult<Option<Node>>)
        ensures
            r matches Ok(None),
    {
        Ok(None)
    }

    fn metadata(&self) -> (r: StorageMetadata)
        ensures
            r.name == self.spec_metadata().name,
            r.version == self.spec_metadata().version,
            r.features@ == self.spec_metadata().features@,
            r.properties@ == self.spec_metadata().properties@,
    {
        self.metadata.clone()
    }

    fn supports_feature(&self, feature: StorageFeature) -> (r: bool)
        ensures
            r == self.spec_metadata().features@.contains(feature),
    {
        self.metadata.has_feature(feature)
    }
}

} // verus!

//! The property graph that queries run against: nodes and directed, typed
//! edges, each referred to by its index.
use vstd::prelude::*;

use crate::value::JsonValue;
use crate::assoc::{assoc_get, assoc_map};

verus! {

/// A node: its id, an optional label and a bag of properties.
#[derive(Debug)]
pub struct Node {
    pub id: String,
    pub label: Option<String>,
    pub data: JsonValue,
}

/// A directed edge between two nodes, given by index, with a type.
#[derive(Debug)]
pub struct Edge {
    pub from: usize,
    pub to: usize,
    pub rel_type: String,
}

/// Nodes and edges in insertion order.
#[derive(Debug)]
pub struct Graph {
    pub nodes: Vec<Node>,
    pub edges: Vec<Edge>,
    /// Node id to node index, for lookups by id; a later entry for an id
    /// shadows an earlier one, so an id maps to the last node added with it.
    pub id_map: Vec<(String, usize)>,
}

impl Node {
    /// The text of the property `key`, where it is a string, a number or a boolean.
    pub open spec fn spec_property_text(&self, key: Seq<char>) -> Option<Seq<char>> {
        match self.data.spec_get(key) {
            Some(v) => v.spec_scalar_text(),
            None => None,
        }
    }

    /// The property `key` as an `i64`, where it is an integer in range.
    pub open spec fn spec_property_i64(&self, key: Seq<char>) -> Option<i64> {
        match self.data.spec_get(key) {
            Some(v) => v.spec_as_i64(),
            None => None,
        }
    }

    pub fn new(id: String, label: Option<String>, data: JsonValue) -> (r: Node)
        ensures
            r.id == id,
            r.label == label,
            r.data == data,
    {
        Node { id, label, data }
    }

    /// The property `key` of the node's data.
    pub fn get_property(&self, key: &str) -> (r: Option<&JsonValue>)
        ensures
            r matches Some(v) ==> self.data.spec_get(key@) == Some(*v),
            r is None ==> self.data.spec_get(key@) is None,
    {
        self.data.get(key)
    }

    /// The property `key` as text, where it is a string, a number or a boolean.
    pub fn get_property_as_string(&self, key: &str) -> (r: Option<String>)
        ensures
            r matches Some(s) ==> self.spec_property_text(key@) == Some(s@),
            r is None ==> self.spec_property_text(key@) is None,
    {
        match self.data.get(key) {
            Some(v) => v.scalar_text(),
            None => None,
        }
    }

    /// The property `key` as an `i64`, where it is an integer in range.
    pub fn get_property_as_i64(&self, key: &str) -> (r: Option<i64>)
        ensures
            r == self.spec_property_i64(key@),
    {
        match self.data.get(key) {
            Some(v) => v.as_i64(),
            None => None,
        }
    }
}

impl Clone for Node {
    fn clone(&self) -> (r: Self)
        ensures
            r.id == self.id,
            r.label == self.label,
            crate::value::json_eq(self.data, r.data),
    {
        let label = match &self.label {
            Some(l) => Some(l.clone()),
            None => None,
        };
        Node { id: self.id.clone(), label, data: self.data.clone() }
    }
}

impl Edge {
    pub fn new(from: usize, to: usize, rel_type: String) -> (r: Edge)
        ensures
            r.from == from,
            r.to == to,
            r.rel_type == rel_type,
    {
        Edge { from, to, rel_type }
    }
}

impl Clone for Edge {
    fn clone(&self) -> (r: Self)
        ensures
            r == *self,
    {
        Edge { from: self.from, to: self.to, rel_type: self.rel_type.clone() }
    }
}

/// The index of the last node in `nodes` whose id is `id`.
pub open spec fn last_index_of(nodes: Seq<Node>, id: Seq<char>) -> Option<int>
    decreases nodes.len(),
{
    if nodes.len() == 0 {
        None
    } else if nodes.last().id@ == id {
        Some(nodes.len() - 1)
    } else {
        last_index_of(nodes.drop_last(), id)
    }
}

/// The edges of `edges` that leave node `idx`, in order.
pub open spec fn edges_from(edges: Seq<Edge>, idx: usize) -> Seq<Edge>
    decreases edges.len(),
{
    if edges.len() == 0 {
        Seq::empty()
    } else if edges.last().from == idx {
        edges_from(edges.drop_last(), idx).push(edges.last())
    } else {
        edges_from(edges.drop_last(), idx)
    }
}

/// The edges of `edges` that enter node `idx`, in order.
pub open spec fn edges_to(edges: Seq<Edge>, idx: usize) -> Seq<Edge>
    decreases edges.len(),
{
    if edges.len() == 0 {
        Seq::empty()
    } else if edges.last().to == idx {
        edges_to(edges.drop_last(), idx).push(edges.last())
    } else {
        edges_to(edges.drop_last(), idx)
    }
}

/// `tab` maps each id to the index of the last node of `nodes` with that id,
/// and holds no other id.
pub open spec fn table_ok(tab: Seq<(String, usize)>, nodes: Seq<Node>) -> bool {
    forall|id: Seq<char>|
        #[trigger] assoc_map(tab).contains_key(id) == (last_index_of(nodes, id) is Some) && (assoc_map(
            tab,
        ).contains_key(id) ==> assoc_map(tab)[id] as int == last_index_of(nodes, id)->Some_0)
}

proof fn lemma_table_push(tab: Seq<(String, usize)>, nodes: Seq<Node>, key: String, node: Node)
    requires
        table_ok(tab, nodes),
        node.id@ == key@,
        nodes.len() <= usize::MAX,
    ensures
        table_ok(tab.push((key, nodes.len() as usize)), nodes.push(node)),
{
    let t2 = tab.push((key, nodes.len() as usize));
    let n2 = nodes.push(node);
    assert(t2.drop_last() == tab);
    assert(n2.drop_last() == nodes);
    assert forall|id: Seq<char>| #[trigger] assoc_map(t2).contains_key(id) == (last_index_of(n2, id) is Some)
        && (assoc_map(t2).contains_key(id) ==> assoc_map(t2)[id] as int == last_index_of(n2, id)->Some_0) by {
        assert(assoc_map(t2) == assoc_map(tab).insert(key@, nodes.len() as usize));
        assert(assoc_map(tab).contains_key(id) == (last_index_of(nodes, id) is Some));
    }
}

proof fn lemma_last_index_in_range(nodes: Seq<Node>, id: Seq<char>)
    ensures
        last_index_of(nodes, id) matches Some(i) ==> 0 <= i < nodes.len(),
    decreases nodes.len(),
{
    if nodes.len() > 0 {
        lemma_last_index_in_range(nodes.drop_last(), id);
    }
}

impl Graph {
    /// The id table maps each id to the index of the last node with that id,
    /// and holds no other id.
    pub open spec fn index_table_ok(&self) -> bool {
        table_ok(self.id_map@, self.nodes@)
    }

    /// Rebuilds the id table from the nodes.
    pub fn rebuild_index(&mut self)
        ensures
            final(self).nodes == old(self).nodes,
            final(self).edges == old(self).edges,
            final(self).index_table_ok(),
    {
        let mut table: Vec<(String, usize)> = Vec::new();
        let mut i: usize = 0;
        proof {
            assert(self.nodes@.subrange(0, 0) =~= Seq::<Node>::empty());
        }
        while i < self.nodes.len()
            invariant
                i <= self.nodes@.len(),
                table_ok(table@, self.nodes@.subrange(0, i as int)),
            decreases self.nodes.len() - i,
        {
            let ghost before = table@;
            let key = self.nodes[i].id.clone();
            proof {
                lemma_table_push(before, self.nodes@.subrange(0, i as int), key, self.nodes@[i as int]);
                assert(self.nodes@.subrange(0, i as int).push(self.nodes@[i as int]) == self.nodes@.subrange(0, i + 1));
            }
            table.push((key, i));
            i = i + 1;
        }
        proof {
            assert(self.nodes@.subrange(0, i as int) == self.nodes@);
        }
        self.id_map = table;
    }

    /// Every edge joins two nodes of the graph.
    pub open spec fn wf(&self) -> bool {
        forall|i: int|
            0 <= i < self.edges@.len() ==> #[trigger] self.edges@[i].from < self.nodes@.len()
                && self.edges@[i].to < self.nodes@.len()
    }

    pub fn new() -> (r: Graph)
        ensures
            r.nodes@.len() == 0,
            r.edges@.len() == 0,
            r.wf(),
            r.index_table_ok(),
    {
        Graph { nodes: Vec::new(), edges: Vec::new(), id_map: Vec::new() }
    }

    /// Appends a node and returns its index.
    pub fn add_node(&mut self, node: Node) -> (r: usize)
        requires
            old(self).nodes@.len() < usize::MAX,
        ensures
            r == old(self).nodes@.len(),
            final(self).nodes@ == old(self).nodes@.push(node),
            final(self).edges@ == old(self).edges@,
            old(self).wf() ==> final(self).wf(),
            old(self).index_table_ok() ==> final(self).index_table_ok(),
    {
        let idx = self.nodes.len();
        let ghost old_table = self.id_map@;
        let ghost old_nodes = self.nodes@;
        let key = node.id.clone();
        proof {
            if table_ok(old_table, old_nodes) {
                lemma_table_push(old_table, old_nodes, key, node);
            }
        }
        self.id_map.push((key, idx));
        self.nodes.push(node);
        idx
    }

    /// The last node added with the id `id`.
    pub fn get_node(&self, id: &str) -> (r: Option<&Node>)
        requires
            self.index_table_ok(),
        ensures
            r matches Some(n) ==> last_index_of(self.nodes@, id@) matches Some(i) && *n
                == self.nodes@[i],
            r is None ==> last_index_of(self.nodes@, id@) is None,
    {
        match self.get_node_index(id) {
            Some(i) => Some(&self.nodes[i]),
            None => None,
        }
    }

    /// The index of the last node added with the id `id`, from the id table.
    pub fn get_node_index(&self, id: &str) -> (r: Option<usize>)
        requires
            self.index_table_ok(),
        ensures
            r matches Some(i) ==> last_index_of(self.nodes@, id@) == Some(i as int),
            r is None ==> last_index_of(self.nodes@, id@) is None,
            r matches Some(i) ==> i < self.nodes@.len(),
    {
        proof {
            lemma_last_index_in_range(self.nodes@, id@);
        }
        match assoc_get(&self.id_map, id) {
            Some(i) => Some(*i),
            None => None,
        }
    }

    /// Appends an edge.
    pub fn add_edge(&mut self, edge: Edge)
        ensures
            final(self).nodes@ == old(self).nodes@,
            final(self).edges@ == old(self).edges@.push(edge),
            final(self).id_map == old(self).id_map,
    {
        self.edges.push(edge);
    }

    /// The edges that leave node `from_idx`, in order.
    pub fn get_outgoing_edges(&self, from_idx: usize) -> (r: Vec<&Edge>)
        ensures
            r@.len() == edges_from(self.edges@, from_idx).len(),
            forall|k: int| 0 <= k < r@.len() ==> *r@[k] == edges_from(self.edges@, from_idx)[k],
    {
        let mut r: Vec<&Edge> = Vec::new();
        let mut i: usize = 0;
        while i < self.edges.len()
            invariant
                i <= self.edges@.len(),
                r@.len() == edges_from(self.edges@.subrange(0, i as int), from_idx).len(),
                forall|k: int|
                    0 <= k < r@.len() ==> *r@[k] == edges_from(
                        self.edges@.subrange(0, i as int),
                        from_idx,
                    )[k],
            decreases self.edges.len() - i,
        {
            proof {
                assert(self.edges@.subrange(0, i + 1).drop_last() == self.edges@.subrange(
                    0,
                    i as int,
                ));
            }
            if self.edges[i].from == from_idx {
                r.push(&self.edges[i]);
            }
            i = i + 1;
        }
        proof {
            assert(self.edges@.subrange(0, i as int) == self.edges@);
        }
        r
    }

    /// The edges that enter node `to_idx`, in order.
    pub fn get_incoming_edges(&self, to_idx: usize) -> (r: Vec<&Edge>)
        ensures
            r@.len() == edges_to(self.edges@, to_idx).len(),
            forall|k: int| 0 <= k < r@.len() ==> *r@[k] == edges_to(self.edges@, to_idx)[k],
    {
        let mut r: Vec<&Edge> = Vec::new();
        let mut i: usize = 0;
        while i < self.edges.len()
            invariant
                i <= self.edges@.len(),
                r@.len() == edges_to(self.edges@.subrange(0, i as int), to_idx).len(),
                forall|k: int|
                    0 <= k < r@.len() ==> *r@[k] == edges_to(
                        self.edges@.subrange(0, i as int),
                        to_idx,
                    )[k],
            decreases self.edges.len() - i,
        {
            proof {
                assert(self.edges@.subrange(0, i + 1).drop_last() == self.edges@.subrange(
                    0,
                    i as int,
                ));
            }
            if self.edges[i].to == to_idx {
                r.push(&self.edges[i]);
            }
            i = i + 1;
        }
        proof {
            assert(self.edges@.subrange(0, i as int) == self.edges@);
        }
        r
    }
}

/// `a` is a copy of `b`: the same id, label and property bag.
pub open spec fn node_copy(a: Node, b: Node) -> bool {
    a.id == b.id && a.label == b.label && crate::value::json_eq(b.data, a.data)
}

impl Clone for Graph {
    fn clone(&self) -> (r: Self)
        ensures
            r.nodes@.len() == self.nodes@.len(),
            forall|i: int| 0 <= i < self.nodes@.len() ==> node_copy(#[trigger] r.nodes@[i], self.nodes@[i]),
            r.edges@ == self.edges@,
            self.wf() ==> r.wf(),
            r.index_table_ok(),
    {
        let mut nodes: Vec<Node> = Vec::new();
        let mut i: usize = 0;
        while i < self.nodes.len()
            invariant
                i <= self.nodes@.len(),
                nodes@.len() == i,
                forall|k: int| 0 <= k < i ==> node_copy(#[trigger] nodes@[k], self.nodes@[k]),
            decreases self.nodes.len() - i,
        {
            nodes.push(self.nodes[i].clone());
            i = i + 1;
        }
        let mut edges: Vec<Edge> = Vec::new();
        let mut j: usize = 0;
        while j < self.edges.len()
            invariant
                j <= self.edges@.len(),
                edges@ == self.edges@.subrange(0, j as int),
            decreases self.edges.len() - j,
        {
            edges.push(self.edges[j].clone());
            j = j + 1;
            proof {
                assert(edges@ == self.edges@.subrange(0, j as int));
            }
        }
        proof {
            assert(edges@ == self.edges@);
        }
        let mut r = Graph { nodes, edges, id_map: Vec::new() };
        r.rebuild_index();
        r
    }
}

impl Default for Graph {
    fn default() -> (r: Graph)
        ensures
            r.nodes@.len() == 0,
            r.edges@.len() == 0,
    {
        Graph::new()
    }
}

} // verus!

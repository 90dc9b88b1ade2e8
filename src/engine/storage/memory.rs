//! A backend that holds a graph in memory.
use vstd::prelude::*;

use crate::config::GraphConfig;
use crate::engine::storage::storage_trait::{
    StorageFeature, StorageMetadata, StorageResult, SyncStorage,
};
use crate::graph::{last_index_of, node_copy, Graph, Node};

verus! {

/// A graph held in memory, with no persistence.
#[derive(Debug)]
pub struct MemoryStorage {
    graph: Graph,
    metadata: StorageMetadata,
}

/// The metadata of the memory backend: `memory` 1.0.0, concurrent reads and
/// writes, volatile.
fn memory_metadata() -> (r: StorageMetadata)
    ensures
        r.name@ == seq!['m', 'e', 'm', 'o', 'r', 'y'],
        r.features@ == seq![StorageFeature::ConcurrentReads, StorageFeature::ConcurrentWrites],
{
    proof {
        reveal_strlit("memory");
    }
    let m = StorageMetadata::new("memory", "1.0.0");
    let m = m.with_feature(StorageFeature::ConcurrentReads);
    let m = m.with_feature(StorageFeature::ConcurrentWrites);
    let m = m.with_property("volatile", "true");
    m
}

impl MemoryStorage {
    #[verifier::type_invariant]
    spec fn inv(&self) -> bool {
        self.graph.index_table_ok()
    }

    /// The graph this backend holds.
    pub closed spec fn spec_graph(&self) -> Graph {
        self.graph
    }

    /// The metadata of this backend.
    pub closed spec fn spec_metadata(&self) -> StorageMetadata {
        self.metadata
    }

    /// A backend over `graph`; its id table is rebuilt from the nodes.
    pub fn from_graph(graph: Graph) -> (r: MemoryStorage)
        ensures
            r.spec_graph().nodes == graph.nodes,
            r.spec_graph().edges == graph.edges,
            r.spec_metadata().name@ == seq!['m', 'e', 'm', 'o', 'r', 'y'],
            r.spec_metadata().features@ == seq![StorageFeature::ConcurrentReads, StorageFeature::ConcurrentWrites],
    {
        let mut graph = graph;
        graph.rebuild_index();
        MemoryStorage { graph, metadata: memory_metadata() }
    }

    /// A backend with an empty graph.
    pub fn empty() -> (r: MemoryStorage)
        ensures
            r.spec_graph().nodes@.len() == 0,
            r.spec_graph().edges@.len() == 0,
    {
        Self::from_graph(Graph::new())
    }

    pub fn graph(&self) -> (r: &Graph)
        ensures
            *r == self.spec_graph(),
            r.index_table_ok(),
    {
        proof {
            use_type_invariant(self);
        }
        &self.graph
    }

    /// A backend whose graph has the given nodes, in order, and no edges.
    pub fn with_nodes(nodes: Vec<Node>) -> (r: StorageResult<MemoryStorage>)
        ensures
            r matches Ok(s) && s.spec_graph().nodes@ == nodes@ && s.spec_graph().edges@.len()
                == 0,
    {
        let mut graph = Graph::new();
        let mut nodes = nodes;
        let total = nodes.len();
        let ghost all = nodes@;
        let mut rest: Vec<Node> = Vec::new();
        // Take the nodes off the end and put them back in order.
        while nodes.len() > 0
            invariant
                all == nodes@ + rest@.reverse(),
                nodes@.len() + rest@.len() == all.len(),
            decreases nodes.len(),
        {
            let n = nodes.pop().unwrap();
            proof {
                assert(rest@.push(n).reverse() =~= seq![n] + rest@.reverse());
            }
            rest.push(n);
            proof {
                assert(all =~= nodes@ + rest@.reverse());
            }
        }
        while rest.len() > 0
            invariant
                all == graph.nodes@ + rest@.reverse(),
                graph.edges@.len() == 0,
                all.len() == total,
                graph.nodes@.len() + rest@.len() == all.len(),
            decreases rest.len(),
        {
            let n = rest.pop().unwrap();
            proof {
                assert(rest@.push(n).reverse() =~= seq![n] + rest@.reverse());
            }
            graph.add_node(n);
            proof {
                assert(all =~= graph.nodes@ + rest@.reverse());
            }
        }
        proof {
            assert(graph.nodes@ =~= all);
        }
        Ok(Self::from_graph(graph))
    }
}

impl SyncStorage for MemoryStorage {
    /// A copy of the held graph.
    fn load_graph_sync(&self, config: &GraphConfig) -> (r: StorageResult<Graph>)
        ensures
            r matches Ok(g) && g.nodes@.len() == self.spec_graph().nodes@.len() && g.edges@
                == self.spec_graph().edges@ && forall|i: int|
                0 <= i < g.nodes@.len() ==> node_copy(#[trigger] g.nodes@[i], self.spec_graph().nodes@[i]),
    {
        Ok(self.graph.clone())
    }

    /// A copy of the last node added with the id `id`.
    fn get_node_sync(&self, id: &str) -> (r: StorageResult<Option<Node>>)
        ensures
            r matches Ok(o) && (o is Some <==> last_index_of(self.spec_graph().nodes@, id@) is Some)
                && (o matches Some(n) ==> last_index_of(self.spec_graph().nodes@, id@) matches Some(i)
                && node_copy(n, self.spec_graph().nodes@[i])),
    {
        proof {
            use_type_invariant(self);
        }
        match self.graph.get_node(id) {
            Some(n) => Ok(Some(n.clone())),
            None => Ok(None),
        }
    }

    fn metadata(&self) -> (r: StorageMetadata)
        ensures
            r.name == self.spec_metadata().name,
            r.version == self.spec_metadata().version,
            r.features@ == self.spec_metadata().features@,
            r.properties@ == self.spec_metadata().properties@,
    {
        self.metadata.clone()
    }

    fn supports_feature(&self, feature: StorageFeature) -> (r: bool)
        ensures
            r == self.spec_metadata().features@.contains(feature),
    {
        self.metadata.has_feature(feature)
    }
}

/// Builds a `MemoryStorage` node by node.
#[derive(Debug)]
pub struct MemoryStorageBuilder {
    graph: Graph,
}

impl MemoryStorageBuilder {
    /// The graph built so far.
    pub closed spec fn spec_graph(&self) -> Graph {
        self.graph
    }

    pub fn new() -> (r: MemoryStorageBuilder)
        ensures
            r.spec_graph().nodes@.len() == 0,
            r.spec_graph().edges@.len() == 0,
    {
        MemoryStorageBuilder { graph: Graph::new() }
    }

    pub fn add_node(self, node: Node) -> (r: MemoryStorageBuilder)
        requires
            self.spec_graph().nodes@.len() < usize::MAX,
        ensures
            r.spec_graph().nodes@ == self.spec_graph().nodes@.push(node),
            r.spec_graph().edges@ == self.spec_graph().edges@,
    {
        let mut b = self;
        b.graph.add_node(node);
        b
    }

    pub fn add_nodes(self, nodes: Vec<Node>) -> (r: MemoryStorageBuilder)
        requires
            self.spec_graph().nodes@.len() + nodes@.len() < usize::MAX,
        ensures
            r.spec_graph().nodes@ == self.spec_graph().nodes@ + nodes@,
            r.spec_graph().edges@ == self.spec_graph().edges@,
    {
        let mut b = self;
        let mut nodes = nodes;
        let ghost all = nodes@;
        let ghost start = b.graph.nodes@;
        let mut rest: Vec<Node> = Vec::new();
        while nodes.len() > 0
            invariant
                all == nodes@ + rest@.reverse(),
                nodes@.len() + rest@.len() == all.len(),
            decreases nodes.len(),
        {
            let n = nodes.pop().unwrap();
            proof {
                assert(rest@.push(n).reverse() =~= seq![n] + rest@.reverse());
            }
            rest.push(n);
            proof {
                assert(all =~= nodes@ + rest@.reverse());
            }
        }
        while rest.len() > 0
            invariant
                start + all == b.graph.nodes@ + rest@.reverse(),
                b.graph.nodes@.len() + rest@.len() == start.len() + all.len(),
                b.graph.edges@ == self.spec_graph().edges@,
                start.len() + all.len() < usize::MAX,
            decreases rest.len(),
        {
            let n = rest.pop().unwrap();
            proof {
                assert(rest@.push(n).reverse() =~= seq![n] + rest@.reverse());
            }
            b.graph.add_node(n);
            proof {
                assert(start + all =~= b.graph.nodes@ + rest@.reverse());
            }
        }
        proof {
            assert(b.graph.nodes@ =~= start + all);
        }
        b
    }

    pub fn build(self) -> (r: MemoryStorage)
        ensures
            r.spec_graph().nodes == self.spec_graph().nodes,
            r.spec_graph().edges == self.spec_graph().edges,
            r.spec_metadata().name@ == seq!['m', 'e', 'm', 'o', 'r', 'y'],
            r.spec_metadata().features@ == seq![StorageFeature::ConcurrentReads, StorageFeature::ConcurrentWrites],
    {
        MemoryStorage::from_graph(self.graph)
    }
}

impl Clone for MemoryStorageBuilder {
    fn clone(&self) -> (r: Self)
        ensures
            r.spec_graph().nodes@.len() == self.spec_graph().nodes@.len(),
            r.spec_graph().edges@ == self.spec_graph().edges@,
    {
        MemoryStorageBuilder { graph: self.graph.clone() }
    }
}

} // verus!

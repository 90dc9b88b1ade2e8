//! How a JSON document maps to a graph.
use vstd::prelude::*;

verus! {

/// Where the nodes of a JSON document are and which fields hold what.
#[derive(Debug)]
pub struct GraphConfig {
    /// Dot-separated path to the array of nodes (`data.users`); a `*` step stays in place.
    pub node_path: String,
    /// The field that holds a node's id.
    pub id_field: String,
    /// The field that holds a node's label, if any.
    pub label_field: Option<String>,
    /// Fields that hold the id, or an array of ids, of related nodes.
    pub relation_fields: Vec<String>,
}

impl GraphConfig {
    pub fn new(
        node_path: &str,
        id_field: &str,
        label_field: Option<String>,
        relation_fields: Vec<String>,
    ) -> (r: GraphConfig)
        ensures
            r.node_path@ == node_path@,
            r.id_field@ == id_field@,
            r.label_field == label_field,
            r.relation_fields == relation_fields,
    {
        GraphConfig {
            node_path: node_path.to_owned(),
            id_field: id_field.to_owned(),
            label_field,
            relation_fields,
        }
    }

    /// A configuration with no label field and no relation fields.
    pub fn minimal(node_path: &str, id_field: &str) -> (r: GraphConfig)
        ensures
            r.node_path@ == node_path@,
            r.id_field@ == id_field@,
            r.label_field is None,
            r.relation_fields@.len() == 0,
    {
        GraphConfig {
            node_path: node_path.to_owned(),
            id_field: id_field.to_owned(),
            label_field: None,
            relation_fields: Vec::new(),
        }
    }
}

impl Default for GraphConfig {
    /// Nodes under `nodes`, ids in `id`.
    fn default() -> (r: GraphConfig)
        ensures
            r.node_path@ == seq!['n', 'o', 'd', 'e', 's'],
            r.id_field@ == seq!['i', 'd'],
            r.label_field is None,
            r.relation_fields@.len() == 0,
    {
        proof {
            reveal_strlit("nodes");
            reveal_strlit("id");
        }
        GraphConfig::minimal("nodes", "id")
    }
}

} // verus!

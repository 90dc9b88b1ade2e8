//! What a storage backend offers.
use vstd::prelude::*;

use crate::assoc::{assoc_get, assoc_map};
use crate::config::GraphConfig;
use crate::graph::{Graph, Node};

verus! {

/// Errors of storage operations.
#[derive(Debug)]
pub enum StorageError {
    Io(String),
    JsonParse(String),
    InvalidData(String),
    NodeNotFound(String),
    ConfigError(String),
}

pub type StorageResult<T> = Result<T, StorageError>;

impl StorageError {
    /// A one-line description of the error.
    pub fn message(&self) -> (r: String)
        ensures
            self matches StorageError::InvalidData(m) ==> r@ == seq![
                'I', 'n', 'v', 'a', 'l', 'i', 'd', ' ', 'd', 'a', 't', 'a', ' ', 's', 't', 'r', 'u', 'c', 't', 'u', 'r', 'e', ':', ' '
            ] + m@,
    {
        proof {
            reveal_strlit("Invalid data structure: ");
        }
        match self {
            StorageError::Io(m) => String::from_str("IO error: ").concat(m.as_str()),
            StorageError::JsonParse(m) => String::from_str("JSON parsing error: ").concat(m.as_str()),
            StorageError::InvalidData(m) => String::from_str("Invalid data structure: ").concat(m.as_str()),
            StorageError::NodeNotFound(m) => String::from_str("Node not found: ").concat(m.as_str()),
            StorageError::ConfigError(m) => String::from_str("Configuration error: ").concat(m.as_str()),
        }
    }
}

/// Features that a storage backend may support.
#[derive(Debug, Clone, Copy, PartialEq, Eq, Structural)]
pub enum StorageFeature {
    ConcurrentReads,
    ConcurrentWrites,
    Transactions,
    PartialQuery,
    Persistence,
}

/// Name, version, features and further properties of a backend.
#[derive(Debug)]
pub struct StorageMetadata {
    pub name: String,
    pub version: String,
    pub features: Vec<StorageFeature>,
    /// Key/value pairs; a later pair for a key replaces an earlier one.
    pub properties: Vec<(String, String)>,
}

impl StorageMetadata {
    pub fn new(name: &str, version: &str) -> (r: StorageMetadata)
        ensures
            r.name@ == name@,
            r.version@ == version@,
            r.features@.len() == 0,
            assoc_map(r.properties@) == Map::<Seq<char>, String>::empty(),
    {
        StorageMetadata {
            name: name.to_owned(),
            version: version.to_owned(),
            features: Vec::new(),
            properties: Vec::new(),
        }
    }

    /// Adds a feature.
    pub fn with_feature(self, feature: StorageFeature) -> (r: StorageMetadata)
        ensures
            r.name == self.name,
            r.version == self.version,
            r.features@ == self.features@.push(feature),
            r.properties == self.properties,
    {
        let mut m = self;
        m.features.push(feature);
        m
    }

    /// Sets a property.
    pub fn with_property(self, key: &str, value: &str) -> (r: StorageMetadata)
        ensures
            r.name == self.name,
            r.version == self.version,
            r.features == self.features,
            assoc_map(r.properties@) == assoc_map(self.properties@).insert(key@, r.properties@.last().1),
            r.properties@.last().1@ == value@,
    {
        let mut m = self;
        m.properties.push((key.to_owned(), value.to_owned()));
        proof {
            assert(m.properties@.drop_last() == self.properties@);
        }
        m
    }

    /// The value of a property.
    pub fn property(&self, key: &str) -> (r: Option<&String>)
        ensures
            r matches Some(v) ==> assoc_map(self.properties@).contains_key(key@) && assoc_map(
                self.properties@,
            )[key@] == *v,
            r is None ==> !assoc_map(self.properties@).contains_key(key@),
    {
        assoc_get(&self.properties, key)
    }

    /// Whether the feature is listed.
    pub fn has_feature(&self, feature: StorageFeature) -> (r: bool)
        ensures
            r == self.features@.contains(feature),
    {
        let mut i: usize = 0;
        while i < self.features.len()
            invariant
                i <= self.features@.len(),
                forall|k: int| 0 <= k < i ==> self.features@[k] != feature,
            decreases self.features.len() - i,
        {
            if self.features[i] == feature {
                proof {
                    assert(self.features@[i as int] == feature);
                }
                return true;
            }
            i = i + 1;
        }
        false
    }
}

impl Clone for StorageMetadata {
    fn clone(&self) -> (r: Self)
        ensures
            r.name == self.name,
            r.version == self.version,
            r.features@ == self.features@,
            r.properties@ == self.properties@,
    {
        let mut features: Vec<StorageFeature> = Vec::new();
        let mut i: usize = 0;
        while i < self.features.len()
            invariant
                i <= self.features@.len(),
                features@ == self.features@.subrange(0, i as int),
            decreases self.features.len() - i,
        {
            features.push(self.features[i]);
            i = i + 1;
            proof {
                assert(features@ == self.features@.subrange(0, i as int));
            }
        }
        let mut properties: Vec<(String, String)> = Vec::new();
        let mut j: usize = 0;
        while j < self.properties.len()
            invariant
                j <= self.properties@.len(),
                properties@ == self.properties@.subrange(0, j as int),
            decreases self.properties.len() - j,
        {
            properties.push((self.properties[j].0.clone(), self.properties[j].1.clone()));
            j = j + 1;
            proof {
                assert(properties@ == self.properties@.subrange(0, j as int));
            }
        }
        proof {
            assert(features@ == self.features@);
            assert(properties@ == self.properties@);
        }
        StorageMetadata { name: self.name.clone(), version: self.version.clone(), features, properties }
    }
}

/// A backend that loads graphs synchronously.
pub trait SyncStorage {
    /// Loads the graph that `config` describes.
    fn load_graph_sync(&self, config: &GraphConfig) -> StorageResult<Graph>;

    /// The node with the id `id`, if the backend can find one.
    fn get_node_sync(&self, id: &str) -> StorageResult<Option<Node>>;

    fn metadata(&self) -> StorageMetadata;

    fn supports_feature(&self, feature: StorageFeature) -> bool;
}

/// A storage backend.
pub trait Storage {
    fn load_graph(&self, config: &GraphConfig) -> StorageResult<Graph>;

    fn get_node(&self, id: &str) -> StorageResult<Option<Node>>;
}

impl<T: SyncStorage> Storage for T {
    fn load_graph(&self, config: &GraphConfig) -> StorageResult<Graph> {
        self.load_graph_sync(config)
    }

    fn get_node(&self, id: &str) -> StorageResult<Option<Node>> {
        self.get_node_sync(id)
    }
}

} // verus!

//! Sources of graphs: a JSON document or a graph held in memory.
use vstd::prelude::*;

pub mod json;
pub mod memory;
pub mod storage_trait;

pub use json::JsonStorage;
pub use memory::{MemoryStorage, MemoryStorageBuilder};
pub use storage_trait::{
    Storage, StorageError, StorageFeature, StorageMetadata, StorageResult, SyncStorage,
};

verus! {

} // verus!

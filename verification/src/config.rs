//! Configuration for the memory and state subsystems.
//!
//! Similarity values are fixed-point integers scaled by
//! [`crate::math::SCALE`] (1 000 000 units per 1.0); see [`crate::vector`].

use vstd::prelude::*;

verus! {

/// Configuration for the memory subsystem.
#[derive(Debug, Clone)]
pub struct MemoryConfig {
    /// Embedding dimension (must match the embedding provider).
    pub embedding_dim: usize,
    /// Maximum number of memory entries.
    pub max_entries: usize,
    /// Path to persist memory at, if any (the caller performs the file I/O).
    pub persist_path: Option<String>,
    /// Number of results for similarity search.
    pub default_search_k: usize,
    /// Similarity threshold, fixed-point scaled by [`crate::math::SCALE`].
    pub similarity_threshold: i64,
}

impl Default for MemoryConfig {
    /// The defaults: dimension 4096, 100 000 entries, no persistence,
    /// 5 search results, threshold 0.7.
    fn default() -> (c: Self)
        ensures
            c.embedding_dim == 4096,
            c.max_entries == 100000,
            c.persist_path is None,
            c.default_search_k == 5,
            c.similarity_threshold == 700000int,
    {
        MemoryConfig {
            embedding_dim: 4096,
            max_entries: 100000,
            persist_path: None,
            default_search_k: 5,
            similarity_threshold: 700000,
        }
    }
}

/// Configuration for state management.
#[derive(Debug, Clone)]
pub struct StateConfig {
    /// Directory for state persistence, if any (the caller performs the file I/O).
    pub directory: Option<String>,
    /// Maximum number of checkpoints to keep.
    pub max_checkpoints: usize,
    /// Auto-checkpoint interval in messages (0 = disabled).
    pub auto_checkpoint_interval: usize,
}

impl Default for StateConfig {
    /// The defaults: no persistence, 100 retained checkpoints, no auto-checkpointing.
    fn default() -> (c: Self)
        ensures
            c.directory is None,
            c.max_checkpoints == 100,
            c.auto_checkpoint_interval == 0,
    {
        StateConfig { directory: None, max_checkpoints: 100, auto_checkpoint_interval: 0 }
    }
}

} // verus!

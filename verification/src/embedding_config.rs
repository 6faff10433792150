//! Embedding storage configuration and its manager: the dimension, the
//! storage directory name, and the table-name prefix.

use vstd::prelude::*;
use crate::config::AIConfig;
use crate::embeddings::{EmbeddingsStore, DIM_MAX};
use crate::ann::AnnParams;

verus! {

/// Embedding storage options.
pub struct EmbeddingConfig {
    /// The dimension of embeddings to store.
    pub embedding_dim: usize,
    /// Directory name for the embedding store, under the data directory.
    pub db_dir: String,
    /// Prefix for table names, useful when a store is shared.
    pub table_prefix: String,
}

/// The stock embedding dimension.
pub fn default_embedding_dim() -> (r: usize)
    ensures
        r == 384,
{
    384
}

/// The stock storage directory name.
pub fn default_db_dir() -> (r: String)
    ensures
        r@ == "embeddings"@,
{
    String::from_str("embeddings")
}

/// The stock table-name prefix.
pub fn default_table_prefix() -> (r: String)
    ensures
        r@ == "notemancy_"@,
{
    String::from_str("notemancy_")
}

impl Default for EmbeddingConfig {
    /// The stock options.
    fn default() -> (r: EmbeddingConfig)
        ensures
            r.embedding_dim == 384,
            r.db_dir@ == "embeddings"@,
            r.table_prefix@ == "notemancy_"@,
    {
        EmbeddingConfig {
            embedding_dim: default_embedding_dim(),
            db_dir: default_db_dir(),
            table_prefix: default_table_prefix(),
        }
    }
}

/// Extension for model options that supply an embedding configuration.
pub trait AIConfigExt {
    /// The embedding storage options this configuration implies.
    fn get_embedding_config(&mut self) -> (r: EmbeddingConfig)
        ensures
            r.embedding_dim == 384,
            r.db_dir@ == "embeddings"@,
            r.table_prefix@ == "notemancy_"@,
    ;
}

impl AIConfigExt for AIConfig {
    /// Model options carry no embedding overrides: the stock options
    /// apply.
    fn get_embedding_config(&mut self) -> (r: EmbeddingConfig) {
        EmbeddingConfig::default()
    }
}

/// Handles initialization of embedding storage and provides access to the
/// store.
pub struct EmbeddingManager {
    store: EmbeddingsStore,
    config: EmbeddingConfig,
}

impl EmbeddingManager {
    /// The configured options.
    pub closed spec fn spec_config(&self) -> EmbeddingConfig {
        self.config
    }

    /// The store behind this manager.
    pub closed spec fn spec_store(&self) -> EmbeddingsStore {
        self.store
    }

    /// Creates a manager over a fresh store with the configured
    /// dimension.
    pub fn new(config: EmbeddingConfig) -> (r: EmbeddingManager)
        requires
            1 <= config.embedding_dim <= DIM_MAX,
        ensures
            r.spec_config() == config,
            r.spec_store().wf(),
            r.spec_store().spec_dim() == config.embedding_dim,
            r.spec_store().tables().len() == 0,
    {
        let store = EmbeddingsStore::new(config.embedding_dim, AnnParams::default());
        EmbeddingManager { store, config }
    }

    /// The full table name under the configured prefix.
    pub fn get_table_name(&self, base_name: &str) -> (r: String)
        ensures
            r@ == self.spec_config().table_prefix@ + base_name@,
    {
        let mut r = self.config.table_prefix.clone();
        r.append(base_name);
        r
    }

    /// A reference to the underlying embedding store.
    pub fn store(&self) -> (r: &EmbeddingsStore)
        ensures
            *r == self.spec_store(),
    {
        &self.store
    }

    /// The configured embedding dimension.
    pub fn embedding_dim(&self) -> (r: usize)
        ensures
            r == self.spec_config().embedding_dim,
    {
        self.config.embedding_dim
    }
}

} // verus!

//! Core of a personal knowledge-base indexing engine.
//!
//! The library scans document vaults, derives a stable virtual identity for
//! every file, keeps a relational record of the results, and offers lexical
//! and vector-similarity retrieval over the indexed content.  Filesystem
//! walking, persistence and model inference live outside the library; the
//! decisions they feed are made here, under contract.

pub mod ai;
pub mod ann;
pub mod config;
pub mod db;
pub mod dbapi;
pub mod embedding_config;
pub mod embeddings;
pub mod fetch;
pub mod frontmatter;
pub mod nlputils;
pub mod scan;
pub mod search;
pub mod text;
pub mod utils;
pub mod vectordb;
pub mod vec_indexer;

//! Ingestion core for a shard-partitioned n-gram corpus.
//!
//! The library covers the logic of the pipeline: enumerating shards and
//! their URLs, parsing corpus lines into scored n-grams, resolving word
//! sequences to integer ids through a bounded cache, staging resolved
//! rows, and recording shard completion so that a restart resumes
//! instead of repeating work.  Network transfer and the relational
//! store itself are collaborators driven from outside the library.

pub mod cache;
pub mod catalog;
pub mod codec;
pub mod download;
pub mod ledger;
pub mod models;
pub mod parse;
pub mod pipeline;
pub mod store;
pub mod text;

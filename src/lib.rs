//! A content-addressed, deduplicating backup engine: content-defined
//! chunking, content addresses, reference-counted deduplication,
//! compression, authenticated encryption and snapshot bookkeeping.

pub mod error;
pub mod hash;
pub mod types;
pub mod chunker;
pub mod compression;
pub mod encryption;
pub mod dedup;
pub mod storage;
pub mod engine;
mod text;
pub mod laws;
pub mod sources;

//! A fixed-dimension vector index: string identifiers mapped to embeddings,
//! with insertion, removal, batch rebuild, candidate resolution and a
//! compressed persisted form.
//!
//! Coordinates and distances are carried as 32-bit patterns, so that every
//! stored value can be compared, copied and persisted exactly.

pub mod codec;
pub mod embedding;
pub mod engine;
pub mod error;
pub mod gzip;
pub mod hashing;
pub mod index;
pub mod laws;
pub mod model;
pub mod types;
pub mod vdb;

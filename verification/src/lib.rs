//! Core of an image semantic-search engine.
//!
//! Images discovered under tracked root directories are reduced to
//! thumbnails, content-hashed, described and embedded by an external
//! vision service, and persisted in an index keyed by absolute path.
//! This crate holds the verified core: the record schema and its
//! invariants, the index store with upsert-by-path semantics, the
//! in-flight path cache that reconciles renames racing with indexing,
//! the chunked indexing pipeline, and nearest-neighbour search.
//! The desktop shell, the HTTP client of the vision service and the
//! image codec are external collaborators: their outcomes enter the
//! library as plain values.

pub mod errors;
pub mod text;
pub mod hashing;
pub mod record;
pub mod paths;
pub mod thumbs;
pub mod store;
pub mod cache;
pub mod pipeline;
pub mod laws;

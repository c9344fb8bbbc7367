//! An in-memory full-text index over bookmark documents (url, description,
//! tags): documents are buffered, frozen into immutable segments on commit,
//! and searched with a ranked, deterministic top-k.
pub mod analyzer;
pub mod collector;
pub mod document;
pub mod index;
pub mod laws;
pub mod query;
pub mod scoring;
pub mod search;
pub mod snapshot;

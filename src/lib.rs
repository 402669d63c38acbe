//! Indexing and keyword search over a corpus of skill documents.
//!
//! The corpus is scanned by the caller; this crate turns the scanned entries
//! into a sorted metadata index and a content index, keeps both together as
//! one snapshot, and ranks keyword queries against it.

pub mod text;
pub mod model;
pub mod builder;
pub mod search;
pub mod store;
pub mod api;

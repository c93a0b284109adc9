//! Packing a directory tree of small files into one contiguous blob plus a
//! text index, and reading that index back.
//!
//! The builder side keeps a running byte offset and emits one index line per
//! file; the reader side parses the index text into a map from relative path
//! to asset metadata and answers lookups against it.

pub mod archive;
pub mod asset;
pub mod indexer;
pub mod laws;
pub mod text;

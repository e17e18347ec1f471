//! Translates the string leaves of a JSON document into a target language
//! while preserving the document's structure exactly.
//!
//! The pipeline: a document is flattened into (path key, leaf) pairs; string
//! leaves not already in the cache are packed into delimiter-joined batches
//! bounded by a size limit; each batch is one request to the translation
//! provider; the response is split back into per-path translations; the cache
//! is updated; and the tree is rebuilt with translated strings substituted at
//! their original paths.

pub mod adapter;
pub mod batch;
pub mod cache;
pub mod config;
pub mod flatten;
pub mod json;
pub mod paths;
pub mod rebuild;
pub mod roundtrip;
pub mod text;

//! A small verified full-text search library for static HTML sites.
//!
//! The crate covers the indexing and query core: extracting a title and a
//! canonical url from raw HTML, building an in-memory inverted index over
//! tokenized titles and urls, and answering free-text queries with the
//! top ten documents ranked by a term-frequency / inverse-document-frequency
//! score, ties broken by indexing order.

pub mod extract;
pub mod index;
pub mod laws;
pub mod search;
pub mod tokenize;

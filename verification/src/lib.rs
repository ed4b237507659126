//! A persistent, crash-safe inverted index over a directory tree.

pub mod bench;
pub mod crawl_laws;
pub mod crawler;
pub mod daemon;
pub mod error;
pub mod format;
pub mod fs;
pub mod harness;
pub mod harness_laws;
pub mod index;
pub mod number_laws;
pub mod order;
pub mod query;
pub mod report;
pub mod rounding;
pub mod snippet;
pub mod snippet_laws;
pub mod sort;
pub mod store;
pub mod text;
pub mod text_laws;
pub mod token_laws;
pub mod tokenizer;

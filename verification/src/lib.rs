//! Core logic of an embedded document store: bitmap containers and their
//! on-disk tables, document keys and schemas, the background indexing queue,
//! and the integer half of the semantic-search pipeline.

pub mod bytes;
pub mod doc_store;
pub mod index;
pub mod lex;
pub mod numbers;
pub mod semantic_search;
pub mod seqs;
pub mod sorting;
pub mod text;

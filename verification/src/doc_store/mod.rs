//! The decisions of the document store: identifiers, schemas, index builds and
//! the upkeep of the vector index.

pub mod activation;
pub mod amendment;
pub mod error;
pub mod flat_record;
pub mod hex;
pub mod index_build;
pub mod json;
pub mod key;
pub mod kv_types;
pub mod query;
pub mod reconcile;
pub mod reindex;
pub mod reindex_queue;
pub mod rounds;
pub mod scan;
pub mod schema;
pub mod types;
pub mod vec_index_worker;
pub mod vector_upkeep;

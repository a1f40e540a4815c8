//! The exact half of semantic search: chunking, codes and rankings.

pub mod chunking;
pub mod evaluation;
pub mod fusion;
pub mod quantisation;
pub mod vector_math;

//! Field indices.

pub mod predicate;

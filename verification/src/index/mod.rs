//! Bitmap index building blocks.

pub mod archive;
pub mod bitmap;
pub mod container;
pub mod container_store;
pub mod field;
pub mod layout;
pub mod region;
pub mod rowmap;
pub mod simd_support;
pub mod sync;
pub mod table;

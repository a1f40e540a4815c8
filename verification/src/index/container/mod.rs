//! Sixteen-bit value sets in three representations.

pub mod algebra;
pub mod array;
pub mod bitset;
pub mod ops;
pub mod run;
pub mod set;

pub use set::Container;

//! Word-at-a-time kernels over bitset words.

pub mod bitwise;
pub mod extract;
pub mod run_bitset;

//! Listing the values of a bitset.

use minnal_db::index::container::bitset::{BitsetContainer, BITSET_WORDS};
use minnal_db::index::simd_support::extract::{extract_bitset_to_values, extract_dense_lookup, extract_scalar};

fn make_bits(values: &[u16]) -> Box<[u64; BITSET_WORDS]> {
    let mut bits = Box::new([0u64; BITSET_WORDS]);
    for &v in values {
        let word = (v >> 6) as usize;
        let bit = 1u64 << (v & 63);
        bits[word] |= bit;
    }
    bits
}

#[test]
fn scalar_path_sparse() {
    let values: Vec<u16> = (0..10).map(|i| i * 7).collect();
    let bits = make_bits(&values);
    let mut expected = values.clone();
    expected.sort_unstable();
    let result = extract_scalar(&bits, values.len());
    assert_eq!(result, expected);
}

#[test]
fn lookup_path_matches_scalar() {
    let values: Vec<u16> = (0..2000u16).step_by(3).collect();
    let bits = make_bits(&values);
    let scalar = extract_scalar(&bits, values.len());
    let lookup = extract_dense_lookup(&bits, values.len());
    assert_eq!(lookup, scalar);
}

#[test]
fn dispatch_sparse_uses_scalar_path() {
    // cardinality < threshold → scalar path
    let values: Vec<u16> = (0..100).collect();
    let bits = make_bits(&values);
    let result = extract_bitset_to_values(&bits, values.len());
    assert_eq!(result, values);
}

#[test]
fn dispatch_dense_matches_scalar() {
    // cardinality >= threshold → SIMD/lookup path, result must match scalar
    let values: Vec<u16> = (0..4096).collect();
    let bits = make_bits(&values);
    let scalar = extract_scalar(&bits, values.len());
    let dense = extract_bitset_to_values(&bits, values.len());
    assert_eq!(dense, scalar);
}

#[test]
fn dispatch_full_bitset() {
    // All 65536 bits set
    let values: Vec<u16> = (0..=65535).collect();
    let bits = make_bits(&values);
    let scalar = extract_scalar(&bits, 65536);
    let dense = extract_bitset_to_values(&bits, 65536);
    assert_eq!(dense, scalar);
}

#[test]
fn dispatch_empty_bitset() {
    let bits = Box::new([0u64; BITSET_WORDS]);
    let result = extract_bitset_to_values(&bits, 0);
    assert!(result.is_empty());
}

#[test]
fn dispatch_large_values() {
    // Values in upper range (> 32768)
    let values: Vec<u16> = (32768u16..=36864).collect();
    let bits = make_bits(&values);
    let scalar = extract_scalar(&bits, values.len());
    let dense = extract_bitset_to_values(&bits, values.len());
    assert_eq!(dense, scalar);
}

#[test]
fn bitset_container_to_values_consistent() {
    let values: Vec<u16> = (0..4096).collect();
    let c = BitsetContainer::from_values(&values);
    let result = c.to_values();
    assert_eq!(result, values);
}

//! Bitsets filled from runs and arrays.

use minnal_db::index::container::bitset::BITSET_WORDS;
use minnal_db::index::container::run::{Run, RunContainer};
use minnal_db::index::simd_support::run_bitset::{clear_bits_from_array, runs_to_bitmask, runs_to_bitmask_scalar, set_bits_from_array};

fn bits_to_values(bits: &[u64; BITSET_WORDS]) -> Vec<u16> {
    let mut result = Vec::new();
    for (i, &w) in bits.iter().enumerate() {
        let mut word = w;
        while word != 0 {
            let pos = word.trailing_zeros() as u16;
            result.push(i as u16 * 64 + pos);
            word &= word - 1;
        }
    }
    result
}

#[test]
fn single_run_within_one_word() {
    let runs = vec![Run::new(3, 4)]; // [3,7]
    let bits = runs_to_bitmask(&runs);
    let vals = bits_to_values(&bits);
    assert_eq!(vals, vec![3, 4, 5, 6, 7]);
}

#[test]
fn run_spanning_multiple_words() {
    let runs = vec![Run::new(60, 7)]; // [60, 67]
    let bits = runs_to_bitmask(&runs);
    let vals = bits_to_values(&bits);
    assert_eq!(vals, (60u16..=67).collect::<Vec<_>>());
}

#[test]
fn multiple_runs() {
    let runs = vec![Run::new(0, 4), Run::new(100, 9)]; // [0,4] and [100,109]
    let bits = runs_to_bitmask(&runs);
    let vals = bits_to_values(&bits);
    let expected: Vec<u16> = (0u16..=4).chain(100u16..=109).collect();
    assert_eq!(vals, expected);
}

#[test]
fn large_run_matches_scalar() {
    let run = Run::new(0, 999); // [0,999] spans 16 full words
    let scalar = runs_to_bitmask_scalar(&[run]);
    let dispatch = runs_to_bitmask(&[run]);
    assert_eq!(scalar[..], dispatch[..]);
}

#[test]
fn dispatch_matches_scalar_random() {
    let rc = RunContainer::from_sorted_values(&(0u16..1000).step_by(3).collect::<Vec<_>>());
    let scalar = runs_to_bitmask_scalar(rc.runs());
    let dispatch = runs_to_bitmask(rc.runs());
    assert_eq!(scalar[..], dispatch[..]);
}

#[test]
fn set_bits_from_array_basic() {
    let mut bits = [0u64; BITSET_WORDS];
    set_bits_from_array(&mut bits, &[0, 1, 63, 64, 65535]);
    assert!(bits[0] & 1 != 0);
    assert!(bits[0] & 2 != 0);
    assert!(bits[0] >> 63 != 0);
    assert!(bits[1] & 1 != 0);
    assert!(bits[1023] >> 63 != 0);
}

#[test]
fn clear_bits_from_array_basic() {
    let mut bits = [!0u64; BITSET_WORDS];
    clear_bits_from_array(&mut bits, &[0, 64, 128]);
    assert!(bits[0] & 1 == 0);
    assert!(bits[1] & 1 == 0);
    assert!(bits[2] & 1 == 0);
    // Other bits still set
    assert!(bits[0] & 2 != 0);
}

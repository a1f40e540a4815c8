//! Set operations between containers of different forms.

use minnal_db::index::container::array::ArrayContainer;
use minnal_db::index::container::bitset::BitsetContainer;
use minnal_db::index::container::ops::{
    array_and_bitset, array_and_run, array_andnot_bitset, array_andnot_run, array_or_bitset, array_or_run_values, bitset_and_run,
    bitset_andnot_array, bitset_andnot_run, bitset_or_run, run_andnot_array, run_andnot_bitset,
};
use minnal_db::index::container::run::RunContainer;

#[test]
fn array_bitset_and() {
    let a = ArrayContainer::from_sorted(vec![1, 5, 10, 100]);
    let b = BitsetContainer::from_values(&[5, 10, 50, 100, 200]);
    let r = array_and_bitset(&a, &b);
    assert_eq!(r.values(), &[5, 10, 100]);
}

#[test]
fn array_bitset_or() {
    let a = ArrayContainer::from_sorted(vec![1, 5]);
    let b = BitsetContainer::from_values(&[5, 10]);
    let r = array_or_bitset(&a, &b);
    assert!(r.contains(1));
    assert!(r.contains(5));
    assert!(r.contains(10));
    assert_eq!(r.cardinality(), 3);
}

#[test]
fn array_run_and() {
    let a = ArrayContainer::from_sorted(vec![1, 5, 10, 15]);
    let r = RunContainer::from_sorted_values(&[3, 4, 5, 6, 7, 8, 9, 10, 11]);
    let result = array_and_run(&a, &r);
    assert_eq!(result.values(), &[5, 10]);
}

#[test]
fn bitset_run_and() {
    let b = BitsetContainer::from_values(&[1, 5, 10, 100]);
    let r = RunContainer::from_sorted_values(&[5, 6, 7, 8, 9, 10]);
    let result = bitset_and_run(&b, &r);
    assert_eq!(result.to_values(), vec![5, 10]);
}

#[test]
fn array_bitset_andnot() {
    let a = ArrayContainer::from_sorted(vec![1, 5, 10, 100]);
    let b = BitsetContainer::from_values(&[5, 10, 50]);
    let r = array_andnot_bitset(&a, &b);
    assert_eq!(r.values(), &[1, 100]);
}

#[test]
fn bitset_array_andnot() {
    let b = BitsetContainer::from_values(&[5, 10, 50, 100]);
    let a = ArrayContainer::from_sorted(vec![10, 100]);
    let r = bitset_andnot_array(&b, &a);
    assert_eq!(r.to_values(), vec![5, 50]);
    assert_eq!(r.cardinality(), 2);
}

#[test]
fn array_run_or() {
    let a = ArrayContainer::from_sorted(vec![1, 5, 10]);
    let run = RunContainer::from_sorted_values(&[4, 5, 6, 7]);
    let values = array_or_run_values(&a, &run);
    assert_eq!(values, vec![1, 4, 5, 6, 7, 10]);
}

#[test]
fn array_run_andnot() {
    let a = ArrayContainer::from_sorted(vec![1, 5, 10, 15]);
    let run = RunContainer::from_sorted_values(&[4, 5, 6, 7, 8, 9, 10, 11]);
    let r = array_andnot_run(&a, &run);
    assert_eq!(r.values(), &[1, 15]);
}

#[test]
fn run_array_andnot() {
    let run = RunContainer::from_sorted_values(&[3, 4, 5, 6, 7]);
    let a = ArrayContainer::from_sorted(vec![4, 6]);
    let values = run_andnot_array(&run, &a);
    assert_eq!(values, vec![3, 5, 7]);
}

#[test]
fn bitset_run_or() {
    let b = BitsetContainer::from_values(&[1, 100]);
    let run = RunContainer::from_sorted_values(&[5, 6, 7]);
    let r = bitset_or_run(&b, &run);
    assert_eq!(r.to_values(), vec![1, 5, 6, 7, 100]);
    assert_eq!(r.cardinality(), 5);
}

#[test]
fn bitset_run_andnot() {
    let b = BitsetContainer::from_values(&[5, 6, 7, 8, 100]);
    let run = RunContainer::from_sorted_values(&[6, 7]);
    let r = bitset_andnot_run(&b, &run);
    assert_eq!(r.to_values(), vec![5, 8, 100]);
    assert_eq!(r.cardinality(), 3);
}

#[test]
fn run_bitset_andnot() {
    let run = RunContainer::from_sorted_values(&[10, 11, 12, 13]);
    let b = BitsetContainer::from_values(&[11, 13]);
    let values = run_andnot_bitset(&run, &b);
    assert_eq!(values, vec![10, 12]);
}

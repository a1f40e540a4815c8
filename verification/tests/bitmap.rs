//! Sets of row numbers.

use minnal_db::index::bitmap::RoaringBitmap;
use minnal_db::index::container::array::ArrayContainer;
use minnal_db::index::container::bitset::BitsetContainer;
use minnal_db::index::container::run::RunContainer;
use minnal_db::index::container::Container;

#[test]
fn basic_insert_contains_remove() {
    let mut bm = RoaringBitmap::new();
    assert!(bm.insert(42));
    assert!(!bm.insert(42));
    assert!(bm.contains(42));
    assert_eq!(bm.cardinality(), 1);
    assert!(bm.remove(42));
    assert!(!bm.contains(42));
    assert_eq!(bm.cardinality(), 0);
}

#[test]
fn set_operations() {
    let a = RoaringBitmap::from_values(&[1u128, 3, 5, 7]);
    let b = RoaringBitmap::from_values(&[3u128, 7, 9]);

    let and_vals: Vec<u128> = a.and(&b).to_values();
    assert_eq!(and_vals, vec![3, 7]);

    let or_vals: Vec<u128> = a.or(&b).to_values();
    assert_eq!(or_vals, vec![1, 3, 5, 7, 9]);

    let andnot_vals: Vec<u128> = a.and_not(&b).to_values();
    assert_eq!(andnot_vals, vec![1, 5]);
}

#[test]
fn operations_in_place() {
    let mut a = RoaringBitmap::from_values(&[1u128, 3, 5]);
    let b = RoaringBitmap::from_values(&[3u128, 5, 7]);
    a.and_inplace(&b);
    assert_eq!(a.to_values(), vec![3, 5]);
    a.or_inplace(&RoaringBitmap::from_values(&[1 << 100]));
    assert_eq!(a.to_values(), vec![3, 5, 1 << 100]);
    a.and_not_inplace(&b);
    assert_eq!(a.to_values(), vec![1 << 100]);
}

#[test]
fn many_values() {
    let values: Vec<u128> = (0u128..500).collect();
    let bm = RoaringBitmap::from_values(&values);
    assert_eq!(bm.cardinality(), 500);
    assert!(bm.contains(499));
    assert_eq!(bm.to_values(), values);
    assert_eq!(bm.num_containers(), 1);
}

#[test]
fn values_far_apart_take_containers_of_their_own() {
    let mut bm = RoaringBitmap::new();
    for v in [u128::MAX, 0, 1 << 64, 65535, 65536] {
        assert!(bm.insert(v));
    }
    assert_eq!(bm.num_containers(), 4);
    assert_eq!(bm.to_values(), vec![0, 65535, 65536, 1 << 64, u128::MAX]);
    assert_eq!((bm.min(), bm.max()), (Some(0), Some(u128::MAX)));
    assert!(bm.remove(1 << 64));
    assert_eq!(bm.num_containers(), 3);
    assert!(!bm.remove(1 << 64));
    bm.clear();
    assert!(bm.is_empty());
    assert_eq!((bm.min(), bm.max()), (None, None));
}

#[test]
fn dense_and_optimised_sets_hold_the_same_values() {
    let mut bm = RoaringBitmap::new();
    for v in 0u128..6000 {
        bm.insert(v);
    }
    for v in (70_000u128..80_000).step_by(2) {
        bm.insert(v);
    }
    let values = bm.to_values();
    assert_eq!(values.len(), 11_000);
    bm.optimize();
    assert_eq!(bm.to_values(), values);
    assert_eq!(bm.cardinality(), 11_000);
    let copy = bm.copy();
    assert_eq!(copy.to_values(), values);
    assert!(copy.and_not(&bm).is_empty());
}

/// One set in each of the three forms.
fn forms(values: &[u16]) -> Vec<Container> {
    vec![
        Container::Array(ArrayContainer::from_sorted(values.to_vec())),
        Container::Bitset(BitsetContainer::from_values(values)),
        Container::Run(RunContainer::from_sorted_values(values)),
    ]
}

#[test]
fn containers_of_all_forms_combine() {
    let x: Vec<u16> = (0..200).chain(1000..1010).collect();
    let y: Vec<u16> = (100..300).step_by(3).chain([1005, 65535]).collect();
    let both: Vec<u16> = x.iter().copied().filter(|v| y.contains(v)).collect();
    let only: Vec<u16> = x.iter().copied().filter(|v| !y.contains(v)).collect();
    let mut either: Vec<u16> = x.iter().chain(&y).copied().collect();
    either.sort_unstable();
    either.dedup();
    for a in forms(&x) {
        for b in forms(&y) {
            assert_eq!(a.and(&b).to_values(), both);
            assert_eq!(a.or(&b).to_values(), either);
            assert_eq!(a.and_not(&b).to_values(), only);
        }
        assert!(a.contains(1009) && !a.contains(200));
        assert_eq!(a.copy().to_values(), x);
        assert!(matches!(a.optimized(), Container::Run(_)));
        assert_eq!(a.optimized().to_values(), x);
    }
    assert_eq!(Container::single(9).to_values(), vec![9]);
}

#[test]
fn the_smallest_form_is_taken() {
    let of = |values: &[u16]| Container::Bitset(BitsetContainer::from_values(values)).optimized();
    // Three values take six bytes as an array and four as one run.
    assert!(matches!(of(&[1, 2, 3]), Container::Run(_)));
    // Two take four either way.
    assert!(matches!(of(&[1, 2]), Container::Array(_)));
    let odd: Vec<u16> = (0..10_000).map(|i| 2 * i + 1).collect();
    assert!(matches!(of(&odd), Container::Bitset(_)));
    assert!(matches!(of(&odd[..4096]), Container::Array(_)));
    let all: Vec<u16> = (0..=65535).collect();
    assert!(matches!(of(&all), Container::Run(_)));
    // A combination with few values is no bitset.
    let few = Container::Bitset(BitsetContainer::from_values(&odd)).and(&Container::Bitset(BitsetContainer::from_values(&[1, 2, 3])));
    assert!(matches!(few, Container::Array(_)));
    assert_eq!(few.to_values(), vec![1, 3]);
}

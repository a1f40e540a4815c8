//! The container store: entries, reopening, and images that are refused.

use minnal_db::index::container::array::ArrayContainer;
use minnal_db::index::container::bitset::BitsetContainer;
use minnal_db::index::container::run::RunContainer;
use minnal_db::index::container::Container;
use minnal_db::index::container_store::{validate_open, ContainerStore, StoreError, INITIAL_CAPACITY};
use minnal_db::index::layout::{slot_byte_offset, HEADER_SIZE, STATE_OCCUPIED, VERSION};

fn make_array(vals: &[u16]) -> Container {
    Container::Array(ArrayContainer::from_sorted(vals.to_vec()))
}

#[test]
fn insert_get_roundtrip() {
    let mut store = ContainerStore::new_anon();
    let c = make_array(&[1, 2, 3]);
    assert!(store.upsert(42, &c));
    let got = store.get(42).unwrap();
    assert_eq!(got.to_values(), vec![1, 2, 3]);
    assert_eq!(store.count(), 1);
    assert_eq!(store.cardinality(), 3);
}

#[test]
fn update_existing_adjusts_cardinality() {
    let mut store = ContainerStore::new_anon();
    let c1 = make_array(&[1, 2, 3]);
    let c2 = make_array(&[1, 2, 3, 4, 5]);
    assert!(store.upsert(10, &c1));
    assert!(!store.upsert(10, &c2)); // update
    assert_eq!(store.cardinality(), 5);
    assert_eq!(store.count(), 1);
}

#[test]
fn remove_adjusts_cardinality() {
    let mut store = ContainerStore::new_anon();
    store.upsert(1, &make_array(&[1, 2]));
    store.upsert(2, &make_array(&[3, 4, 5]));
    assert_eq!(store.cardinality(), 5);
    let removed_card = store.remove_key(1);
    assert_eq!(removed_card, 2);
    assert_eq!(store.cardinality(), 3);
    assert_eq!(store.count(), 1);
    assert!(store.get(1).is_none());
}

#[test]
fn sorted_key_cards_order() {
    let mut store = ContainerStore::new_anon();
    store.upsert(300, &make_array(&[1]));
    store.upsert(100, &make_array(&[1, 2]));
    store.upsert(200, &make_array(&[1, 2, 3]));
    let kc = store.sorted_key_cards();
    assert_eq!(kc, vec![(100, 2), (200, 3), (300, 1)]);
}

#[test]
fn rehash_preserves_entries() {
    let mut store = ContainerStore::new_anon();
    // Insert enough to trigger rehash (>70% of initial 16 slots = ~12 entries)
    for i in 0u128..20 {
        store.upsert(i * 0x1_0000, &make_array(&[i as u16]));
    }
    assert_eq!(store.count(), 20);
    // Verify all entries survived rehash
    for i in 0u128..20 {
        let c = store.get(i * 0x1_0000).unwrap();
        assert_eq!(c.to_values(), vec![i as u16]);
    }
}

#[test]
fn clear_resets_store() {
    let mut store = ContainerStore::new_anon();
    store.upsert(1, &make_array(&[1, 2, 3]));
    store.clear();
    assert_eq!(store.count(), 0);
    assert_eq!(store.cardinality(), 0);
    assert!(store.get(1).is_none());
}

#[test]
fn sorted_entries_correct() {
    let mut store = ContainerStore::new_anon();
    store.upsert(200, &make_array(&[5, 6]));
    store.upsert(100, &make_array(&[1, 2, 3]));
    let entries = store.sorted_entries();
    assert_eq!(entries.len(), 2);
    assert_eq!(entries[0].0, 100);
    assert_eq!(entries[1].0, 200);
}

// ── Header / bounds validation on open ──────────────────────────────────

/// The key image and the value image of a store with two entries.
fn seed() -> (Vec<u8>, Vec<u8>) {
    let mut store = ContainerStore::new_anon();
    store.upsert(1, &make_array(&[1, 2, 3]));
    store.upsert(2, &make_array(&[4, 5]));
    (store.key_image().to_vec(), store.val_image().to_vec())
}

fn refusal(key: Vec<u8>, val: Vec<u8>) -> StoreError {
    match ContainerStore::open(key, val) {
        Err(e) => e,
        Ok(_) => panic!("expected open() to reject corrupt store"),
    }
}

#[test]
fn persistent_roundtrip_still_opens() {
    let (key, val) = seed();
    let store = ContainerStore::open(key, val).unwrap_or_else(|e| panic!("refused: {e:?}"));
    assert_eq!(store.count(), 2);
    assert_eq!(store.get(1).unwrap().to_values(), vec![1, 2, 3]);
}

#[test]
fn open_rejects_bad_magic() {
    let (mut key, val) = seed();
    key[0] ^= 0xFF;
    assert!(matches!(refusal(key, val), StoreError::BadMagic { .. }));
}

#[test]
fn open_rejects_unsupported_version() {
    let (mut key, val) = seed();
    key[8..12].copy_from_slice(&(VERSION + 1).to_le_bytes());
    assert_eq!(refusal(key, val), StoreError::UnsupportedVersion { version: VERSION + 1 });
}

#[test]
fn open_rejects_truncated_header() {
    let (_, val) = seed();
    assert_eq!(validate_open(&[0u8; HEADER_SIZE - 1], val.len()), Err(StoreError::ShortKeyFile));
    assert!(ContainerStore::open(vec![0u8; HEADER_SIZE - 1], val).is_err());
}

#[test]
fn open_rejects_zero_capacity() {
    let (mut key, val) = seed();
    key[16..24].copy_from_slice(&0u64.to_le_bytes());
    assert_eq!(refusal(key, val), StoreError::BadCapacity { capacity: 0 });
}

#[test]
fn open_rejects_capacity_larger_than_key_file() {
    let (mut key, val) = seed();
    key[16..24].copy_from_slice(&(1u64 << 40).to_le_bytes());
    assert!(matches!(refusal(key, val), StoreError::KeyFileTooSmall { capacity, .. } if capacity == 1 << 40));
}

#[test]
fn open_rejects_value_write_pos_past_value_file() {
    let (mut key, val) = seed();
    let val_len = val.len() as u64;
    key[48..56].copy_from_slice(&(val_len + 1).to_le_bytes());
    assert_eq!(refusal(key, val), StoreError::WritePosPastEnd { pos: val_len + 1, val_len });
}

#[test]
fn open_rejects_slot_blob_past_value_region() {
    let (mut key, val) = seed();
    let vwp = u64::from_le_bytes(key[48..56].try_into().unwrap());
    for i in 0..INITIAL_CAPACITY {
        let b = slot_byte_offset(i);
        if key[b] == STATE_OCCUPIED {
            key[b + 24..b + 32].copy_from_slice(&(vwp + 1).to_le_bytes());
            break;
        }
    }
    assert!(matches!(refusal(key, val), StoreError::SlotPastEnd { .. }));
}

#[test]
fn open_rejects_a_capacity_that_is_no_power_of_two() {
    let (mut key, val) = seed();
    key[16..24].copy_from_slice(&12u64.to_le_bytes());
    assert_eq!(refusal(key, val), StoreError::BadCapacity { capacity: 12 });
}

#[test]
fn open_rejects_a_capacity_whose_table_cannot_be_sized() {
    let (mut key, val) = seed();
    key[16..24].copy_from_slice(&(1u64 << 63).to_le_bytes());
    assert_eq!(refusal(key, val), StoreError::CapacityOverflow);
}

#[test]
fn open_rejects_a_slot_whose_end_overflows() {
    let (mut key, val) = seed();
    for i in 0..INITIAL_CAPACITY {
        let b = slot_byte_offset(i);
        if key[b] == STATE_OCCUPIED {
            key[b + 24..b + 32].copy_from_slice(&u64::MAX.to_le_bytes());
            break;
        }
    }
    assert_eq!(refusal(key, val), StoreError::SlotOverflow);
}

#[test]
fn a_corrupt_blob_is_reported_and_the_rest_is_readable() {
    let (key, mut val) = seed();
    for b in val.iter_mut() {
        *b = 0xFF;
    }
    let store = ContainerStore::open(key, val).unwrap_or_else(|e| panic!("refused: {e:?}"));
    assert!(matches!(store.try_get(1), Err(StoreError::CorruptBlob { key: 1 })));
    assert!(matches!(store.try_get(7), Ok(None)));
    assert!(store.try_sorted_entries().is_err());
    assert_eq!(store.sorted_keys(), vec![1, 2]);
}

/// Every form of container comes back as it was stored, across many keys.
#[test]
fn every_container_form_survives_reopening() {
    let mut store = ContainerStore::new_anon();
    let dense: Vec<u16> = (0..5000u16).step_by(2).collect();
    let run: Vec<u16> = (1000u16..2000).collect();
    store.upsert(7, &Container::Bitset(BitsetContainer::from_values(&dense)));
    store.upsert(8, &Container::Run(RunContainer::from_sorted_values(&run)));
    store.upsert(u128::MAX, &make_array(&[0, 65535]));
    for i in 100u128..140 {
        store.upsert(i << 64, &make_array(&[i as u16]));
    }
    store.remove_key(100 << 64);
    let again = ContainerStore::open(store.key_image().to_vec(), store.val_image().to_vec()).unwrap_or_else(|e| panic!("refused: {e:?}"));
    assert!(again.is_consistent());
    assert_eq!(again.count(), 42);
    assert_eq!(again.cardinality(), store.cardinality());
    assert_eq!(again.get(7).unwrap().to_values(), dense);
    assert_eq!(again.get(8).unwrap().to_values(), run);
    assert_eq!(again.get(u128::MAX).unwrap().to_values(), vec![0, 65535]);
    assert!(again.get(100 << 64).is_none());
    assert!(again.contains_key(139 << 64));
    assert_eq!(again.sorted_entries().len(), 42);
    let keys = again.sorted_keys();
    assert!(keys.windows(2).all(|w| w[0] < w[1]));
}

#[test]
fn a_new_store_holds_nothing() {
    let store = ContainerStore::new_anon();
    assert_eq!(store.count(), 0);
    assert_eq!(store.cardinality(), 0);
    assert_eq!(store.header().capacity, INITIAL_CAPACITY as u64);
    assert!(store.sorted_key_cards().is_empty());
    assert!(!store.contains_key(0));
}

#[test]
fn a_reused_slot_is_no_tombstone() {
    let mut s = ContainerStore::new_anon();
    let c = make_array(&[1]);
    s.upsert(1, &c);
    assert_eq!(s.remove_key(1), 1);
    assert_eq!((s.header().count, s.header().tombstone_count), (0, 1));
    s.upsert(1, &c);
    assert_eq!((s.header().count, s.header().tombstone_count), (1, 0));
    assert!(s.is_consistent());
}

#[test]
fn tombstones_are_counted_until_their_slots_are_taken() {
    let mut s = ContainerStore::new_anon();
    for key in 0..8u128 {
        s.upsert(key, &make_array(&[key as u16]));
    }
    for key in 0..4u128 {
        s.remove_key(key);
        assert_eq!((s.header().count, s.header().tombstone_count), (7, 1));
        s.upsert(key, &make_array(&[7, 8]));
        assert_eq!((s.header().count, s.header().tombstone_count), (8, 0));
    }
    assert_eq!(s.cardinality(), 12);
    assert!(s.is_consistent());
}

#[test]
fn a_rehash_keeps_entries_and_drops_tombstones() {
    let mut s = ContainerStore::new_anon();
    for key in [3u128, 1, 2, 9] {
        s.upsert(key, &make_array(&[key as u16, 500]));
    }
    s.remove_key(9);
    let before = s.header();
    let listed: Vec<(u128, Vec<u16>)> = s.sorted_entries().iter().map(|(k, c)| (*k, c.to_values())).collect();
    s.rehash();
    let after = s.header();
    assert_eq!(after.capacity, 2 * before.capacity);
    assert_eq!(after.tombstone_count, 0);
    assert_eq!((after.count, after.cardinality, after.value_write_pos), (3, 6, before.value_write_pos));
    let again: Vec<(u128, Vec<u16>)> = s.sorted_entries().iter().map(|(k, c)| (*k, c.to_values())).collect();
    assert_eq!(again, listed);
    assert!(s.get(9).is_none());
    assert!(s.is_consistent());
}

#[test]
fn counters_are_sums_over_the_containers() {
    let mut s = ContainerStore::new_anon();
    s.upsert(4, &make_array(&[1, 2, 3]));
    s.upsert(5, &make_array(&[9]));
    s.upsert(4, &make_array(&[1, 2]));
    let entries = s.sorted_entries();
    assert_eq!(s.count(), entries.len());
    assert_eq!(s.cardinality(), entries.iter().map(|(_, c)| c.cardinality()).sum::<usize>());
    assert_eq!(s.cardinality(), 3);
}

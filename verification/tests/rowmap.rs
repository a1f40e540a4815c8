//! Dense row identifiers for keys.

use minnal_db::index::rowmap::{hash_bytes, read_marker, write_marker, RowMap, RowMapError, MARKER_SIZE, MARKER_VERSION};

/// Marker, key region and identifier array of a map, as they are committed.
struct Images {
    marker: Vec<u8>,
    keybytes: Vec<u8>,
    idarray: Vec<u8>,
}

fn flush(rm: &RowMap, wal_offset: u64) -> Images {
    Images {
        marker: rm.marker(wal_offset),
        keybytes: rm.keybytes_image().to_vec(),
        idarray: rm.idarray_image().to_vec(),
    }
}

fn reopen(i: Images) -> RowMap {
    RowMap::open(Some(i.marker), i.keybytes, i.idarray).unwrap_or_else(|e| panic!("refused: {e:?}"))
}

#[test]
fn alloc_is_dense_and_stable() {
    let mut rm = RowMap::create();
    assert_eq!(rm.get_or_alloc(b"alpha"), 0);
    assert_eq!(rm.get_or_alloc(b"beta"), 1);
    assert_eq!(rm.get_or_alloc(b"gamma"), 2);
    // Re-resolving returns the same dense id, not a new one.
    assert_eq!(rm.get_or_alloc(b"beta"), 1);
    assert_eq!(rm.get_or_alloc(b"alpha"), 0);
    assert_eq!(rm.next_id(), 3);
}

#[test]
fn get_only_does_not_allocate() {
    let mut rm = RowMap::create();
    rm.get_or_alloc(b"x");
    assert_eq!(rm.get(b"x"), Some(0));
    assert_eq!(rm.get(b"missing"), None);
    assert_eq!(rm.next_id(), 1, "get must not allocate");
}

#[test]
fn key_for_round_trips() {
    let mut rm = RowMap::create();
    let id = rm.get_or_alloc(b"hello world");
    assert_eq!(rm.key_for(id).unwrap(), b"hello world");
    assert_eq!(rm.key_for(999), None);
}

#[test]
fn survives_rehash() {
    let mut rm = RowMap::create();
    for i in 0u32..500 {
        assert_eq!(rm.get_or_alloc(format!("key-{i}").as_bytes()), i as u128);
    }
    // All still resolve to their original ids after several rehashes.
    for i in 0u32..500 {
        assert_eq!(rm.get(format!("key-{i}").as_bytes()), Some(i as u128));
        assert_eq!(rm.key_for(i as u128).unwrap(), format!("key-{i}").as_bytes());
    }
}

#[test]
fn persists_across_reopen() {
    let images = {
        let mut rm = RowMap::create();
        for i in 0u32..300 {
            rm.get_or_alloc(format!("doc:{i}").as_bytes());
        }
        flush(&rm, 12345)
    };
    let rm = reopen(images);
    assert_eq!(rm.next_id(), 300);
    for i in 0u32..300 {
        assert_eq!(rm.get(format!("doc:{i}").as_bytes()), Some(i as u128));
        assert_eq!(rm.key_for(i as u128).unwrap(), format!("doc:{i}").as_bytes());
    }
}

#[test]
fn ignores_torn_tail_past_marker() {
    let images = {
        let mut rm = RowMap::create();
        rm.get_or_alloc(b"committed");
        let marker = rm.marker(1);
        // Allocate more without committing: a tail whose pages reached the disk
        // before a crash.
        rm.get_or_alloc(b"uncommitted-a");
        rm.get_or_alloc(b"uncommitted-b");
        Images { marker, keybytes: rm.keybytes_image().to_vec(), idarray: rm.idarray_image().to_vec() }
    };
    let rm = reopen(images);
    assert_eq!(rm.next_id(), 1, "only the marker-committed id is recovered");
    assert_eq!(rm.get(b"committed"), Some(0));
    assert_eq!(rm.get(b"uncommitted-a"), None);
}

#[test]
fn open_missing_marker_is_fresh() {
    let mut rm = RowMap::open(None, Vec::new(), Vec::new()).unwrap_or_else(|e| panic!("refused: {e:?}"));
    assert!(rm.is_empty());
    assert_eq!(rm.get_or_alloc(b"first"), 0);
}

// ── Marker / bounds validation on open ──────────────────────────────────

fn seed() -> Images {
    let mut rm = RowMap::create();
    rm.get_or_alloc(b"alpha");
    rm.get_or_alloc(b"beta");
    flush(&rm, 0)
}

fn refusal(i: Images) -> RowMapError {
    match RowMap::open(Some(i.marker), i.keybytes, i.idarray) {
        Err(e) => e,
        Ok(_) => panic!("expected open() to reject corrupt marker"),
    }
}

#[test]
fn open_rejects_bad_marker_magic() {
    let mut i = seed();
    i.marker[0] ^= 0xFF;
    assert!(matches!(refusal(i), RowMapError::BadMarkerMagic { .. }));
}

#[test]
fn open_rejects_unsupported_marker_version() {
    let mut i = seed();
    i.marker[8..12].copy_from_slice(&(MARKER_VERSION + 1).to_le_bytes());
    assert_eq!(refusal(i), RowMapError::UnsupportedMarkerVersion { version: MARKER_VERSION + 1 });
}

#[test]
fn open_rejects_truncated_marker() {
    let mut i = seed();
    i.marker = vec![0u8; MARKER_SIZE - 1];
    assert_eq!(refusal(i), RowMapError::TruncatedMarker { len: MARKER_SIZE as u64 - 1 });
}

#[test]
fn open_rejects_next_id_larger_than_id_array() {
    let mut i = seed();
    // next_id far beyond what the id array can hold.
    i.marker[16..24].copy_from_slice(&(1u64 << 40).to_le_bytes());
    assert!(matches!(refusal(i), RowMapError::IdArrayTooSmall { next_id, .. } if next_id == 1 << 40));
}

#[test]
fn open_rejects_keybytes_pos_past_file() {
    let mut i = seed();
    i.marker[24..32].copy_from_slice(&(1u64 << 40).to_le_bytes());
    assert!(matches!(refusal(i), RowMapError::KeyBytesPastEnd { pos, .. } if pos == 1 << 40));
}

#[test]
fn open_rejects_id_entry_past_keybytes_pos() {
    let mut i = seed();
    // Shrink keybytes_pos so the first id's key bytes fall outside it.
    i.marker[24..32].copy_from_slice(&1u64.to_le_bytes());
    assert!(matches!(refusal(i), RowMapError::EntryPastEnd { id: 0, .. }));
}

#[test]
fn open_rejects_a_next_id_whose_array_cannot_be_sized() {
    let mut i = seed();
    i.marker[16..24].copy_from_slice(&u64::MAX.to_le_bytes());
    assert_eq!(refusal(i), RowMapError::IdArrayOverflow);
}

#[test]
fn open_rejects_an_entry_whose_end_overflows() {
    let mut i = seed();
    i.idarray[0..8].copy_from_slice(&u64::MAX.to_le_bytes());
    assert_eq!(refusal(i), RowMapError::EntryOverflow);
}

#[test]
fn marker_layout() {
    let m = write_marker(3, 70, 9);
    assert_eq!(m.len(), MARKER_SIZE);
    assert_eq!(&m[8..12], &MARKER_VERSION.to_le_bytes());
    assert_eq!(&m[16..24], &3u64.to_le_bytes());
    assert_eq!(&m[24..32], &70u64.to_le_bytes());
    assert_eq!(&m[32..40], &9u64.to_le_bytes());
    assert_eq!(read_marker(&m), Ok((3, 70)));
}

/// The low halves of the 64-bit FNV-1a values.
#[test]
fn keys_hash_with_fnv() {
    assert_eq!(hash_bytes(b""), 0x8422_2325);
    assert_eq!(hash_bytes(b"a"), 0x8601_ec8c);
}

#[test]
fn empty_keys_and_prefixes_are_distinct() {
    let mut rm = RowMap::create();
    assert_eq!(rm.get_or_alloc(b""), 0);
    assert_eq!(rm.get_or_alloc(b"a"), 1);
    assert_eq!(rm.get_or_alloc(b"ab"), 2);
    assert_eq!(rm.get(b""), Some(0));
    assert_eq!(rm.key_for(0).unwrap(), b"");
    assert_eq!(rm.get(b"b"), None);
}

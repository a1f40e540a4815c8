//! Dense row identifiers for byte-string keys.
//!
//! Keys get the identifiers 0, 1, 2, … in order of their first appearance, so
//! the bitmaps indexed by them stay dense. Two directions are kept:
//!
//! - identifier to key: an append-only array of `(offset, length)` entries that
//!   point into an append-only region of key bytes;
//! - key to identifier: an open-addressing table over the full key bytes.
//!
//! A marker records how much of the two append-only regions is committed. What
//! lies past it is ignored on opening, and the table is always rebuilt from the
//! committed array: a slot left over from an earlier run is never adopted.
//! Entries are never removed.

use vstd::prelude::*;

use super::layout;
use super::region;
use super::region::ensure_capacity;
use super::table;
use crate::bytes;
use crate::bytes::{bytes_eq, get_u32, get_u64, push_le, put_bytes, zeros};

verus! {

/// First bytes of a marker.
pub const MARKER_MAGIC: u64 = 0x4D494E4E414C524D;

/// Layout version of a marker.
pub const MARKER_VERSION: u32 = 1;

/// Bytes of a marker.
pub const MARKER_SIZE: usize = 40;

/// Bytes of an entry of the identifier array.
pub const ID_ENTRY_SIZE: usize = 12;

/// Bytes of a slot.
pub const SLOT_SIZE: usize = 24;

/// Slots of a new table.
pub const INITIAL_SLOT_CAP: usize = 16;

/// Bytes of a new key region.
pub const INITIAL_KEYBYTES: usize = 4096;

/// Bytes of a new identifier array.
pub const INITIAL_IDARRAY: usize = 192;

/// Why committed images are not a row map.
#[derive(Debug, Clone, Copy, PartialEq, Eq, Structural)]
pub enum RowMapError {
    /// The marker is too short.
    TruncatedMarker { len: u64 },
    /// The marker starts with another magic number.
    BadMarkerMagic { magic: u64 },
    /// The marker has another layout version.
    UnsupportedMarkerVersion { version: u32 },
    /// The identifier count is too large to compute the array's size.
    IdArrayOverflow,
    /// The identifier array is too short for the identifier count.
    IdArrayTooSmall { len: u64, next_id: u64, need: u64 },
    /// The committed key bytes end past the key region.
    KeyBytesPastEnd { pos: u64, len: u64 },
    /// An entry's offset and length add up past the largest offset.
    EntryOverflow,
    /// An entry's key ends past the committed key bytes.
    EntryPastEnd { id: u64, off: u64, end: u64, pos: u64 },
}

/// An occupied slot.
#[derive(Debug, Clone, Copy, PartialEq, Eq, Structural)]
pub struct RowSlot {
    pub hash: u32,
    pub key_off: u64,
    pub key_len: u32,
    pub id: u64,
}

/// The bytes of a marker.
pub open spec fn marker_bytes(next_id: u64, keybytes_pos: u64, wal_offset: u64) -> Seq<u8> {
    bytes::le_bytes(MARKER_MAGIC as nat, 8) + bytes::le_bytes(MARKER_VERSION as nat, 4) + bytes::le_bytes(0, 4)
        + bytes::le_bytes(next_id as nat, 8) + bytes::le_bytes(keybytes_pos as nat, 8) + bytes::le_bytes(
        wal_offset as nat,
        8,
    )
}

/// The identifier count and committed key bytes that a marker records.
pub open spec fn marker_fields(m: Seq<u8>) -> (u64, u64) {
    (bytes::field(m, 16, 8) as u64, bytes::field(m, 24, 8) as u64)
}

/// What is wrong with a marker, if anything.
pub open spec fn marker_error(m: Seq<u8>) -> Option<RowMapError> {
    if m.len() < MARKER_SIZE {
        Some(RowMapError::TruncatedMarker { len: m.len() as u64 })
    } else if bytes::field(m, 0, 8) != MARKER_MAGIC {
        Some(RowMapError::BadMarkerMagic { magic: bytes::field(m, 0, 8) as u64 })
    } else if bytes::field(m, 8, 4) != MARKER_VERSION {
        Some(RowMapError::UnsupportedMarkerVersion { version: bytes::field(m, 8, 4) as u32 })
    } else {
        None
    }
}

/// Write down a marker.
pub fn write_marker(next_id: u64, keybytes_pos: u64, wal_offset: u64) -> (m: Vec<u8>)
    ensures
        m@ == marker_bytes(next_id, keybytes_pos, wal_offset),
        m@.len() == MARKER_SIZE,
{
    let mut m: Vec<u8> = Vec::new();
    push_le(&mut m, 8, MARKER_MAGIC as u128);
    push_le(&mut m, 4, MARKER_VERSION as u128);
    push_le(&mut m, 4, 0);
    push_le(&mut m, 8, next_id as u128);
    push_le(&mut m, 8, keybytes_pos as u128);
    push_le(&mut m, 8, wal_offset as u128);
    proof {
        assert(m@ =~= marker_bytes(next_id, keybytes_pos, wal_offset));
        lemma_marker(next_id, keybytes_pos, wal_offset);
    }
    m
}

/// Read the identifier count and committed key bytes from a marker.
///
/// A marker is written whole or not at all, so one that is present but
/// malformed is an error: starting over would hand out identifiers that are
/// already in use.
pub fn read_marker(m: &[u8]) -> (r: Result<(u64, u64), RowMapError>)
    ensures
        match r {
            Ok(fields) => marker_error(m@) is None && fields == marker_fields(m@),
            Err(e) => marker_error(m@) == Some(e),
        },
{
    if m.len() < MARKER_SIZE {
        return Err(RowMapError::TruncatedMarker { len: m.len() as u64 });
    }
    let magic: u64 = get_u64(m, 0);
    if magic != MARKER_MAGIC {
        return Err(RowMapError::BadMarkerMagic { magic });
    }
    let version: u32 = get_u32(m, 8);
    if version != MARKER_VERSION {
        return Err(RowMapError::UnsupportedMarkerVersion { version });
    }
    Ok((get_u64(m, 16), get_u64(m, 24)))
}

/// A written marker reads back.
pub proof fn lemma_marker(next_id: u64, keybytes_pos: u64, wal_offset: u64)
    ensures
        ({
            let m = marker_bytes(next_id, keybytes_pos, wal_offset);
            &&& m.len() == MARKER_SIZE
            &&& marker_error(m) is None
            &&& marker_fields(m) == (next_id, keybytes_pos)
        }),
{
    let m = marker_bytes(next_id, keybytes_pos, wal_offset);
    bytes::lemma_pow256();
    bytes::lemma_le_bytes_len(MARKER_MAGIC as nat, 8);
    bytes::lemma_le_bytes_len(MARKER_VERSION as nat, 4);
    bytes::lemma_le_bytes_len(0, 4);
    bytes::lemma_le_bytes_len(next_id as nat, 8);
    bytes::lemma_le_bytes_len(keybytes_pos as nat, 8);
    bytes::lemma_le_bytes_len(wal_offset as nat, 8);
    bytes::lemma_field_value(m, 0, 8, MARKER_MAGIC as nat);
    bytes::lemma_field_value(m, 8, 4, MARKER_VERSION as nat);
    bytes::lemma_field_value(m, 16, 8, next_id as nat);
    bytes::lemma_field_value(m, 24, 8, keybytes_pos as nat);
}

/// Offset basis of the 64-bit FNV-1a hash.
pub const FNV_BASIS: u64 = 0xcbf29ce484222325;

/// Prime of the 64-bit FNV-1a hash.
pub const FNV_PRIME: u64 = 0x00000100000001b3;

/// The 64-bit FNV-1a hash.
pub open spec fn fnv(key: Seq<u8>) -> u64
    decreases key.len(),
{
    if key.len() == 0 {
        FNV_BASIS
    } else {
        (((fnv(key.drop_last()) ^ (key.last() as u64)) * FNV_PRIME) % 0x1_0000_0000_0000_0000) as u64
    }
}

/// The low 32 bits of the FNV-1a hash.
pub open spec fn hash_of(key: Seq<u8>) -> u32 {
    (fnv(key) % 0x1_0000_0000) as u32
}

/// FNV-1a over the key bytes, truncated to 32 bits.
///
/// The hash places a key and rejects most other keys early; equality is decided
/// by the key bytes.
pub fn hash_bytes(key: &[u8]) -> (h: u32)
    ensures
        h == hash_of(key@),
{
    let mut h: u64 = FNV_BASIS;
    let mut i: usize = 0;
    while i < key.len()
        invariant
            i <= key@.len(),
            h == fnv(key@.take(i as int)),
        decreases key@.len() - i,
    {
        let b: u8 = key[i];
        proof {
            assert(key@.take(i + 1).drop_last() =~= key@.take(i as int));
        }
        h = (h ^ (b as u64)).wrapping_mul(FNV_PRIME);
        i = i + 1;
    }
    assert(key@.take(i as int) =~= key@);
    (h % 0x1_0000_0000) as u32
}

/// Slot `i` of a slot region; a slot whose first field is zero is empty.
pub open spec fn row_slot_at(data: Seq<u8>, i: int) -> Option<RowSlot> {
    let b = i * SLOT_SIZE;
    let id_plus_one = bytes::field(data, b, 8);
    if id_plus_one == 0 {
        None
    } else {
        Some(
            RowSlot {
                id: (id_plus_one - 1) as u64,
                key_off: bytes::field(data, b + 8, 8) as u64,
                key_len: bytes::field(data, b + 16, 4) as u32,
                hash: bytes::field(data, b + 20, 4) as u32,
            },
        )
    }
}

/// The bytes of an occupied slot.
pub open spec fn row_slot_bytes(s: RowSlot) -> Seq<u8> {
    bytes::le_bytes((s.id + 1) as nat, 8) + bytes::le_bytes(s.key_off as nat, 8) + bytes::le_bytes(
        s.key_len as nat,
        4,
    ) + bytes::le_bytes(s.hash as nat, 4)
}

/// Read slot `i`, or none when it is empty.
pub fn read_slot(data: &[u8], i: usize) -> (s: Option<RowSlot>)
    requires
        (i + 1) * SLOT_SIZE <= data@.len(),
    ensures
        s == row_slot_at(data@, i as int),
{
    assert((i + 1) * SLOT_SIZE <= data.len());
    let b: usize = i * SLOT_SIZE;
    let id_plus_one: u64 = get_u64(data, b);
    if id_plus_one == 0 {
        return None;
    }
    Some(
        RowSlot {
            id: id_plus_one - 1,
            key_off: get_u64(data, b + 8),
            key_len: get_u32(data, b + 16),
            hash: get_u32(data, b + 20),
        },
    )
}

/// Write an occupied slot; there is no way to empty one.
pub fn write_slot(data: &mut Vec<u8>, i: usize, s: &RowSlot)
    requires
        (i + 1) * SLOT_SIZE <= old(data)@.len(),
        s.id < u64::MAX,
    ensures
        final(data)@ == bytes::splice(old(data)@, i * SLOT_SIZE, row_slot_bytes(*s)),
{
    assert((i + 1) * SLOT_SIZE <= data.len());
    let mut out: Vec<u8> = Vec::new();
    push_le(&mut out, 8, s.id as u128 + 1);
    push_le(&mut out, 8, s.key_off as u128);
    push_le(&mut out, 4, s.key_len as u128);
    push_le(&mut out, 4, s.hash as u128);
    proof {
        assert(out@ =~= row_slot_bytes(*s));
        lemma_row_slot_len(*s);
    }
    put_bytes(data, i * SLOT_SIZE, out.as_slice());
}

proof fn lemma_row_slot_len(s: RowSlot)
    ensures
        row_slot_bytes(s).len() == SLOT_SIZE,
{
    bytes::lemma_le_bytes_len((s.id + 1) as nat, 8);
    bytes::lemma_le_bytes_len(s.key_off as nat, 8);
    bytes::lemma_le_bytes_len(s.key_len as nat, 4);
    bytes::lemma_le_bytes_len(s.hash as nat, 4);
}

/// The slots of a slot region.
pub open spec fn row_table(data: Seq<u8>, cap: int) -> Seq<Option<RowSlot>> {
    Seq::new(cap as nat, |i: int| row_slot_at(data, i))
}

/// Writing a slot of the region writes that slot of the sequence.
proof fn lemma_row_table_write(data: Seq<u8>, cap: int, i: int, s: RowSlot)
    requires
        0 <= i < cap,
        cap * SLOT_SIZE <= data.len(),
        s.id < u64::MAX,
    ensures
        row_table(bytes::splice(data, i * SLOT_SIZE, row_slot_bytes(s)), cap) == row_table(data, cap).update(
            i,
            Some(s),
        ),
{
    let p = i * SLOT_SIZE;
    let after = bytes::splice(data, p, row_slot_bytes(s));
    lemma_row_slot_len(s);
    bytes::lemma_pow256();
    bytes::lemma_le_bytes_len((s.id + 1) as nat, 8);
    bytes::lemma_le_bytes_len(s.key_off as nat, 8);
    bytes::lemma_le_bytes_len(s.key_len as nat, 4);
    bytes::lemma_le_bytes_len(s.hash as nat, 4);
    bytes::lemma_field_value(after, p, 8, (s.id + 1) as nat);
    bytes::lemma_field_value(after, p + 8, 8, s.key_off as nat);
    bytes::lemma_field_value(after, p + 16, 4, s.key_len as nat);
    bytes::lemma_field_value(after, p + 20, 4, s.hash as nat);
    assert forall|j: int| 0 <= j < cap implies row_table(after, cap)[j] == row_table(data, cap).update(
        i,
        Some(s),
    )[j] by {
        let q = j * SLOT_SIZE;
        if j != i {
            bytes::lemma_field_same(after, data, q, 8);
            bytes::lemma_field_same(after, data, q + 8, 8);
            bytes::lemma_field_same(after, data, q + 16, 4);
            bytes::lemma_field_same(after, data, q + 20, 4);
        }
    }
    assert(row_table(after, cap) =~= row_table(data, cap).update(i, Some(s)));
}

/// One for an occupied slot.
pub open spec fn taken() -> spec_fn(Option<RowSlot>) -> nat {
    |s: Option<RowSlot>|
        if s is Some {
            1nat
        } else {
            0nat
        }
}

/// The slot `n` steps into the probe sequence of a hash.
pub open spec fn visited(t: Seq<Option<RowSlot>>, hash: u32, n: int) -> Option<RowSlot> {
    t[table::ring(t.len() as int, hash as int % t.len() as int, n)]
}

/// No empty slot comes before slot `i` in the probe sequence of `hash`.
pub open spec fn reachable(t: Seq<Option<RowSlot>>, hash: u32, i: int) -> bool {
    &&& 0 <= i < t.len()
    &&& forall|m: int|
        0 <= m < table::ring_steps(t.len() as int, hash as int % t.len() as int, i) ==> (#[trigger] visited(
            t,
            hash,
            m,
        )) is Some
}

/// Slot `i` holds identifier `id`, where probing for its hash gets to.
pub open spec fn id_at(t: Seq<Option<RowSlot>>, id: u64, i: int) -> bool {
    &&& 0 <= i < t.len()
    &&& t[i] is Some
    &&& t[i]->0.id == id
    &&& reachable(t, t[i]->0.hash, i)
}

/// Some slot holds identifier `id`, where probing for its hash gets to.
pub open spec fn placed(t: Seq<Option<RowSlot>>, id: u64) -> bool {
    exists|i: int| #[trigger] id_at(t, id, i)
}

proof fn lemma_row_home(hash: u32, cap: int)
    requires
        cap > 0,
    ensures
        0 <= hash as int % cap < cap,
{
    vstd::arithmetic::div_mod::lemma_mod_bound(hash as int, cap);
}

/// Filling an empty slot hides no other one.
proof fn lemma_fill(t: Seq<Option<RowSlot>>, i: int, s: RowSlot, id: u64, j: int)
    requires
        0 <= i < t.len(),
        t[i] is None,
        id_at(t, id, j),
    ensures
        id_at(t.update(i, Some(s)), id, j),
{
    let u = t.update(i, Some(s));
    let cap = t.len() as int;
    let hash = t[j]->0.hash;
    lemma_row_home(hash, cap);
    table::lemma_ring(cap, hash as int % cap, j);
    assert forall|m: int| 0 <= m < table::ring_steps(cap, hash as int % cap, j) implies (#[trigger] visited(
        u,
        hash,
        m,
    )) is Some by {
        table::lemma_ring(cap, hash as int % cap, m);
        assert(visited(t, hash, m) is Some);
    }
}

/// A table with fewer entries than slots has an empty slot.
proof fn lemma_all_taken(t: Seq<Option<RowSlot>>)
    requires
        forall|i: int| 0 <= i < t.len() ==> (#[trigger] t[i]) is Some,
    ensures
        table::tally(t, taken()) == t.len(),
    decreases t.len(),
{
    if t.len() > 0 {
        assert forall|i: int| 0 <= i < t.drop_last().len() implies (#[trigger] t.drop_last()[i]) is Some by {
            assert(t.drop_last()[i] == t[i]);
        }
        lemma_all_taken(t.drop_last());
    }
}

/// The first empty slot in the probe sequence of a hash.
fn find_empty(slots: &[u8], cap: usize, hash: u32) -> (i: usize)
    requires
        0 < cap,
        cap * SLOT_SIZE <= slots@.len(),
        table::tally(row_table(slots@, cap as int), taken()) < cap,
    ensures
        i < cap,
        row_table(slots@, cap as int)[i as int] is None,
        reachable(row_table(slots@, cap as int), hash, i as int),
{
    let ghost t = row_table(slots@, cap as int);
    let start: usize = (hash as u64 % cap as u64) as usize;
    let mut i: usize = start;
    let mut n: usize = 0;
    proof {
        lemma_row_home(hash, cap as int);
    }
    while n < cap
        invariant
            n <= cap,
            0 < cap,
            i < cap,
            start < cap,
            start == hash as int % cap as int,
            cap * SLOT_SIZE <= slots@.len(),
            t == row_table(slots@, cap as int),
            n < cap ==> i == table::ring(cap as int, start as int, n as int),
            forall|m: int| 0 <= m < n ==> (#[trigger] visited(t, hash, m)) is Some,
        decreases cap - n,
    {
        proof {
            table::lemma_ring(cap as int, start as int, n as int);
        }
        let s: Option<RowSlot> = read_slot(slots, i);
        assert(s == t[i as int]);
        if s.is_none() {
            return i;
        }
        assert(visited(t, hash, n as int) is Some);
        i = if i + 1 == cap {
            0
        } else {
            i + 1
        };
        n = n + 1;
    }
    proof {
        assert forall|j: int| 0 <= j < t.len() implies (#[trigger] t[j]) is Some by {
            table::lemma_ring(cap as int, start as int, j);
            assert(visited(t, hash, table::ring_steps(cap as int, start as int, j)) is Some);
        }
        lemma_all_taken(t);
    }
    i
}

/// Entry `id` of an identifier array: the offset and length of its key.
pub open spec fn id_entry_at(idarray: Seq<u8>, id: int) -> (u64, u32) {
    (
        bytes::field(idarray, id * ID_ENTRY_SIZE, 8) as u64,
        bytes::field(idarray, id * ID_ENTRY_SIZE + 8, 4) as u32,
    )
}

/// The key of an entry.
pub open spec fn entry_key(keybytes: Seq<u8>, entry: (u64, u32)) -> Seq<u8> {
    keybytes.subrange(entry.0 as int, entry.0 + entry.1)
}

/// The keys of the first `n` identifiers.
pub open spec fn image_keys(keybytes: Seq<u8>, idarray: Seq<u8>, n: nat) -> Seq<Seq<u8>> {
    Seq::new(n, |id: int| entry_key(keybytes, id_entry_at(idarray, id)))
}

/// What is wrong with entry `id` or a later one.
pub open spec fn entry_error(idarray: Seq<u8>, n: int, pos: u64, id: int) -> Option<RowMapError>
    decreases n - id,
{
    if id >= n {
        None
    } else {
        let (off, len) = id_entry_at(idarray, id);
        if off + len > u64::MAX {
            Some(RowMapError::EntryOverflow)
        } else if off + len > pos {
            Some(RowMapError::EntryPastEnd { id: id as u64, off, end: (off + len) as u64, pos })
        } else {
            entry_error(idarray, n, pos, id + 1)
        }
    }
}

/// The first thing wrong with a marker and the images it commits, if any.
pub open spec fn row_map_error(marker: Seq<u8>, keybytes: Seq<u8>, idarray: Seq<u8>) -> Option<RowMapError> {
    let (next_id, pos) = marker_fields(marker);
    if marker_error(marker) is Some {
        marker_error(marker)
    } else if next_id * ID_ENTRY_SIZE > u64::MAX {
        Some(RowMapError::IdArrayOverflow)
    } else if next_id * ID_ENTRY_SIZE > idarray.len() {
        Some(
            RowMapError::IdArrayTooSmall {
                len: idarray.len() as u64,
                next_id,
                need: (next_id * ID_ENTRY_SIZE) as u64,
            },
        )
    } else if pos > keybytes.len() {
        Some(RowMapError::KeyBytesPastEnd { pos, len: keybytes.len() as u64 })
    } else {
        entry_error(idarray, next_id as int, pos, 0)
    }
}

/// Every key of the first `n` entries ends within the committed key bytes.
pub open spec fn entries_inside(idarray: Seq<u8>, n: int, pos: int) -> bool {
    forall|id: int| 0 <= id < n ==> (#[trigger] id_entry_at(idarray, id)).0 + id_entry_at(idarray, id).1 <= pos
}

proof fn lemma_entry_error(idarray: Seq<u8>, n: int, pos: u64, id: int)
    requires
        0 <= id,
    ensures
        entry_error(idarray, n, pos, id) is None <==> forall|j: int|
            id <= j < n ==> (#[trigger] id_entry_at(idarray, j)).0 + id_entry_at(idarray, j).1 <= pos,
    decreases n - id,
{
    if id < n {
        lemma_entry_error(idarray, n, pos, id + 1);
        let e = id_entry_at(idarray, id);
    }
}

/// A slot agrees with the identifier array about its identifier's key.
pub open spec fn slot_agrees(s: RowSlot, keybytes: Seq<u8>, idarray: Seq<u8>) -> bool {
    &&& (s.key_off, s.key_len) == id_entry_at(idarray, s.id as int)
    &&& s.hash == hash_of(entry_key(keybytes, id_entry_at(idarray, s.id as int)))
}

/// Outcome of probing for a key.
#[derive(Debug, Clone, Copy, PartialEq, Eq, Structural)]
pub enum Probe {
    /// The key has this identifier.
    Found(u64),
    /// The key has none; this slot would take it.
    Empty(usize),
}

/// Dense identifiers for keys.
pub struct RowMap {
    keybytes: Vec<u8>,
    idarray: Vec<u8>,
    slots: Vec<u8>,
    cap: usize,
    next_id: u64,
    keybytes_pos: usize,
}

impl RowMap {
    /// The keys by identifier.
    pub closed spec fn keys(&self) -> Seq<Seq<u8>> {
        image_keys(self.keybytes@, self.idarray@, self.next_id as nat)
    }

    /// The key region.
    pub closed spec fn key_region(&self) -> Seq<u8> {
        self.keybytes@
    }

    /// The identifier array.
    pub closed spec fn id_region(&self) -> Seq<u8> {
        self.idarray@
    }

    /// Committed key bytes.
    pub closed spec fn key_pos(&self) -> nat {
        self.keybytes_pos as nat
    }

    /// Number of slots.
    pub closed spec fn slot_cap(&self) -> nat {
        self.cap as nat
    }

    spec fn table(&self) -> Seq<Option<RowSlot>> {
        row_table(self.slots@, self.cap as int)
    }

    /// The regions hold the entries, and every identifier is in the table.
    pub closed spec fn wf(&self) -> bool {
        &&& INITIAL_SLOT_CAP <= self.cap
        &&& self.cap * SLOT_SIZE == self.slots@.len()
        &&& self.next_id * ID_ENTRY_SIZE <= self.idarray@.len()
        &&& self.keybytes_pos <= self.keybytes@.len()
        &&& self.next_id * 10 < self.cap * 7 + 10
        &&& entries_inside(self.idarray@, self.next_id as int, self.keybytes_pos as int)
        &&& self.table_ok(self.next_id as int)
    }

    /// The table holds the first `n` identifiers and nothing else.
    spec fn table_ok(&self, n: int) -> bool {
        &&& table::tally(self.table(), taken()) == n
        &&& forall|i: int|
            0 <= i < self.cap && (#[trigger] self.table()[i]) is Some ==> self.table()[i]->0.id < n && slot_agrees(
                self.table()[i]->0,
                self.keybytes@,
                self.idarray@,
            )
        &&& forall|id: u64| id < n ==> #[trigger] placed(self.table(), id)
    }

    /// No two identifiers have the same key.
    pub open spec fn distinct(&self) -> bool {
        self.keys().no_duplicates()
    }

    /// The key of an identifier.
    pub open spec fn key_of(&self, id: int) -> Option<Seq<u8>> {
        if 0 <= id < self.keys().len() {
            Some(self.keys()[id])
        } else {
            None
        }
    }

    /// The identifier of a key.
    pub open spec fn id_of(&self, key: Seq<u8>) -> Option<int> {
        if self.keys().contains(key) {
            Some(choose|id: int| 0 <= id < self.keys().len() && #[trigger] self.keys()[id] == key)
        } else {
            None
        }
    }

    /// The map went on from `before`: what `before` held, in the map and in its
    /// regions, is as it was.
    pub open spec fn extends(&self, before: &RowMap) -> bool {
        &&& before.keys().len() <= self.keys().len()
        &&& self.keys().take(before.keys().len() as int) == before.keys()
        &&& before.key_pos() <= self.key_pos()
        &&& before.id_region().len() <= self.id_region().len()
        &&& before.key_region().len() <= self.key_region().len()
        &&& forall|k: int|
            0 <= k < before.keys().len() * ID_ENTRY_SIZE ==> #[trigger] self.id_region()[k] == before.id_region()[k]
        &&& forall|k: int| 0 <= k < before.key_pos() ==> #[trigger] self.key_region()[k] == before.key_region()[k]
    }

    /// One more key of `len` bytes fits the machine's address space.
    pub open spec fn has_room(&self, len: nat) -> bool {
        &&& len <= u32::MAX
        &&& self.key_pos() + len <= usize::MAX / 2
        &&& (self.keys().len() + 1) * ID_ENTRY_SIZE <= usize::MAX / 2
        &&& 2 * self.slot_cap() * SLOT_SIZE <= usize::MAX
    }

    /// A map without keys.
    pub fn create() -> (m: Self)
        ensures
            m.wf(),
            m.keys() == Seq::<Seq<u8>>::empty(),
            m.slot_cap() == INITIAL_SLOT_CAP,
            m.key_pos() == 0,
    {
        let m: RowMap = RowMap {
            keybytes: zeros(INITIAL_KEYBYTES),
            idarray: zeros(INITIAL_IDARRAY),
            slots: zeros(INITIAL_SLOT_CAP * SLOT_SIZE),
            cap: INITIAL_SLOT_CAP,
            next_id: 0,
            keybytes_pos: 0,
        };
        proof {
            lemma_blank_table(m.slots@, m.cap as int);
            assert(m.keys() =~= Seq::<Seq<u8>>::empty());
        }
        m
    }

    /// Open the committed part of the images; without a marker, start afresh.
    pub fn open(marker: Option<Vec<u8>>, keybytes: Vec<u8>, idarray: Vec<u8>) -> (r: Result<Self, RowMapError>)
        requires
            idarray@.len() <= usize::MAX / 16,
        ensures
            match (marker, r) {
                (None, Ok(m)) => m.wf() && m.keys() == Seq::<Seq<u8>>::empty(),
                (None, Err(_)) => false,
                (Some(b), Ok(m)) => {
                    &&& row_map_error(b@, keybytes@, idarray@) is None
                    &&& m.wf()
                    &&& m.keys() == image_keys(keybytes@, idarray@, marker_fields(b@).0 as nat)
                    &&& m.key_pos() == marker_fields(b@).1
                    &&& m.key_region() == keybytes@
                    &&& m.id_region() == idarray@
                },
                (Some(b), Err(e)) => row_map_error(b@, keybytes@, idarray@) == Some(e),
            },
    {
        let b: Vec<u8> = match marker {
            None => {
                return Ok(Self::create());
            },
            Some(b) => b,
        };
        let (next_id, pos): (u64, u64) = match read_marker(b.as_slice()) {
            Ok(fields) => fields,
            Err(e) => {
                return Err(e);
            },
        };
        if next_id > u64::MAX / ID_ENTRY_SIZE as u64 {
            return Err(RowMapError::IdArrayOverflow);
        }
        let need: u64 = next_id * ID_ENTRY_SIZE as u64;
        if need > idarray.len() as u64 {
            return Err(RowMapError::IdArrayTooSmall { len: idarray.len() as u64, next_id, need });
        }
        if pos > keybytes.len() as u64 {
            return Err(RowMapError::KeyBytesPastEnd { pos, len: keybytes.len() as u64 });
        }
        let mut cap: usize = INITIAL_SLOT_CAP;
        while next_id as usize * 10 >= cap * 7
            invariant
                INITIAL_SLOT_CAP <= cap,
                next_id * ID_ENTRY_SIZE <= idarray@.len(),
                idarray.len() <= usize::MAX / 16,
                cap == INITIAL_SLOT_CAP || cap * 7 <= next_id * 20,
            decreases next_id * 20 - cap,
        {
            cap = cap * 2;
        }
        let mut m: RowMap = RowMap {
            keybytes,
            idarray,
            slots: zeros(cap * SLOT_SIZE),
            cap,
            next_id,
            keybytes_pos: pos as usize,
        };
        proof {
            lemma_blank_table(m.slots@, m.cap as int);
        }
        let mut id: u64 = 0;
        while id < next_id
            invariant
                id <= next_id,
                next_id == m.next_id,
                pos == m.keybytes_pos,
                m.keybytes@ == keybytes@,
                m.idarray@ == idarray@,
                marker == Some(b),
                m.rebuilt_to(id as int),
                row_map_error(b@, keybytes@, idarray@) == entry_error(idarray@, next_id as int, pos, id as int),
            decreases next_id - id,
        {
            match m.index_entry(id) {
                Ok(_) => {},
                Err(e) => {
                    return Err(e);
                },
            }
            id = id + 1;
        }
        Ok(m)
    }

    /// The regions are as committed and the table holds the first `n`
    /// identifiers.
    spec fn rebuilt_to(&self, n: int) -> bool {
        &&& INITIAL_SLOT_CAP <= self.cap
        &&& self.cap * SLOT_SIZE == self.slots@.len()
        &&& self.next_id * ID_ENTRY_SIZE <= self.idarray@.len()
        &&& self.keybytes_pos <= self.keybytes@.len()
        &&& self.next_id * 10 < self.cap * 7
        &&& entries_inside(self.idarray@, n, self.keybytes_pos as int)
        &&& self.table_ok(n)
    }

    /// Put the committed entry of `id` in the table, or say what is wrong with
    /// it.
    fn index_entry(&mut self, id: u64) -> (r: Result<(), RowMapError>)
        requires
            id < old(self).next_id,
            old(self).rebuilt_to(id as int),
        ensures
            final(self).keybytes@ == old(self).keybytes@,
            final(self).idarray@ == old(self).idarray@,
            final(self).next_id == old(self).next_id,
            final(self).keybytes_pos == old(self).keybytes_pos,
            match r {
                Ok(_) => {
                    &&& final(self).rebuilt_to(id + 1)
                    &&& entry_error(
                        old(self).idarray@,
                        old(self).next_id as int,
                        old(self).keybytes_pos as u64,
                        id as int,
                    ) == entry_error(
                        old(self).idarray@,
                        old(self).next_id as int,
                        old(self).keybytes_pos as u64,
                        id + 1,
                    )
                },
                Err(e) => entry_error(
                    old(self).idarray@,
                    old(self).next_id as int,
                    old(self).keybytes_pos as u64,
                    id as int,
                ) == Some(e),
            },
    {
        let pos: u64 = self.keybytes_pos as u64;
        let (off, len): (u64, u32) = self.id_entry(id);
        if off > u64::MAX - len as u64 {
            return Err(RowMapError::EntryOverflow);
        }
        let end: u64 = off + len as u64;
        if end > pos {
            return Err(RowMapError::EntryPastEnd { id, off, end, pos });
        }
        assert(end <= self.keybytes.len());
        let key: &[u8] = vstd::slice::slice_subrange(
            self.keybytes.as_slice(),
            off as usize,
            off as usize + len as usize,
        );
        let hash: u32 = hash_bytes(key);
        let idx: usize = find_empty(self.slots.as_slice(), self.cap, hash);
        let slot: RowSlot = RowSlot { hash, key_off: off, key_len: len, id };
        write_slot(&mut self.slots, idx, &slot);
        proof {
            lemma_row_table_write(old(self).slots@, old(self).cap as int, idx as int, slot);
            lemma_table_grows(*old(self), *self, idx as int, slot);
        }
        Ok(())
    }

    /// Number of identifiers; the next one to be given out.
    pub fn next_id(&self) -> (n: u64)
        ensures
            n == self.keys().len(),
    {
        self.next_id
    }

    /// True if no key has an identifier.
    pub fn is_empty(&self) -> (empty: bool)
        ensures
            empty == (self.keys().len() == 0),
    {
        self.next_id == 0
    }

    /// The committed part of the map, as a marker records it.
    pub fn marker(&self, wal_offset: u64) -> (m: Vec<u8>)
        ensures
            m@ == marker_bytes(self.keys().len() as u64, self.key_pos() as u64, wal_offset),
    {
        write_marker(self.next_id, self.keybytes_pos as u64, wal_offset)
    }

    /// The key region, as a file would hold it.
    pub fn keybytes_image(&self) -> (image: &[u8])
        ensures
            image@ == self.key_region(),
    {
        self.keybytes.as_slice()
    }

    /// The identifier array, as a file would hold it.
    pub fn idarray_image(&self) -> (image: &[u8])
        ensures
            image@ == self.id_region(),
    {
        self.idarray.as_slice()
    }

    /// Offset and length of the key of `id`.
    fn id_entry(&self, id: u64) -> (e: (u64, u32))
        requires
            (id + 1) * ID_ENTRY_SIZE <= self.idarray@.len(),
        ensures
            e == id_entry_at(self.idarray@, id as int),
    {
        assert((id + 1) * ID_ENTRY_SIZE <= self.idarray.len());
        let base: usize = id as usize * ID_ENTRY_SIZE;
        (get_u64(self.idarray.as_slice(), base), get_u32(self.idarray.as_slice(), base + 8))
    }

    /// The key of an identifier.
    pub fn key_for(&self, id: u128) -> (key: Option<Vec<u8>>)
        requires
            self.wf(),
        ensures
            match key {
                Some(k) => self.key_of(id as int) == Some(k@),
                None => self.key_of(id as int) is None,
            },
    {
        if id >= self.next_id as u128 {
            return None;
        }
        let (off, len): (u64, u32) = self.id_entry(id as u64);
        assert(id_entry_at(self.idarray@, id as int).0 + id_entry_at(self.idarray@, id as int).1
            <= self.keybytes.len());
        Some(
            vstd::slice::slice_to_vec(
                vstd::slice::slice_subrange(self.keybytes.as_slice(), off as usize, off as usize + len as usize),
            ),
        )
    }

    /// Whether the key of a slot is `key`.
    fn key_eq(&self, slot: &RowSlot, key: &[u8]) -> (same: bool)
        requires
            slot.key_off + slot.key_len <= self.keybytes@.len(),
        ensures
            same == (entry_key(self.keybytes@, (slot.key_off, slot.key_len)) == key@),
    {
        assert(slot.key_off + slot.key_len <= self.keybytes.len());
        bytes_eq(
            vstd::slice::slice_subrange(
                self.keybytes.as_slice(),
                slot.key_off as usize,
                slot.key_off as usize + slot.key_len as usize,
            ),
            key,
        )
    }

    /// Probe for `key`, whose hash is `hash`.
    fn probe(&self, key: &[u8], hash: u32) -> (r: Probe)
        requires
            self.wf(),
            hash == hash_of(key@),
        ensures
            match r {
                Probe::Found(id) => id < self.keys().len() && self.keys()[id as int] == key@,
                Probe::Empty(i) => {
                    &&& i < self.cap
                    &&& self.table()[i as int] is None
                    &&& reachable(self.table(), hash, i as int)
                    &&& !self.keys().contains(key@)
                },
            },
    {
        let ghost t = self.table();
        let cap: usize = self.cap;
        let start: usize = (hash as u64 % cap as u64) as usize;
        let mut i: usize = start;
        let mut n: usize = 0;
        proof {
            lemma_row_home(hash, cap as int);
        }
        while n < cap
            invariant
                n <= cap,
                0 < cap,
                cap == self.cap,
                i < cap,
                start < cap,
                start == hash as int % cap as int,
                hash == hash_of(key@),
                self.wf(),
                t == self.table(),
                n < cap ==> i == table::ring(cap as int, start as int, n as int),
                forall|m: int|
                    0 <= m < n ==> (#[trigger] visited(t, hash, m)) is Some && !(self.keys()[visited(
                        t,
                        hash,
                        m,
                    )->0.id as int] == key@),
            decreases cap - n,
        {
            proof {
                table::lemma_ring(cap as int, start as int, n as int);
            }
            let s: Option<RowSlot> = read_slot(self.slots.as_slice(), i);
            assert(s == t[i as int]);
            match s {
                None => {
                    proof {
                        lemma_not_found(*self, key@, n as int);
                    }
                    return Probe::Empty(i);
                },
                Some(slot) => {
                    proof {
                        assert(slot_agrees(t[i as int]->0, self.keybytes@, self.idarray@));
                        assert(id_entry_at(self.idarray@, slot.id as int).0 + id_entry_at(
                            self.idarray@,
                            slot.id as int,
                        ).1 <= self.keybytes_pos);
                        assert(visited(t, hash, n as int) == Some(slot));
                    }
                    if slot.hash == hash && self.key_eq(&slot, key) {
                        return Probe::Found(slot.id);
                    }
                },
            }
            i = if i + 1 == cap {
                0
            } else {
                i + 1
            };
            n = n + 1;
        }
        proof {
            assert forall|j: int| 0 <= j < t.len() implies (#[trigger] t[j]) is Some by {
                table::lemma_ring(cap as int, start as int, j);
                assert(visited(t, hash, table::ring_steps(cap as int, start as int, j)) is Some);
            }
            lemma_all_taken(t);
        }
        Probe::Empty(start)
    }

    /// The identifier of `key`, or none if it has none.
    pub fn get(&self, key: &[u8]) -> (id: Option<u128>)
        requires
            self.wf(),
        ensures
            match id {
                Some(id) => id < self.keys().len() && self.keys()[id as int] == key@,
                None => !self.keys().contains(key@),
            },
            self.distinct() ==> match id {
                Some(id) => self.id_of(key@) == Some(id as int),
                None => self.id_of(key@) is None,
            },
    {
        match self.probe(key, hash_bytes(key)) {
            Probe::Found(id) => {
                assert(self.keys().contains(self.keys()[id as int]));
                Some(id as u128)
            },
            Probe::Empty(_) => None,
        }
    }

    /// The identifier of `key`, a new one if it has none.
    pub fn get_or_alloc(&mut self, key: &[u8]) -> (id: u128)
        requires
            old(self).wf(),
            old(self).has_room(key@.len()),
        ensures
            final(self).wf(),
            given(old(self).keys(), final(self).keys(), key@, id as int),
            old(self).keys().contains(key@) ==> *final(self) == *old(self),
            final(self).extends(old(self)),
            old(self).distinct() ==> final(self).distinct(),
    {
        proof {
            let held = self.keys();
            assert(held.take(held.len() as int) =~= held);
        }
        let hash: u32 = hash_bytes(key);
        match self.probe(key, hash) {
            Probe::Found(id) => id as u128,
            Probe::Empty(slot_idx) => {
                let mut at: usize = slot_idx;
                if self.needs_rehash() {
                    self.rehash();
                    match self.probe(key, hash) {
                        Probe::Found(id) => {
                            return id as u128;
                        },
                        Probe::Empty(i) => {
                            at = i;
                        },
                    }
                }
                self.insert_at(at, key, hash)
            },
        }
    }

    /// Seven tenths of the slots are taken.
    fn needs_rehash(&self) -> (full: bool)
        requires
            self.wf(),
            self.next_id * ID_ENTRY_SIZE <= usize::MAX / 2,
        ensures
            full == (self.next_id * 10 >= self.cap * 7),
    {
        self.next_id as u128 * 10 >= self.cap as u128 * 7
    }

    /// Give `key` the next identifier, in an empty slot that probing gets to.
    #[verifier::spinoff_prover]
    fn insert_at(&mut self, slot_idx: usize, key: &[u8], hash: u32) -> (id: u128)
        requires
            old(self).wf(),
            old(self).next_id * 10 < old(self).cap * 7,
            key@.len() <= u32::MAX,
            old(self).keybytes_pos + key@.len() <= usize::MAX / 2,
            (old(self).next_id + 1) * ID_ENTRY_SIZE <= usize::MAX / 2,
            hash == hash_of(key@),
            slot_idx < old(self).cap,
            old(self).table()[slot_idx as int] is None,
            reachable(old(self).table(), hash, slot_idx as int),
            !old(self).keys().contains(key@),
        ensures
            final(self).wf(),
            id == old(self).keys().len(),
            final(self).keys() == old(self).keys().push(key@),
            final(self).extends(old(self)),
            old(self).distinct() ==> final(self).distinct(),
    {
        let id: u64 = self.next_id;
        let key_off: u64 = self.keybytes_pos as u64;
        let key_len: u32 = key.len() as u32;
        ensure_capacity(&mut self.keybytes, self.keybytes_pos + key.len());
        let ghost grown_keys = self.keybytes@;
        put_bytes(&mut self.keybytes, self.keybytes_pos, key);
        self.keybytes_pos = self.keybytes_pos + key.len();

        let base: usize = id as usize * ID_ENTRY_SIZE;
        ensure_capacity(&mut self.idarray, base + ID_ENTRY_SIZE);
        let ghost grown_ids = self.idarray@;
        let mut entry: Vec<u8> = Vec::new();
        push_le(&mut entry, 8, key_off as u128);
        push_le(&mut entry, 4, key_len as u128);
        proof {
            bytes::lemma_le_bytes_len(key_off as nat, 8);
            bytes::lemma_le_bytes_len(key_len as nat, 4);
        }
        put_bytes(&mut self.idarray, base, entry.as_slice());

        let slot: RowSlot = RowSlot { hash, key_off, key_len, id };
        write_slot(&mut self.slots, slot_idx, &slot);
        self.next_id = id + 1;
        proof {
            lemma_row_table_write(old(self).slots@, old(self).cap as int, slot_idx as int, slot);
            bytes::lemma_pow256();
            bytes::lemma_field_value(self.idarray@, base as int, 8, key_off as nat);
            bytes::lemma_field_value(self.idarray@, base + 8, 4, key_len as nat);
            assert(entry_key(self.keybytes@, (key_off, key_len)) =~= key@);
            assert forall|k: int| 0 <= k < id * ID_ENTRY_SIZE implies self.idarray@[k] == old(self).idarray@[k] by {
                assert(grown_ids.subrange(0, old(self).idarray@.len() as int)[k] == grown_ids[k]);
            }
            assert forall|k: int| 0 <= k < old(self).keybytes_pos implies self.keybytes@[k] == old(
                self,
            ).keybytes@[k] by {
                assert(grown_keys.subrange(0, old(self).keybytes@.len() as int)[k] == grown_keys[k]);
            }
            lemma_appended(*old(self), *self, slot_idx as int, slot, key@);
            assert(self.keys().take(old(self).keys().len() as int) =~= old(self).keys());
        }
        id as u128
    }

    /// Double the table and place every slot anew.
    #[verifier::spinoff_prover]
    fn rehash(&mut self)
        requires
            old(self).wf(),
            2 * old(self).cap * SLOT_SIZE <= usize::MAX,
        ensures
            final(self).wf(),
            final(self).keys() == old(self).keys(),
            final(self).cap == 2 * old(self).cap,
            final(self).keybytes@ == old(self).keybytes@,
            final(self).idarray@ == old(self).idarray@,
            final(self).next_id == old(self).next_id,
            final(self).keybytes_pos == old(self).keybytes_pos,
    {
        let cap: usize = self.cap;
        let new_cap: usize = cap * 2;
        let mut fresh: Vec<u8> = zeros(new_cap * SLOT_SIZE);
        let ghost t = self.table();
        proof {
            lemma_blank_table(fresh@, new_cap as int);
            assert(t.take(0) =~= Seq::<Option<RowSlot>>::empty());
        }
        let mut i: usize = 0;
        while i < cap
            invariant
                i <= cap,
                cap == self.cap,
                0 < cap,
                new_cap == 2 * cap,
                *self == *old(self),
                self.wf(),
                t == self.table(),
                fresh@.len() == new_cap * SLOT_SIZE,
                moved(t.take(i as int), row_table(fresh@, new_cap as int)),
            decreases cap - i,
        {
            let s: Option<RowSlot> = read_slot(self.slots.as_slice(), i);
            assert(s == t[i as int]);
            let ghost before = row_table(fresh@, new_cap as int);
            let ghost data = fresh@;
            proof {
                lemma_taken_bound(t.take(i as int));
                assert(t.take(i + 1) =~= t.take(i as int).push(t[i as int]));
                assert(t.take(i + 1).drop_last() =~= t.take(i as int));
            }
            match s {
                None => {
                    proof {
                        lemma_moved_none(t.take(i as int), before);
                    }
                },
                Some(slot) => {
                    let j: usize = find_empty(fresh.as_slice(), new_cap, slot.hash);
                    write_slot(&mut fresh, j, &slot);
                    proof {
                        lemma_row_table_write(data, new_cap as int, j as int, slot);
                        lemma_moved_some(t.take(i as int), before, j as int, slot);
                    }
                },
            }
            i = i + 1;
        }
        assert(t.take(i as int) =~= t);
        self.slots = fresh;
        self.cap = new_cap;
        proof {
            lemma_rehashed(*old(self), *self);
        }
    }
}

/// `after` are the keys once `key` was given the identifier `id`: the one it had, or
/// else the next one.
pub open spec fn given(before: Seq<Seq<u8>>, after: Seq<Seq<u8>>, key: Seq<u8>, id: int) -> bool {
    &&& 0 <= id < after.len()
    &&& after[id] == key
    &&& before.contains(key) ==> after == before
    &&& !before.contains(key) ==> after == before.push(key) && id == before.len()
}

/// Every slot of `t` stands somewhere in `u`, where probing gets to, and `u`
/// holds nothing else.
pub open spec fn moved(t: Seq<Option<RowSlot>>, u: Seq<Option<RowSlot>>) -> bool {
    &&& table::tally(u, taken()) == table::tally(t, taken())
    &&& forall|j: int| 0 <= j < u.len() && (#[trigger] u[j]) is Some ==> t.contains(u[j])
    &&& forall|i: int| 0 <= i < t.len() && (#[trigger] t[i]) is Some ==> placed(u, t[i]->0.id)
}

proof fn lemma_taken_bound(t: Seq<Option<RowSlot>>)
    ensures
        table::tally(t, taken()) <= t.len(),
    decreases t.len(),
{
    if t.len() > 0 {
        lemma_taken_bound(t.drop_last());
    }
}

proof fn lemma_moved_none(t: Seq<Option<RowSlot>>, u: Seq<Option<RowSlot>>)
    requires
        moved(t, u),
    ensures
        moved(t.push(None), u),
{
    let next = t.push(None);
    assert(next.drop_last() =~= t);
    assert forall|j: int| 0 <= j < u.len() && (#[trigger] u[j]) is Some implies next.contains(u[j]) by {
        let k = choose|k: int| 0 <= k < t.len() && t[k] == u[j];
        assert(next[k] == u[j]);
    }
    assert forall|i: int| 0 <= i < next.len() && (#[trigger] next[i]) is Some implies placed(u, next[i]->0.id) by {
        assert(t[i] == next[i]);
    }
}

proof fn lemma_moved_some(t: Seq<Option<RowSlot>>, u: Seq<Option<RowSlot>>, j: int, slot: RowSlot)
    requires
        moved(t, u),
        0 <= j < u.len(),
        u[j] is None,
        reachable(u, slot.hash, j),
    ensures
        moved(t.push(Some(slot)), u.update(j, Some(slot))),
{
    let next = t.push(Some(slot));
    let v = u.update(j, Some(slot));
    assert(next.drop_last() =~= t);
    table::lemma_tally_update(u, j, Some(slot), taken());
    assert forall|k: int| 0 <= k < v.len() && (#[trigger] v[k]) is Some implies next.contains(v[k]) by {
        if k == j {
            assert(next[t.len() as int] == v[k]);
        } else {
            assert(u[k] == v[k]);
            let x = choose|x: int| 0 <= x < t.len() && t[x] == u[k];
            assert(next[x] == v[k]);
        }
    }
    assert forall|i: int| 0 <= i < next.len() && (#[trigger] next[i]) is Some implies placed(v, next[i]->0.id) by {
        if i < t.len() {
            assert(t[i] == next[i]);
            let x = choose|x: int| #[trigger] id_at(u, t[i]->0.id, x);
            lemma_fill(u, j, slot, t[i]->0.id, x);
        } else {
            lemma_reachable_after(u, j, slot);
            assert(id_at(v, slot.id, j));
        }
    }
}

/// The map after its slots were placed in a table of twice the size.
proof fn lemma_rehashed(before: RowMap, after: RowMap)
    requires
        before.wf(),
        after.cap == 2 * before.cap,
        after.slots@.len() == after.cap * SLOT_SIZE,
        moved(before.table(), after.table()),
        after.keybytes@ == before.keybytes@,
        after.idarray@ == before.idarray@,
        after.next_id == before.next_id,
        after.keybytes_pos == before.keybytes_pos,
    ensures
        after.wf(),
{
    let (t, u) = (before.table(), after.table());
    assert forall|i: int| 0 <= i < after.cap && (#[trigger] u[i]) is Some implies u[i]->0.id < after.next_id
        && slot_agrees(u[i]->0, after.keybytes@, after.idarray@) by {
        let k = choose|k: int| 0 <= k < t.len() && t[k] == u[i];
        assert(t[k] is Some);
    }
    assert forall|id: u64| id < after.next_id implies #[trigger] placed(u, id) by {
        assert(placed(t, id));
        let i = choose|i: int| #[trigger] id_at(t, id, i);
        assert(t[i] is Some);
    }
}

/// The map after a key was appended and its slot written.
proof fn lemma_appended(before: RowMap, after: RowMap, i: int, slot: RowSlot, key: Seq<u8>)
    requires
        before.wf(),
        before.next_id * 10 < before.cap * 7,
        after.cap == before.cap,
        after.slots@.len() == before.slots@.len(),
        after.next_id == before.next_id + 1,
        slot.id == before.next_id,
        slot.hash == hash_of(key),
        0 <= i < before.cap,
        before.table()[i] is None,
        reachable(before.table(), slot.hash, i),
        after.table() == before.table().update(i, Some(slot)),
        after.next_id * ID_ENTRY_SIZE <= after.idarray@.len(),
        before.keybytes_pos + key.len() == after.keybytes_pos <= after.keybytes@.len(),
        slot.key_off == before.keybytes_pos,
        slot.key_len == key.len(),
        forall|k: int| 0 <= k < before.next_id * ID_ENTRY_SIZE ==> after.idarray@[k] == before.idarray@[k],
        forall|k: int| 0 <= k < before.keybytes_pos ==> after.keybytes@[k] == before.keybytes@[k],
        id_entry_at(after.idarray@, before.next_id as int) == (slot.key_off, slot.key_len),
        entry_key(after.keybytes@, (slot.key_off, slot.key_len)) == key,
        !before.keys().contains(key),
    ensures
        after.wf(),
        after.keys() == before.keys().push(key),
        before.distinct() ==> after.distinct(),
{
    let (t, u) = (before.table(), after.table());
    assert forall|id: int| 0 <= id < before.next_id implies #[trigger] id_entry_at(after.idarray@, id)
        == id_entry_at(before.idarray@, id) by {
        bytes::lemma_field_same(after.idarray@, before.idarray@, id * ID_ENTRY_SIZE, 8);
        bytes::lemma_field_same(after.idarray@, before.idarray@, id * ID_ENTRY_SIZE + 8, 4);
    }
    assert forall|id: int| 0 <= id < before.next_id implies entry_key(
        after.keybytes@,
        #[trigger] id_entry_at(after.idarray@, id),
    ) == entry_key(before.keybytes@, id_entry_at(before.idarray@, id)) by {
        let e = id_entry_at(before.idarray@, id);
        assert(e.0 + e.1 <= before.keybytes_pos);
        assert(entry_key(after.keybytes@, e) =~= entry_key(before.keybytes@, e));
    }
    assert forall|id: int| 0 <= id < after.next_id implies (#[trigger] id_entry_at(after.idarray@, id)).0
        + id_entry_at(after.idarray@, id).1 <= after.keybytes_pos by {
        if id < before.next_id {
            let e = id_entry_at(before.idarray@, id);
            assert(e.0 + e.1 <= before.keybytes_pos);
        }
    }
    assert(after.keys() =~= before.keys().push(key));
    table::lemma_tally_update(t, i, Some(slot), taken());
    assert forall|j: int| 0 <= j < after.cap && (#[trigger] u[j]) is Some implies u[j]->0.id < after.next_id
        && slot_agrees(u[j]->0, after.keybytes@, after.idarray@) by {
        if j != i {
            assert(u[j] == t[j]);
            let id = t[j]->0.id as int;
            assert(id_entry_at(after.idarray@, id) == id_entry_at(before.idarray@, id));
        }
    }
    assert forall|id: u64| id < after.next_id implies #[trigger] placed(u, id) by {
        if id < before.next_id {
            assert(placed(t, id));
            let j = choose|j: int| #[trigger] id_at(t, id, j);
            lemma_fill(t, i, slot, id, j);
        } else {
            lemma_reachable_after(t, i, slot);
            assert(id_at(u, id, i));
        }
    }
    if before.distinct() {
        let ks = after.keys();
        assert forall|a: int, b: int| 0 <= a < ks.len() && 0 <= b < ks.len() && a != b implies ks[a] != ks[b] by {
            if a < before.keys().len() && b < before.keys().len() {
                assert(before.keys()[a] != before.keys()[b]);
            } else if a < before.keys().len() {
                assert(before.keys().contains(before.keys()[a]));
            } else {
                assert(before.keys().contains(before.keys()[b]));
            }
        }
    }
}

/// Opening what was committed gives back the map: the marker is accepted and the
/// committed images hold the same keys under the same identifiers.
pub proof fn law_committed_map_opens_again(m: RowMap, wal_offset: u64)
    requires
        m.wf(),
    ensures
        ({
            let marker = marker_bytes(m.keys().len() as u64, m.key_pos() as u64, wal_offset);
            &&& row_map_error(marker, m.key_region(), m.id_region()) is None
            &&& image_keys(m.key_region(), m.id_region(), marker_fields(marker).0 as nat) == m.keys()
        }),
{
    assert(m.keybytes.len() <= u64::MAX && m.idarray.len() <= u64::MAX);
    lemma_marker(m.next_id, m.keybytes_pos as u64, wal_offset);
    lemma_entry_error(m.idarray@, m.next_id as int, m.keybytes_pos as u64, 0);
}

/// What lies past the committed part of the images does not matter: images that
/// agree on it hold the same keys.
pub proof fn law_torn_tail_is_ignored(
    keybytes: Seq<u8>,
    idarray: Seq<u8>,
    torn_keybytes: Seq<u8>,
    torn_idarray: Seq<u8>,
    n: nat,
    pos: nat,
)
    requires
        n * ID_ENTRY_SIZE <= idarray.len(),
        n * ID_ENTRY_SIZE <= torn_idarray.len(),
        pos <= keybytes.len(),
        pos <= torn_keybytes.len(),
        entries_inside(idarray, n as int, pos as int),
        forall|k: int| 0 <= k < n * ID_ENTRY_SIZE ==> idarray[k] == torn_idarray[k],
        forall|k: int| 0 <= k < pos ==> keybytes[k] == torn_keybytes[k],
    ensures
        image_keys(torn_keybytes, torn_idarray, n) == image_keys(keybytes, idarray, n),
{
    assert forall|id: int| 0 <= id < n implies image_keys(torn_keybytes, torn_idarray, n)[id] == image_keys(
        keybytes,
        idarray,
        n,
    )[id] by {
        bytes::lemma_field_same(torn_idarray, idarray, id * ID_ENTRY_SIZE, 8);
        bytes::lemma_field_same(torn_idarray, idarray, id * ID_ENTRY_SIZE + 8, 4);
        let e = id_entry_at(idarray, id);
        assert(e.0 + e.1 <= pos);
        assert(entry_key(torn_keybytes, e) =~= entry_key(keybytes, e));
    }
    assert(image_keys(torn_keybytes, torn_idarray, n) =~= image_keys(keybytes, idarray, n));
}

/// A map that goes on, and on from there, keeps what it held at first.
pub proof fn law_going_on_keeps_what_was_held(first: RowMap, second: RowMap, third: RowMap)
    requires
        first.wf(),
        second.extends(&first),
        third.extends(&second),
    ensures
        first.extends(&first),
        third.extends(&first),
{
    let n = first.keys().len() as int;
    assert(first.keys().take(n) =~= first.keys());
    assert(third.keys().take(n) =~= third.keys().take(second.keys().len() as int).take(n));
    assert forall|k: int| 0 <= k < n * ID_ENTRY_SIZE implies #[trigger] third.id_region()[k] == first.id_region()[k] by {
        assert(second.id_region()[k] == first.id_region()[k]);
    }
    assert forall|k: int| 0 <= k < first.key_pos() implies #[trigger] third.key_region()[k] == first.key_region()[k] by {
        assert(second.key_region()[k] == first.key_region()[k]);
    }
}

/// A map that went on after a commit opens as it was committed: the marker of then is
/// accepted with the images of later, every committed key has the identifier it had,
/// and a key that came after the commit has none.
pub proof fn law_uncommitted_keys_are_not_adopted(committed: RowMap, later: RowMap, opened: RowMap, wal_offset: u64)
    requires
        committed.wf(),
        committed.distinct(),
        later.wf(),
        later.distinct(),
        later.extends(&committed),
        ({
            let marker = marker_bytes(committed.keys().len() as u64, committed.key_pos() as u64, wal_offset);
            opened.keys() == image_keys(later.key_region(), later.id_region(), marker_fields(marker).0 as nat)
        }),
    ensures
        ({
            let marker = marker_bytes(committed.keys().len() as u64, committed.key_pos() as u64, wal_offset);
            &&& row_map_error(marker, later.key_region(), later.id_region()) is None
            &&& marker_fields(marker) == (committed.keys().len() as u64, committed.key_pos() as u64)
        }),
        opened.keys() == committed.keys(),
        forall|i: int|
            0 <= i < committed.keys().len() ==> opened.id_of(#[trigger] committed.keys()[i]) == Some(i)
                && opened.key_of(i) == Some(committed.keys()[i]),
        forall|i: int|
            committed.keys().len() <= i < later.keys().len() ==> opened.id_of(#[trigger] later.keys()[i]) is None,
{
    let (n, pos) = (committed.next_id, committed.keybytes_pos as u64);
    assert(later.keybytes.len() <= u64::MAX && later.idarray.len() <= u64::MAX);
    lemma_marker(n, pos, wal_offset);
    law_torn_tail_is_ignored(
        committed.keybytes@,
        committed.idarray@,
        later.keybytes@,
        later.idarray@,
        n as nat,
        pos as nat,
    );
    assert forall|id: int| 0 <= id < n implies (#[trigger] id_entry_at(later.idarray@, id)).0 + id_entry_at(
        later.idarray@,
        id,
    ).1 <= pos by {
        lemma_same_entry(later.idarray@, committed.idarray@, n as int, id);
        assert(id_entry_at(committed.idarray@, id).0 + id_entry_at(committed.idarray@, id).1 <= pos);
    }
    lemma_entry_error(later.idarray@, n as int, pos, 0);
    assert forall|i: int| 0 <= i < committed.keys().len() implies opened.id_of(#[trigger] committed.keys()[i])
        == Some(i) by {
        assert(opened.keys().contains(opened.keys()[i]));
    }
    assert forall|i: int| committed.keys().len() <= i < later.keys().len() implies opened.id_of(
        #[trigger] later.keys()[i],
    ) is None by {
        if opened.keys().contains(later.keys()[i]) {
            let j = choose|j: int| 0 <= j < opened.keys().len() && opened.keys()[j] == later.keys()[i];
            assert(later.keys().take(committed.keys().len() as int)[j] == later.keys()[j]);
            assert(later.keys()[j] == later.keys()[i]);
        }
    }
}

proof fn lemma_same_entry(a: Seq<u8>, b: Seq<u8>, n: int, id: int)
    requires
        0 <= id < n,
        n * ID_ENTRY_SIZE <= a.len(),
        n * ID_ENTRY_SIZE <= b.len(),
        forall|k: int| 0 <= k < n * ID_ENTRY_SIZE ==> #[trigger] a[k] == b[k],
    ensures
        id_entry_at(a, id) == id_entry_at(b, id),
{
    bytes::lemma_field_same(a, b, id * ID_ENTRY_SIZE, 8);
    bytes::lemma_field_same(a, b, id * ID_ENTRY_SIZE + 8, 4);
}

/// Identifiers are dense, lasting and unique. A key that has one keeps it and nothing
/// changes; a key without one gets the next. Every other key keeps its own. The
/// identifiers in use are those below the count, each resolves to its key, and no two
/// keys share one.
pub proof fn law_identifiers_are_dense(before: RowMap, after: RowMap, key: Seq<u8>, id: int)
    requires
        before.distinct(),
        given(before.keys(), after.keys(), key, id),
    ensures
        after.distinct(),
        before.id_of(key) matches Some(i) ==> id == i && after.keys() == before.keys(),
        before.id_of(key) is None ==> id == before.keys().len() && after.keys().len() == before.keys().len() + 1,
        after.id_of(key) == Some(id),
        after.key_of(id) == Some(key),
        forall|k: Seq<u8>| k != key ==> #[trigger] after.id_of(k) == before.id_of(k),
        forall|k: Seq<u8>| #[trigger] after.id_of(k) matches Some(i) ==> 0 <= i < after.keys().len() && after.key_of(i)
            == Some(k),
        forall|i: int| 0 <= i < after.keys().len() ==> after.id_of(#[trigger] after.keys()[i]) == Some(i),
        forall|i: u128| #[trigger] after.key_of(i as int) is None <==> i >= after.keys().len(),
        forall|a: Seq<u8>, b: Seq<u8>|
            #![trigger after.id_of(a), after.id_of(b)]
            after.id_of(a) is Some && after.id_of(a) == after.id_of(b) ==> a == b,
{
    let (ks, ls) = (before.keys(), after.keys());
    assert(ls.no_duplicates()) by {
        if !ks.contains(key) {
            assert forall|a: int, b: int| 0 <= a < ls.len() && 0 <= b < ls.len() && a != b implies ls[a] != ls[b] by {
                if a < ks.len() {
                    assert(ks.contains(ks[a]));
                }
                if b < ks.len() {
                    assert(ks.contains(ks[b]));
                }
            }
        }
    }
    assert(ls.contains(ls[id]));
    assert forall|i: int| 0 <= i < ls.len() implies after.id_of(#[trigger] ls[i]) == Some(i) by {
        assert(ls.contains(ls[i]));
    }
    assert forall|k: Seq<u8>| k != key implies #[trigger] after.id_of(k) == before.id_of(k) by {
        if ks.contains(k) {
            let i = before.id_of(k)->0;
            assert(ls[i] == k);
        } else if ls.contains(k) {
            let i = choose|i: int| 0 <= i < ls.len() && ls[i] == k;
            if i < ks.len() {
                assert(ks[i] == k);
            }
        }
    }
}

/// Without two identifiers for one key, the identifier of a key is the one that
/// resolves to it.
pub proof fn law_identifier_is_unique(m: RowMap, a: int, b: int)
    requires
        m.distinct(),
        0 <= a < m.keys().len(),
        0 <= b < m.keys().len(),
        m.keys()[a] == m.keys()[b],
    ensures
        a == b,
{
}

/// A region of zeros is a table of empty slots.
proof fn lemma_blank_table(slots: Seq<u8>, cap: int)
    requires
        0 < cap,
        slots.len() == cap * SLOT_SIZE,
        forall|k: int| 0 <= k < slots.len() ==> slots[k] == 0,
    ensures
        forall|i: int| 0 <= i < cap ==> (#[trigger] row_table(slots, cap)[i]) is None,
        table::tally(row_table(slots, cap), taken()) == 0,
{
    let t = row_table(slots, cap);
    assert forall|i: int| 0 <= i < cap implies (#[trigger] t[i]) is None by {
        bytes::lemma_zero_value(slots.subrange(i * SLOT_SIZE, i * SLOT_SIZE + 8));
    }
    table::lemma_tally_zero(t, taken());
}

/// A probe that stops at an empty slot has passed every slot with the key.
proof fn lemma_not_found(m: RowMap, key: Seq<u8>, n: int)
    requires
        m.wf(),
        0 <= n < m.cap,
        visited(m.table(), hash_of(key), n) is None,
        forall|k: int|
            0 <= k < n ==> (#[trigger] visited(m.table(), hash_of(key), k)) is Some && !(m.keys()[visited(
                m.table(),
                hash_of(key),
                k,
            )->0.id as int] == key),
    ensures
        !m.keys().contains(key),
{
    let t = m.table();
    let hash = hash_of(key);
    if m.keys().contains(key) {
        let id = choose|id: int| 0 <= id < m.keys().len() && m.keys()[id] == key;
        assert(placed(t, id as u64));
        let i = choose|i: int| #[trigger] id_at(t, id as u64, i);
        assert(slot_agrees(t[i]->0, m.keybytes@, m.idarray@));
        assert(t[i]->0.hash == hash);
        let cap = m.cap as int;
        lemma_row_home(hash, cap);
        table::lemma_ring(cap, hash as int % cap, i);
        let steps = table::ring_steps(cap, hash as int % cap, i);
        assert(visited(t, hash, steps) == t[i]);
        if steps > n {
            assert(visited(t, hash, n) is Some);
        }
    }
}

/// Writing the slot of the next identifier in an empty, reachable slot.
proof fn lemma_table_grows(before: RowMap, after: RowMap, i: int, slot: RowSlot)
    requires
        before.cap > 0,
        before.table_ok(slot.id as int),
        0 <= i < before.cap,
        before.table()[i] is None,
        reachable(before.table(), slot.hash, i),
        slot_agrees(slot, before.keybytes@, before.idarray@),
        after.table() == before.table().update(i, Some(slot)),
        after.cap == before.cap,
        after.keybytes@ == before.keybytes@,
        after.idarray@ == before.idarray@,
    ensures
        after.table_ok(slot.id + 1),
{
    let (t, u) = (before.table(), after.table());
    table::lemma_tally_update(t, i, Some(slot), taken());
    assert forall|id: u64| id < slot.id + 1 implies #[trigger] placed(u, id) by {
        if id < slot.id {
            assert(placed(t, id));
            let j = choose|j: int| #[trigger] id_at(t, id, j);
            lemma_fill(t, i, slot, id, j);
        } else {
            lemma_reachable_after(t, i, slot);
            assert(id_at(u, id, i));
        }
    }
}

proof fn lemma_reachable_after(t: Seq<Option<RowSlot>>, i: int, slot: RowSlot)
    requires
        reachable(t, slot.hash, i),
    ensures
        reachable(t.update(i, Some(slot)), slot.hash, i),
{
    let u = t.update(i, Some(slot));
    let cap = t.len() as int;
    lemma_row_home(slot.hash, cap);
    table::lemma_ring(cap, slot.hash as int % cap, i);
    assert forall|m: int| 0 <= m < table::ring_steps(cap, slot.hash as int % cap, i) implies (#[trigger] visited(
        u,
        slot.hash,
        m,
    )) is Some by {
        table::lemma_ring(cap, slot.hash as int % cap, m);
        assert(visited(t, slot.hash, m) is Some);
    }
}

/// A marker has forty bytes: the magic number, the version, four bytes of zeros, and then
/// the identifier count, the committed key bytes and the offset in the log, in eight
/// little-endian bytes each.
pub proof fn law_place_of_the_marker(next_id: u64, keybytes_pos: u64, wal_offset: u64, m: Seq<u8>)
    ensures
        marker_bytes(next_id, keybytes_pos, wal_offset).len() == 40,
        marker_bytes(next_id, keybytes_pos, wal_offset) == bytes::le_bytes(0x4D494E4E414C524D, 8) + bytes::le_bytes(1, 4)
            + bytes::le_bytes(0, 4) + bytes::le_bytes(next_id as nat, 8) + bytes::le_bytes(keybytes_pos as nat, 8)
            + bytes::le_bytes(wal_offset as nat, 8),
        marker_fields(m).0 == bytes::le_value(m.subrange(16, 24)) as u64,
        marker_fields(m).1 == bytes::le_value(m.subrange(24, 32)) as u64,
{
    lemma_marker(next_id, keybytes_pos, wal_offset);
}

/// A marker is accepted exactly where it is long enough and has the right magic number and
/// version; what is wrong is told in that order.
pub proof fn law_accepted_markers(m: Seq<u8>)
    ensures
        marker_error(m) is None <==> m.len() >= 40 && bytes::le_value(m.subrange(0, 8)) == 0x4D494E4E414C524D
            && bytes::le_value(m.subrange(8, 12)) == 1,
        m.len() < 40 ==> marker_error(m) == Some(RowMapError::TruncatedMarker { len: m.len() as u64 }),
        m.len() >= 40 && bytes::le_value(m.subrange(0, 8)) != 0x4D494E4E414C524D ==> marker_error(m) == Some(
            RowMapError::BadMarkerMagic { magic: bytes::le_value(m.subrange(0, 8)) as u64 },
        ),
        m.len() >= 40 && bytes::le_value(m.subrange(0, 8)) == 0x4D494E4E414C524D && bytes::le_value(m.subrange(8, 12)) != 1
            ==> marker_error(m) == Some(
            RowMapError::UnsupportedMarkerVersion { version: bytes::le_value(m.subrange(8, 12)) as u32 },
        ),
{
}

/// Images are accepted exactly where their marker is, the identifier array holds twelve
/// bytes for each identifier, the committed key bytes lie inside of the key region, and
/// the key of every identifier ends inside of them.
pub proof fn law_accepted_row_images(marker: Seq<u8>, keybytes: Seq<u8>, idarray: Seq<u8>)
    requires
        idarray.len() <= u64::MAX,
    ensures
        row_map_error(marker, keybytes, idarray) is None <==> {
            let (next_id, pos) = marker_fields(marker);
            &&& marker_error(marker) is None
            &&& 12 * next_id <= idarray.len()
            &&& pos <= keybytes.len()
            &&& forall|id: int|
                0 <= id < next_id ==> (#[trigger] id_entry_at(idarray, id)).0 + id_entry_at(idarray, id).1 <= pos
        },
        marker_error(marker) is Some ==> row_map_error(marker, keybytes, idarray) == marker_error(marker),
        ({
            let (next_id, pos) = marker_fields(marker);
            &&& marker_error(marker) is None && idarray.len() < 12 * next_id <= u64::MAX ==> row_map_error(
                marker,
                keybytes,
                idarray,
            ) == Some(
                RowMapError::IdArrayTooSmall { len: idarray.len() as u64, next_id, need: (12 * next_id) as u64 },
            )
            &&& marker_error(marker) is None && 12 * next_id <= idarray.len() && pos > keybytes.len() ==> row_map_error(
                marker,
                keybytes,
                idarray,
            ) == Some(RowMapError::KeyBytesPastEnd { pos, len: keybytes.len() as u64 })
        }),
{
    let (next_id, pos) = marker_fields(marker);
    lemma_entry_error(idarray, next_id as int, pos, 0);
}

/// Entry `id` of the identifier array: twelve bytes from byte `12 * id` on, the offset of
/// the key in the first eight and its length in the others. The key stands there in the
/// key region.
pub proof fn law_place_of_an_identifier(keybytes: Seq<u8>, idarray: Seq<u8>, n: nat, id: int)
    requires
        0 <= id < n,
    ensures
        id_entry_at(idarray, id).0 == bytes::le_value(idarray.subrange(12 * id, 12 * id + 8)) as u64,
        id_entry_at(idarray, id).1 == bytes::le_value(idarray.subrange(12 * id + 8, 12 * id + 12)) as u32,
        image_keys(keybytes, idarray, n).len() == n,
        image_keys(keybytes, idarray, n)[id] == keybytes.subrange(
            id_entry_at(idarray, id).0 as int,
            id_entry_at(idarray, id).0 + id_entry_at(idarray, id).1,
        ),
{
}

/// The hash of a key is the low half of the FNV-1a hash, taken byte by byte.
pub proof fn law_hash_of_a_key(key: Seq<u8>, b: u8)
    ensures
        fnv(Seq::<u8>::empty()) == 0xcbf29ce484222325,
        fnv(key.push(b)) == ((fnv(key) ^ (b as u64)) * 0x100000001b3) % 0x1_0000_0000_0000_0000,
        hash_of(key) == fnv(key) % 0x1_0000_0000,
{
    assert(key.push(b).drop_last() =~= key);
}

/// The key of an identifier is the one at its place, and identifiers from the count on
/// have none; the identifier of a key is the place where it stands.
pub proof fn law_keys_and_identifiers(m: RowMap, id: int, key: Seq<u8>)
    ensures
        0 <= id < m.keys().len() ==> m.key_of(id) == Some(m.keys()[id]),
        id < 0 || id >= m.keys().len() ==> m.key_of(id) is None,
        m.id_of(key) is None <==> forall|i: int| 0 <= i < m.keys().len() ==> #[trigger] m.keys()[i] != key,
        m.id_of(key) matches Some(i) ==> 0 <= i < m.keys().len() && m.keys()[i] == key,
{
    if m.id_of(key) is None {
        assert forall|i: int| 0 <= i < m.keys().len() implies #[trigger] m.keys()[i] != key by {
            assert(m.keys().contains(m.keys()[i]));
        }
    }
}

/// Keys and identifiers: a key that has one keeps it, a new key gets the next one; either way
/// it is found under the key, and the key under it, and those of other keys stay.
pub proof fn law_get_or_alloc(
    m: &mut RowMap,
    key: &[u8],
    id: u128,
    other: &[u8],
    before: Option<u128>,
    after: Option<u128>,
    back: Option<Vec<u8>>,
)
    requires
        old(m).wf(),
        old(m).distinct(),
        old(m).has_room(key@.len()),
        call_ensures(RowMap::get_or_alloc, (m, key), id),
    ensures
        call_ensures(RowMap::get, (&*old(m), key), before) ==> (before matches Some(i) ==> id == i) && (before is None ==> id
            == old(m).keys().len()),
        call_ensures(RowMap::get, (&*final(m), key), after) ==> after == Some(id),
        call_ensures(RowMap::key_for, (&*final(m), id), back) ==> back is Some && back->0@ == key@,
        other@ != key@ && call_ensures(RowMap::get, (&*old(m), other), before) && call_ensures(
            RowMap::get,
            (&*final(m), other),
            after,
        ) ==> after == before,
{
    law_identifiers_are_dense(*old(m), *final(m), key@, id as int);
}

/// A committed map opens again with the same keys under the same identifiers.
pub proof fn law_open_again(
    m: &RowMap,
    wal_offset: u64,
    marker: Vec<u8>,
    keybytes: Vec<u8>,
    idarray: Vec<u8>,
    r: Result<RowMap, RowMapError>,
    id: u128,
    key: Option<Vec<u8>>,
    again: Option<Vec<u8>>,
)
    requires
        m.wf(),
        call_ensures(RowMap::marker, (m, wal_offset), marker),
        keybytes@ == m.key_region(),
        idarray@ == m.id_region(),
        idarray@.len() <= usize::MAX / 16,
        call_ensures(RowMap::open, (Some(marker), keybytes, idarray), r),
    ensures
        r is Ok,
        r->Ok_0.keys() == m.keys(),
        call_ensures(RowMap::key_for, (m, id), key) && call_ensures(RowMap::key_for, (&r->Ok_0, id), again) ==> (key is Some
            <==> again is Some) && (key is Some ==> key->0@ == again->0@),
{
    law_committed_map_opens_again(*m, wal_offset);
}

/// A new map has no key, and gives the first one the number zero.
pub proof fn law_new_map(m: RowMap, n: u64, empty: bool, key: &[u8], id: Option<u128>)
    requires
        call_ensures(RowMap::create, (), m),
        call_ensures(RowMap::next_id, (&m,), n),
        call_ensures(RowMap::is_empty, (&m,), empty),
        call_ensures(RowMap::get, (&m, key), id),
    ensures
        n == 0 && empty && id is None,
        m.slot_cap() == 16,
{
}

} // verus!

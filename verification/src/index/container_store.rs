//! A map from `u128` keys to containers, kept in two byte regions.
//!
//! The key region holds a header and an open-addressing table of fixed-size
//! slots. The value region is an append-only sequence of archived containers;
//! each slot records the offset and length of its blob.
//!
//! Both regions are plain byte images: whoever owns the files loads and saves
//! them.

use vstd::prelude::*;

use super::archive;
use super::archive::{archive_words, unarchive_words};
use super::container::Container;
use super::layout;
use super::layout::{
    init_header, read_header, read_slot, slot_byte_offset, write_header, write_slot, Header, Slot, HEADER_SIZE,
    SLOT_SIZE, STATE_EMPTY, STATE_OCCUPIED, STATE_TOMBSTONE,
};
use super::region;
use super::region::{align_up, ensure_capacity, is_power_of_two};
use super::table;
use crate::bytes;
use crate::bytes::{get_u32, get_u64, put_bytes, put_zeros, zeros};
use crate::sorting::{is_permutation, sorted_positions, Ranking};

verus! {

/// Slots of a new table.
pub const INITIAL_CAPACITY: usize = 16;

/// Bytes of a new key region.
pub const INITIAL_KEY_SIZE: usize = 832;

/// Bytes of a new value region.
pub const INITIAL_VAL_SIZE: usize = 4096;

/// Alignment of blobs in the value region.
pub const VALUE_ALIGNMENT: usize = 16;

/// Bytes of the largest blob: one word per value, the tag, and the list itself.
pub const MAX_BLOB: usize = 524304;

/// Why a pair of images is not a container store.
#[derive(Debug, Clone, Copy, PartialEq, Eq, Structural)]
pub enum StoreError {
    /// The key image is shorter than the header.
    ShortKeyFile,
    /// The key image starts with another magic number.
    BadMagic { magic: u64 },
    /// The key image has another layout version.
    UnsupportedVersion { version: u32 },
    /// The capacity is not a power of two.
    BadCapacity { capacity: u64 },
    /// The capacity is too large to compute the table's size.
    CapacityOverflow,
    /// The key image is too short for its capacity.
    KeyFileTooSmall { len: u64, capacity: u64, need: u64 },
    /// The value write position lies past the value image.
    WritePosPastEnd { pos: u64, val_len: u64 },
    /// A slot's offset and length add up past the largest offset.
    SlotOverflow,
    /// A slot's blob ends past the value write position.
    SlotPastEnd { slot: u64, offset: u64, end: u64, write_pos: u64 },
    /// A blob is not an archived container.
    CorruptBlob { key: u128 },
}

/// What is wrong with slot `i` or a later one.
pub open spec fn slot_error(key: Seq<u8>, write_pos: u64, cap: int, i: int) -> Option<StoreError>
    decreases cap - i,
{
    if i >= cap {
        None
    } else {
        let s = layout::slot_at(key, i);
        if s.state == STATE_OCCUPIED && s.offset + s.len > u64::MAX {
            Some(StoreError::SlotOverflow)
        } else if s.state == STATE_OCCUPIED && s.offset + s.len > write_pos {
            Some(
                StoreError::SlotPastEnd { slot: i as u64, offset: s.offset, end: (s.offset + s.len) as u64, write_pos },
            )
        } else {
            slot_error(key, write_pos, cap, i + 1)
        }
    }
}

/// The first thing wrong with a pair of images, if any.
pub open spec fn open_error(key: Seq<u8>, val_len: nat) -> Option<StoreError> {
    let h = layout::header_at(key);
    let need = h.capacity * SLOT_SIZE + HEADER_SIZE;
    if key.len() < HEADER_SIZE {
        Some(StoreError::ShortKeyFile)
    } else if layout::magic_at(key) != layout::MAGIC {
        Some(StoreError::BadMagic { magic: layout::magic_at(key) })
    } else if layout::version_at(key) != layout::VERSION {
        Some(StoreError::UnsupportedVersion { version: layout::version_at(key) })
    } else if !region::is_pow2(h.capacity as int) {
        Some(StoreError::BadCapacity { capacity: h.capacity })
    } else if need > u64::MAX {
        Some(StoreError::CapacityOverflow)
    } else if key.len() < need {
        Some(StoreError::KeyFileTooSmall { len: key.len() as u64, capacity: h.capacity, need: need as u64 })
    } else if h.value_write_pos > val_len {
        Some(StoreError::WritePosPastEnd { pos: h.value_write_pos, val_len: val_len as u64 })
    } else {
        slot_error(key, h.value_write_pos, h.capacity as int, 0)
    }
}

/// The slots of a key image of `cap` slots.
pub open spec fn table_of(key: Seq<u8>, cap: int) -> Seq<Slot> {
    Seq::new(cap as nat, |i: int| layout::slot_at(key, i))
}

/// A pair of images that reads stay inside of.
pub open spec fn image_ok(key: Seq<u8>, val_len: nat) -> bool {
    let h = layout::header_at(key);
    &&& key.len() >= HEADER_SIZE
    &&& layout::magic_at(key) == layout::MAGIC
    &&& layout::version_at(key) == layout::VERSION
    &&& region::is_pow2(h.capacity as int)
    &&& layout::slot_pos(h.capacity as int) <= key.len()
    &&& h.value_write_pos <= val_len
    &&& forall|i: int|
        0 <= i < h.capacity && (#[trigger] layout::slot_at(key, i)).state == STATE_OCCUPIED ==> layout::slot_at(
            key,
            i,
        ).offset + layout::slot_at(key, i).len <= h.value_write_pos
}

proof fn lemma_slot_error(key: Seq<u8>, write_pos: u64, cap: int, i: int)
    requires
        0 <= i,
    ensures
        slot_error(key, write_pos, cap, i) is None <==> forall|j: int|
            i <= j < cap && (#[trigger] layout::slot_at(key, j)).state == STATE_OCCUPIED ==> layout::slot_at(
                key,
                j,
            ).offset + layout::slot_at(key, j).len <= write_pos,
    decreases cap - i,
{
    if i < cap {
        lemma_slot_error(key, write_pos, cap, i + 1);
        let s = layout::slot_at(key, i);
    }
}

/// Images pass the opening check exactly when reads stay inside of them.
pub proof fn lemma_open_error(key: Seq<u8>, val_len: nat)
    requires
        key.len() <= u64::MAX,
    ensures
        open_error(key, val_len) is None <==> image_ok(key, val_len),
{
    let h = layout::header_at(key);
    lemma_slot_error(key, h.value_write_pos, h.capacity as int, 0);
}

/// Check a pair of images before any read relies on them.
///
/// A capacity of zero, a table larger than its region or a blob past the value
/// region would otherwise turn into reads out of bounds.
pub fn validate_open(key: &[u8], val_len: usize) -> (r: Result<(), StoreError>)
    ensures
        match r {
            Ok(_) => open_error(key@, val_len as nat) is None,
            Err(e) => open_error(key@, val_len as nat) == Some(e),
        },
{
    if key.len() < HEADER_SIZE {
        return Err(StoreError::ShortKeyFile);
    }
    let magic: u64 = get_u64(key, 0);
    if magic != layout::MAGIC {
        return Err(StoreError::BadMagic { magic });
    }
    let version: u32 = get_u32(key, 8);
    if version != layout::VERSION {
        return Err(StoreError::UnsupportedVersion { version });
    }
    let h: Header = read_header(key);
    if !is_power_of_two(h.capacity) {
        return Err(StoreError::BadCapacity { capacity: h.capacity });
    }
    if h.capacity > (u64::MAX - HEADER_SIZE as u64) / SLOT_SIZE as u64 {
        return Err(StoreError::CapacityOverflow);
    }
    let need: u64 = h.capacity * SLOT_SIZE as u64 + HEADER_SIZE as u64;
    if (key.len() as u64) < need {
        return Err(StoreError::KeyFileTooSmall { len: key.len() as u64, capacity: h.capacity, need });
    }
    if h.value_write_pos > val_len as u64 {
        return Err(StoreError::WritePosPastEnd { pos: h.value_write_pos, val_len: val_len as u64 });
    }
    let cap: usize = h.capacity as usize;
    let mut i: usize = 0;
    while i < cap
        invariant
            i <= cap,
            layout::slot_pos(cap as int) <= key@.len(),
            open_error(key@, val_len as nat) == slot_error(
                key@,
                h.value_write_pos,
                cap as int,
                i as int,
            ),
        decreases cap - i,
    {
        let s: Slot = read_slot(key, i);
        if s.state == STATE_OCCUPIED {
            if s.offset > u64::MAX - s.len as u64 {
                return Err(StoreError::SlotOverflow);
            }
            let end: u64 = s.offset + s.len as u64;
            if end > h.value_write_pos {
                return Err(
                    StoreError::SlotPastEnd { slot: i as u64, offset: s.offset, end, write_pos: h.value_write_pos },
                );
            }
        }
        i = i + 1;
    }
    Ok(())
}

/// The hash that places a key.
pub fn hash_key(key: u128) -> (h: u64)
    ensures
        h == table::key_hash(key),
{
    let lo: u64 = (key % 0x1_0000_0000_0000_0000) as u64;
    let hi: u64 = (key / 0x1_0000_0000_0000_0000) as u64;
    let spun_hi: u64 = (hi << 17u64) | (hi >> 47u64);
    let spun_lo: u64 = (lo << 51u64) | (lo >> 13u64);
    lo.wrapping_add(spun_hi).wrapping_mul(0x9e3779b97f4a7c15).wrapping_add(hi ^ spun_lo)
}

/// The image that stands for a file's contents; an empty file counts as zeros.
pub fn opened_image(contents: Vec<u8>) -> (image: Vec<u8>)
    ensures
        image@ == opened(contents@),
{
    if contents.len() == 0 {
        return zeros(INITIAL_KEY_SIZE);
    }
    contents
}

/// What an opened file's image is.
pub open spec fn opened(contents: Seq<u8>) -> Seq<u8> {
    if contents.len() == 0 {
        layout::zero_bytes(INITIAL_KEY_SIZE as nat)
    } else {
        contents
    }
}

/// An entry's blob and recorded cardinality.
pub open spec fn entry_of(val: Seq<u8>, s: Slot) -> (Seq<u8>, u32) {
    (val.subrange(s.offset as int, s.offset + s.len), s.card)
}

/// The archived blob is that of `c`.
pub open spec fn stored_as(blob: Seq<u8>, c: Container) -> bool {
    c.wf() && archive::unarchived_words(blob) == Some(c.frame())
}

/// A map from keys to containers in two byte regions.
pub struct ContainerStore {
    key: Vec<u8>,
    val: Vec<u8>,
}

impl ContainerStore {
    /// Bytes of the key region.
    pub closed spec fn key_bytes(&self) -> Seq<u8> {
        self.key@
    }

    /// Bytes of the value region.
    pub closed spec fn val_bytes(&self) -> Seq<u8> {
        self.val@
    }

    /// The header's counters.
    pub open spec fn hdr(&self) -> Header {
        layout::header_at(self.key_bytes())
    }

    /// The slots.
    pub open spec fn slots(&self) -> Seq<Slot> {
        table_of(self.key_bytes(), self.hdr().capacity as int)
    }

    /// The images pass the opening check.
    pub open spec fn valid(&self) -> bool {
        image_ok(self.key_bytes(), self.val_bytes().len())
    }

    /// The blob and cardinality of every key.
    pub open spec fn entries(&self) -> Map<u128, (Seq<u8>, u32)> {
        Map::new(
            |k: u128| table::lookup(self.slots(), k) is Some,
            |k: u128| entry_of(self.val_bytes(), self.slots()[table::lookup(self.slots(), k)->0]),
        )
    }

    /// Every entry is found by its key, and the counters count the entries and the
    /// tombstones.
    pub open spec fn wf(&self) -> bool {
        &&& self.valid()
        &&& table::table_wf(self.slots())
        &&& self.hdr().count == table::tally(self.slots(), table::live())
        &&& self.hdr().cardinality == table::tally(self.slots(), table::live_cards())
        &&& self.hdr().tombstone_count == table::tally(self.slots(), table::tombstones())
        &&& (self.hdr().count + self.hdr().tombstone_count) * 10 <= self.hdr().capacity * 7 + 10
    }

    /// One more entry fits the machine's address space and the counters.
    pub open spec fn has_room(&self) -> bool {
        &&& layout::slot_pos(2 * self.hdr().capacity) <= usize::MAX / 2
        &&& self.hdr().value_write_pos + VALUE_ALIGNMENT + MAX_BLOB <= usize::MAX / 2
        &&& self.hdr().cardinality + 65536 <= u64::MAX
    }

    /// More than seven tenths of the slots are used.
    pub open spec fn full(&self) -> bool {
        (self.hdr().count + self.hdr().tombstone_count) * 10 > self.hdr().capacity * 7
    }

    /// A new entry for `key` takes the place of a tombstone.
    pub open spec fn reuses(&self, key: u128) -> bool {
        table::reuses(self.slots(), key)
    }

    /// The recorded cardinality of `key`, or 0.
    pub open spec fn recorded(&self, key: u128) -> u32 {
        if self.entries().dom().contains(key) {
            self.entries()[key].1
        } else {
            0
        }
    }

    /// The recorded cardinality of `key`, if it has an entry, is that of the container
    /// in its blob.
    pub open spec fn counted_at(&self, key: u128) -> bool {
        self.entries().dom().contains(key) ==> exists|c: Container| #[trigger]
            stored_as(self.entries()[key].0, c) && c@.len() == self.entries()[key].1
    }

    /// Every entry records the cardinality of the container in its blob.
    pub open spec fn counted(&self) -> bool {
        forall|k: u128| #[trigger] self.counted_at(k)
    }

    /// The blob of `key`, if it has one, is an archived container.
    pub open spec fn readable(&self, key: u128) -> bool {
        self.entries().dom().contains(key) ==> exists|c: Container| #[trigger]
            stored_as(self.entries()[key].0, c)
    }

    /// An empty store.
    pub fn new_anon() -> (s: Self)
        ensures
            s.wf(),
            s.counted(),
            s.entries() == Map::<u128, (Seq<u8>, u32)>::empty(),
            s.hdr() == (Header {
                capacity: INITIAL_CAPACITY as u64,
                count: 0,
                tombstone_count: 0,
                cardinality: 0,
                value_write_pos: 0,
            }),
            s.key_bytes().len() == INITIAL_KEY_SIZE,
            s.val_bytes() == layout::zero_bytes(INITIAL_VAL_SIZE as nat),
    {
        let mut key: Vec<u8> = zeros(INITIAL_KEY_SIZE);
        let ghost blank = key@;
        init_header(&mut key, INITIAL_CAPACITY);
        let val: Vec<u8> = zeros(INITIAL_VAL_SIZE);
        let s: ContainerStore = ContainerStore { key, val };
        proof {
            let h = Header {
                capacity: INITIAL_CAPACITY as u64,
                count: 0,
                tombstone_count: 0,
                cardinality: 0,
                value_write_pos: 0,
            };
            layout::lemma_write_header(blank, h);
            assert(region::is_pow2(16)) by {
                reveal_with_fuel(region::is_pow2, 6);
            }
            let t = s.slots();
            assert forall|i: int| 0 <= i < t.len() implies (#[trigger] t[i]).state == STATE_EMPTY by {
                assert(layout::slot_at(s.key@, i) == layout::slot_at(blank, i));
            }
            assert forall|i: int| 0 <= i < 16 implies (#[trigger] layout::slot_at(s.key@, i)).state
                == STATE_EMPTY by {
                assert(t[i].state == STATE_EMPTY);
            }
            table::lemma_empty(t);
            assert(s.entries() =~= Map::<u128, (Seq<u8>, u32)>::empty()) by {
                assert forall|k: u128| table::lookup(t, k) is None by {
                    assert(!table::entries(t).dom().contains(k));
                }
            }
        }
        s
    }

    /// Adopt the contents of a key file and a value file.
    pub fn open(key_file: Vec<u8>, val_file: Vec<u8>) -> (r: Result<Self, StoreError>)
        ensures
            match r {
                Ok(s) => {
                    &&& open_error(opened(key_file@), opened(val_file@).len()) is None
                    &&& s.key_bytes() == opened(key_file@)
                    &&& s.val_bytes() == opened(val_file@)
                    &&& s.valid()
                },
                Err(e) => open_error(opened(key_file@), opened(val_file@).len()) == Some(e),
            },
    {
        let key: Vec<u8> = opened_image(key_file);
        let val: Vec<u8> = opened_image(val_file);
        match validate_open(key.as_slice(), val.len()) {
            Ok(_) => {
                proof {
                    assert(key.len() <= u64::MAX);
                    lemma_open_error(key@, val@.len());
                }
                Ok(ContainerStore { key, val })
            },
            Err(e) => Err(e),
        }
    }

    /// The key region, as a file would hold it.
    pub fn key_image(&self) -> (image: &[u8])
        ensures
            image@ == self.key_bytes(),
    {
        self.key.as_slice()
    }

    /// The value region, as a file would hold it.
    pub fn val_image(&self) -> (image: &[u8])
        ensures
            image@ == self.val_bytes(),
    {
        self.val.as_slice()
    }

    pub fn header(&self) -> (h: Header)
        requires
            self.valid(),
        ensures
            h == self.hdr(),
    {
        read_header(self.key.as_slice())
    }

    /// Values over all entries.
    pub fn cardinality(&self) -> (n: usize)
        requires
            self.valid(),
            self.hdr().cardinality <= usize::MAX,
        ensures
            n == self.hdr().cardinality,
            self.wf() ==> n == table::tally(self.slots(), table::live_cards()),
    {
        self.header().cardinality as usize
    }

    /// Number of entries.
    pub fn count(&self) -> (n: usize)
        requires
            self.valid(),
            self.hdr().count <= usize::MAX,
        ensures
            n == self.hdr().count,
            self.wf() ==> n == table::tally(self.slots(), table::live()),
    {
        self.header().count as usize
    }

    /// The slot of `key` and whether it holds it; if not, where it would go.
    fn probe(&self, key: u128) -> (r: (usize, bool))
        requires
            self.valid(),
        ensures
            r.0 < self.hdr().capacity,
            r.1 == (table::lookup(self.slots(), key) is Some),
            r.1 ==> table::found_at(self.slots(), key, r.0 as int) && table::lookup(self.slots(), key) == Some(
                r.0 as int,
            ),
            !r.1 ==> table::insertion_at(self.slots(), key, r.0 as int),
    {
        let cap64: u64 = self.header().capacity;
        assert(cap64 >= 1);
        assert(layout::slot_pos(cap64 as int) <= self.key.len());
        let cap: usize = cap64 as usize;
        let start: usize = (hash_key(key) % cap64) as usize;
        let ghost t = self.slots();
        proof {
            table::lemma_home(key, cap as int);
        }
        let mut first_tombstone: Option<usize> = None;
        let mut i: usize = start;
        let mut n: usize = 0;
        while n < cap
            invariant
                n <= cap,
                1 <= cap,
                t == self.slots(),
                t.len() == cap,
                self.valid(),
                cap == self.hdr().capacity,
                start == table::home(key, cap as int),
                start < cap,
                i < cap,
                i == (if n == cap {
                    start as int
                } else {
                    table::ring(cap as int, start as int, n as int)
                }),
                table::passes(t, key, n as int),
                match first_tombstone {
                    None => forall|m: int| 0 <= m < n ==> !table::vacant(#[trigger] table::probed(t, key, m)),
                    Some(j) => {
                        &&& j < cap
                        &&& table::vacant(t[j as int])
                        &&& table::ring_steps(cap as int, start as int, j as int) < n
                        &&& forall|m: int|
                            0 <= m < table::ring_steps(cap as int, start as int, j as int) ==> !table::vacant(
                                #[trigger] table::probed(t, key, m),
                            )
                    },
                },
            decreases cap - n,
        {
            assert(layout::slot_pos(i + 1) <= layout::slot_pos(cap as int));
            let s: Slot = read_slot(self.key.as_slice(), i);
            proof {
                table::lemma_ring(cap as int, start as int, n as int);
                assert(s == t[i as int]);
                assert(s == table::probed(t, key, n as int));
            }
            if s.state == STATE_EMPTY {
                proof {
                    lemma_stopped(t, key, n as int);
                }
                return match first_tombstone {
                    Some(j) => (j, false),
                    None => (i, false),
                };
            }
            if s.state == STATE_OCCUPIED && s.key == key {
                proof {
                    assert(table::found_at(t, key, i as int));
                    table::lemma_lookup(t, key, i as int);
                }
                return (i, true);
            }
            if s.state == STATE_TOMBSTONE {
                if first_tombstone.is_none() {
                    first_tombstone = Some(i);
                }
            }
            i = if i + 1 == cap {
                0
            } else {
                i + 1
            };
            n = n + 1;
        }
        proof {
            lemma_stopped(t, key, n as int);
            if first_tombstone is None {
                assert forall|j: int| 0 <= j < cap implies !table::vacant(#[trigger] t[j]) by {
                    table::lemma_ring(cap as int, start as int, j);
                    assert(!table::vacant(
                        table::probed(t, key, table::ring_steps(cap as int, start as int, j)),
                    ));
                }
            }
        }
        match first_tombstone {
            Some(j) => (j, false),
            None => (start, false),
        }
    }

    /// True if the key has an entry.
    pub fn contains_key(&self, key: u128) -> (found: bool)
        requires
            self.valid(),
        ensures
            found == self.entries().dom().contains(key),
    {
        self.probe(key).1
    }

    fn needs_rehash(&self) -> (full: bool)
        requires
            self.wf(),
        ensures
            full == self.full(),
    {
        let h: Header = self.header();
        assert(h.capacity * 48 + 64 <= self.key.len());
        let used: u64 = h.count + h.tombstone_count;
        used * 10 > h.capacity * 7
    }

    /// Double the table and place every entry anew; tombstones go.
    #[verifier::spinoff_prover]
    #[verifier::rlimit(60)]
    pub fn rehash(&mut self)
        requires
            old(self).wf(),
            layout::slot_pos(2 * old(self).hdr().capacity) <= usize::MAX / 2,
        ensures
            final(self).wf(),
            final(self).val_bytes() == old(self).val_bytes(),
            final(self).hdr() == (Header {
                capacity: (2 * old(self).hdr().capacity) as u64,
                tombstone_count: 0,
                ..old(self).hdr()
            }),
            table::entries(final(self).slots()) == table::entries(old(self).slots()),
            final(self).entries() == old(self).entries(),
            old(self).counted() ==> final(self).counted(),
    {
        let h: Header = self.header();
        assert(layout::slot_pos(h.capacity as int) <= self.key.len());
        let old_cap: usize = h.capacity as usize;
        let new_cap: usize = old_cap * 2;
        let new_key_size: usize = HEADER_SIZE + new_cap * SLOT_SIZE;
        let ghost t = self.slots();
        let list: Vec<Slot> = live_slots(self.key.as_slice(), old_cap);

        ensure_capacity(&mut self.key, new_key_size);
        put_zeros(&mut self.key, HEADER_SIZE, new_cap * SLOT_SIZE);
        let ghost blank = self.key@;
        let cleared: Header = Header {
            capacity: new_cap as u64,
            count: 0,
            tombstone_count: 0,
            cardinality: h.cardinality,
            value_write_pos: h.value_write_pos,
        };
        write_header(&mut self.key, &cleared);
        proof {
            layout::lemma_write_header(blank, cleared);
            lemma_table_header(blank, new_cap as int, cleared);
            let fresh = table_of(blank, new_cap as int);
            assert forall|i: int| 0 <= i < fresh.len() implies (#[trigger] fresh[i]).state == STATE_EMPTY by {
                assert(layout::slot_pos(i + 1) <= layout::slot_pos(new_cap as int));
                assert(blank[layout::slot_pos(i)] == 0);
            }
            table::lemma_empty(fresh);
            table::lemma_live_bound(t);
            assert(list@.take(0) =~= Seq::<Slot>::empty());
        }

        let mut e: usize = 0;
        while e < list.len()
            invariant
                e <= list@.len(),
                list@.len() <= old_cap,
                old_cap < new_cap,
                table::table_wf(t),
                lists_live(list@, t),
                self.val@ == old(self).val@,
                layout::slot_pos(new_cap as int) <= self.key@.len(),
                layout::header_at(self.key@) == cleared,
                layout::magic_at(self.key@) == layout::MAGIC,
                layout::version_at(self.key@) == layout::VERSION,
                table::table_wf(table_of(self.key@, new_cap as int)),
                table::tally(table_of(self.key@, new_cap as int), table::live()) == e,
                table::tally(table_of(self.key@, new_cap as int), table::live_cards()) == table::tally(
                    list@.take(e as int),
                    table::live_cards(),
                ),
                forall|i: int|
                    0 <= i < new_cap ==> (#[trigger] table_of(self.key@, new_cap as int)[i]).state == STATE_EMPTY || (
                    table_of(self.key@, new_cap as int)[i].state == STATE_OCCUPIED && list@.contains(
                        table_of(self.key@, new_cap as int)[i],
                    )),
                forall|k: u128|
                    table::entries(table_of(self.key@, new_cap as int)).dom().contains(k) <==> exists|x: int|
                        0 <= x < e && (#[trigger] list@[x]).key == k,
                forall|x: int|
                    0 <= x < e ==> table::entries(table_of(self.key@, new_cap as int))[(#[trigger] list@[x]).key]
                        == list@[x],
            decreases list@.len() - e,
        {
            let ghost before = table_of(self.key@, new_cap as int);
            let slot: Slot = list[e];
            proof {
                assert(!table::entries(before).dom().contains(slot.key));
                assert(list@.take(e + 1).drop_last() =~= list@.take(e as int));
                assert(list@[e as int].state == STATE_OCCUPIED);
            }
            place(&mut self.key, new_cap, &slot);
            proof {
                let after = table_of(self.key@, new_cap as int);
                assert forall|k: u128|
                    table::entries(after).dom().contains(k) <==> exists|x: int|
                        0 <= x < e + 1 && (#[trigger] list@[x]).key == k by {
                    if exists|x: int| 0 <= x < e && (#[trigger] list@[x]).key == k {
                        let x = choose|x: int| 0 <= x < e && (#[trigger] list@[x]).key == k;
                        assert(0 <= x < e + 1 && list@[x].key == k);
                    }
                    if k == slot.key {
                        assert(list@[e as int].key == k);
                    }
                }
                let j = choose|j: int|
                    0 <= j < new_cap && before[j].state == STATE_EMPTY && #[trigger] before.update(j, slot) == after;
                assert forall|i: int| 0 <= i < new_cap implies (#[trigger] after[i]).state == STATE_EMPTY || (
                after[i].state == STATE_OCCUPIED && list@.contains(after[i])) by {
                    if i != j {
                        assert(after[i] == before[i]);
                    } else {
                        assert(after[i] == list@[e as int]);
                    }
                }
            }
            e = e + 1;
        }
        assert(list@.take(e as int) =~= list@);
        let counted: Header = Header { count: list.len() as u64, ..cleared };
        let ghost filled = self.key@;
        write_header(&mut self.key, &counted);
        proof {
            layout::lemma_write_header(filled, counted);
            lemma_table_header(filled, new_cap as int, counted);
            let u = table_of(filled, new_cap as int);
            assert(self.slots() == u);
            assert((2 * old_cap as int) / 2 == old_cap);
            assert(region::is_pow2(new_cap as int));
            assert forall|i: int| 0 <= i < new_cap && (#[trigger] layout::slot_at(self.key@, i)).state
                == STATE_OCCUPIED implies layout::slot_at(self.key@, i).offset + layout::slot_at(self.key@, i).len
                <= h.value_write_pos by {
                assert(u[i] == layout::slot_at(self.key@, i));
                assert(list@.contains(u[i]));
                let e = choose|e: int| 0 <= e < list@.len() && list@[e] == u[i];
                assert(t.contains(list@[e]));
                let b = choose|b: int| 0 <= b < t.len() && t[b] == list@[e];
                assert(layout::slot_at(old(self).key@, b) == t[b]);
            }
            assert forall|k: u128| #[trigger]
                table::entries(u).dom().contains(k) == table::entries(t).dom().contains(k) by {
                lemma_lists_entries(list@, t, k);
            }
            assert forall|k: u128| table::entries(u).dom().contains(k) implies #[trigger] table::entries(u)[k]
                == table::entries(t)[k] by {
                lemma_lists_entries(list@, t, k);
                let x = choose|x: int| 0 <= x < list@.len() && (#[trigger] list@[x]).key == k;
                assert(table::entries(u)[list@[x].key] == list@[x]);
            }
            assert(table::entries(u) =~= table::entries(t));
            table::lemma_tally_zero(u, table::tombstones());
            lemma_entries_table(*old(self));
            lemma_entries_table(*self);
            assert(self.entries() =~= old(self).entries());
            lemma_counted_alike(*old(self), *self);
        }
    }

    /// Insert or replace the container of `key`; true if the key is new.
    #[verifier::spinoff_prover]
    #[verifier::rlimit(60)]
    pub fn upsert(&mut self, key: u128, container: &Container) -> (is_new: bool)
        requires
            old(self).wf(),
            old(self).has_room(),
            container.wf(),
        ensures
            final(self).wf(),
            is_new == !old(self).entries().dom().contains(key),
            final(self).entries() == old(self).entries().insert(
                key,
                (archive::archived_words(container.frame()), container@.len() as u32),
            ),
            stored_as(final(self).entries()[key].0, *container),
            final(self).hdr() == (Header {
                capacity: if old(self).full() {
                    (2 * old(self).hdr().capacity) as u64
                } else {
                    old(self).hdr().capacity
                },
                count: (old(self).hdr().count + if is_new {
                    1int
                } else {
                    0int
                }) as u64,
                tombstone_count: if old(self).full() {
                    0
                } else if old(self).reuses(key) {
                    (old(self).hdr().tombstone_count - 1) as u64
                } else {
                    old(self).hdr().tombstone_count
                },
                cardinality: (old(self).hdr().cardinality + container@.len() - old(self).recorded(key)) as u64,
                value_write_pos: (region::aligned(
                    old(self).hdr().value_write_pos as int,
                    VALUE_ALIGNMENT as int,
                ) + 8 * container.frame().len() + 8) as u64,
            }),
            !old(self).full() && old(self).reuses(key) ==> old(self).hdr().tombstone_count > 0,
            old(self).counted() ==> final(self).counted(),
    {
        if self.needs_rehash() {
            self.rehash();
        }
        let ghost mid = *self;
        let words: Vec<u64> = container.to_words();
        let blob: Vec<u8> = archive_words(&words);
        let card: u32 = container.cardinality() as u32;
        let at: usize = self.append_blob(blob.as_slice());
        let slot: Slot = Slot { state: STATE_OCCUPIED, key, offset: at as u64, len: blob.len() as u32, card };
        let found: bool = self.write_entry(&slot);
        proof {
            lemma_entries_table(*old(self));
            lemma_entries_table(mid);
            assert(mid.entries().dom().contains(key) == old(self).entries().dom().contains(key));
            lemma_entries_after(*old(self), mid, *self, key, slot, blob@);
            if old(self).full() {
                lemma_no_reuse(mid, key);
            }
            if old(self).counted() {
                lemma_counted_after(*old(self), *self, key, *container, card);
            }
        }
        !found
    }

    /// Append a blob at the next aligned offset of the value region.
    fn append_blob(&mut self, blob: &[u8]) -> (at: usize)
        requires
            old(self).wf(),
            blob@.len() <= MAX_BLOB,
            old(self).hdr().value_write_pos + VALUE_ALIGNMENT + MAX_BLOB <= usize::MAX / 2,
        ensures
            final(self).key_bytes() == old(self).key_bytes(),
            final(self).wf(),
            at == region::aligned(old(self).hdr().value_write_pos as int, VALUE_ALIGNMENT as int),
            old(self).hdr().value_write_pos <= at < old(self).hdr().value_write_pos + VALUE_ALIGNMENT,
            old(self).val_bytes().len() <= final(self).val_bytes().len(),
            at + blob@.len() <= final(self).val_bytes().len(),
            forall|k: int|
                0 <= k < at && k < old(self).val_bytes().len() ==> final(self).val_bytes()[k] == old(
                    self,
                ).val_bytes()[k],
            final(self).val_bytes().subrange(at as int, at + blob@.len()) == blob@,
    {
        let h: Header = self.header();
        let at: usize = align_up(h.value_write_pos as usize, VALUE_ALIGNMENT);
        ensure_capacity(&mut self.val, at + blob.len());
        let ghost grown = self.val@;
        put_bytes(&mut self.val, at, blob);
        proof {
            assert(self.val@.subrange(at as int, at + blob@.len()) =~= blob@);
            assert forall|k: int| 0 <= k < at && k < old(self).val@.len() implies self.val@[k] == old(
                self,
            ).val@[k] by {
                assert(grown.subrange(0, old(self).val@.len() as int)[k] == grown[k]);
            }
        }
        at
    }

    /// Write the slot of an appended blob; true if its key had an entry.
    #[verifier::spinoff_prover]
    #[verifier::rlimit(40)]
    fn write_entry(&mut self, slot: &Slot) -> (found: bool)
        requires
            old(self).wf(),
            (old(self).hdr().count + old(self).hdr().tombstone_count) * 10 <= old(self).hdr().capacity * 7,
            old(self).hdr().cardinality + 65536 <= u64::MAX,
            slot.state == STATE_OCCUPIED,
            slot.card <= 65536,
            old(self).hdr().value_write_pos <= slot.offset,
            slot.offset + slot.len <= old(self).val_bytes().len(),
        ensures
            final(self).wf(),
            final(self).val_bytes() == old(self).val_bytes(),
            found == (table::lookup(old(self).slots(), slot.key) is Some),
            table::entries(final(self).slots()) == table::entries(old(self).slots()).insert(slot.key, *slot),
            final(self).hdr() == (Header {
                capacity: old(self).hdr().capacity,
                count: (old(self).hdr().count + if found {
                    0int
                } else {
                    1int
                }) as u64,
                tombstone_count: (old(self).hdr().tombstone_count - if old(self).reuses(slot.key) {
                    1int
                } else {
                    0int
                }) as u64,
                cardinality: (old(self).hdr().cardinality + slot.card - old(self).recorded(slot.key)) as u64,
                value_write_pos: (slot.offset + slot.len) as u64,
            }),
            old(self).reuses(slot.key) ==> old(self).hdr().tombstone_count > 0,
    {
        let ghost t = self.slots();
        let h: Header = self.header();
        let ghost cap = h.capacity as int;
        assert(layout::slot_pos(cap) <= self.key.len());
        assert(slot.offset + slot.len <= self.val.len());
        let (idx, found): (usize, bool) = self.probe(slot.key);
        assert(layout::slot_pos(idx + 1) <= layout::slot_pos(cap));
        let taken: Slot = read_slot(self.key.as_slice(), idx);
        let old_card: u32 = if found {
            taken.card
        } else {
            0
        };
        let reused: bool = taken.state == STATE_TOMBSTONE;
        proof {
            assert(taken == t[idx as int]);
            lemma_slot_written(t, idx as int, *slot, found);
            assert(old_card == table::live_cards()(t[idx as int]));
            lemma_entries_table(*self);
            assert(old_card == self.recorded(slot.key));
        }
        let next: Header = Header {
            capacity: h.capacity,
            count: if found {
                h.count
            } else {
                h.count + 1
            },
            tombstone_count: if reused {
                h.tombstone_count - 1
            } else {
                h.tombstone_count
            },
            cardinality: h.cardinality + slot.card as u64 - old_card as u64,
            value_write_pos: slot.offset + slot.len as u64,
        };
        write_slot(&mut self.key, idx, slot);
        let ghost slotted = self.key@;
        write_header(&mut self.key, &next);
        proof {
            let u = t.update(idx as int, *slot);
            layout::lemma_write_slot(old(self).key@, idx as int, *slot);
            lemma_table_write(old(self).key@, cap, idx as int, *slot);
            layout::lemma_write_header(slotted, next);
            lemma_table_header(slotted, cap, next);
            assert(self.slots() == u);
            assert forall|i: int| 0 <= i < cap && (#[trigger] layout::slot_at(self.key@, i)).state
                == STATE_OCCUPIED implies layout::slot_at(self.key@, i).offset + layout::slot_at(self.key@, i).len
                <= slot.offset + slot.len by {
                assert(u[i] == layout::slot_at(self.key@, i));
                assert(t[i] == layout::slot_at(old(self).key@, i));
            }
        }
        found
    }

    /// Remove the entry of `key`; gives its recorded cardinality, or 0.
    pub fn remove_key(&mut self, key: u128) -> (card: u32)
        requires
            old(self).wf(),
        ensures
            final(self).wf(),
            final(self).entries() == old(self).entries().remove(key),
            card == old(self).recorded(key),
            !old(self).entries().dom().contains(key) ==> *final(self) == *old(self),
            old(self).entries().dom().contains(key) ==> final(self).hdr() == (Header {
                count: (old(self).hdr().count - 1) as u64,
                tombstone_count: (old(self).hdr().tombstone_count + 1) as u64,
                cardinality: (old(self).hdr().cardinality - card) as u64,
                ..old(self).hdr()
            }),
            old(self).entries().dom().contains(key) ==> final(self).reuses(key),
            old(self).counted() ==> final(self).counted(),
    {
        let ghost t = self.slots();
        let (idx, found): (usize, bool) = self.probe(key);
        if !found {
            assert(self.entries().remove(key) =~= self.entries());
            return 0;
        }
        let h: Header = self.header();
        let ghost cap = h.capacity as int;
        assert(layout::slot_pos(cap) <= self.key.len());
        assert(layout::slot_pos(idx + 1) <= layout::slot_pos(cap));
        let slot: Slot = read_slot(self.key.as_slice(), idx);
        let old_card: u32 = slot.card;
        let ghost gone = Slot { state: STATE_TOMBSTONE, ..slot };
        proof {
            table::lemma_lookup(t, key, idx as int);
            table::lemma_remove(t, key, idx as int, gone);
            table::lemma_tally_update(t, idx as int, gone, table::live());
            table::lemma_tally_update(t, idx as int, gone, table::live_cards());
            table::lemma_tally_update(t, idx as int, gone, table::tombstones());
            table::lemma_removed_is_reused(t, key, idx as int, gone);
            table::lemma_tally_ge(t, idx as int, table::live());
            table::lemma_tally_ge(t, idx as int, table::live_cards());
            layout::lemma_write_state(self.key@, idx as int, STATE_TOMBSTONE);
        }
        let at: usize = slot_byte_offset(idx);
        self.key[at] = STATE_TOMBSTONE;
        let ghost marked = self.key@;
        let next: Header = Header {
            capacity: h.capacity,
            count: h.count - 1,
            tombstone_count: h.tombstone_count + 1,
            cardinality: h.cardinality.saturating_sub(old_card as u64),
            value_write_pos: h.value_write_pos,
        };
        write_header(&mut self.key, &next);
        proof {
            let u = t.update(idx as int, gone);
            assert(table_of(marked, cap) =~= u) by {
                assert forall|j: int| 0 <= j < cap implies table_of(marked, cap)[j] == u[j] by {
                    assert(layout::slot_pos(j + 1) <= layout::slot_pos(cap));
                    if j != idx {
                        assert(layout::slot_at(marked, j) == layout::slot_at(old(self).key@, j));
                    }
                }
            }
            layout::lemma_write_header(marked, next);
            lemma_table_header(marked, cap, next);
            assert(self.slots() == u);
            assert forall|i: int| 0 <= i < cap && (#[trigger] layout::slot_at(self.key@, i)).state
                == STATE_OCCUPIED implies layout::slot_at(self.key@, i).offset + layout::slot_at(self.key@, i).len
                <= h.value_write_pos by {
                assert(u[i] == layout::slot_at(self.key@, i));
                assert(t[i] == layout::slot_at(old(self).key@, i));
            }
            lemma_entries_table(*self);
            lemma_entries_table(*old(self));
            assert(self.entries() =~= old(self).entries().remove(key));
            if old(self).counted() {
                lemma_counted_removed(*old(self), *self, key);
            }
        }
        old_card
    }

    /// Remove all entries; the table keeps its capacity.
    pub fn clear(&mut self)
        requires
            old(self).valid(),
        ensures
            final(self).wf(),
            final(self).counted(),
            final(self).entries() == Map::<u128, (Seq<u8>, u32)>::empty(),
            final(self).val_bytes() == old(self).val_bytes(),
            final(self).hdr() == (Header {
                capacity: old(self).hdr().capacity,
                count: 0,
                tombstone_count: 0,
                cardinality: 0,
                value_write_pos: 0,
            }),
    {
        let h: Header = self.header();
        assert(layout::slot_pos(h.capacity as int) <= self.key.len());
        let cap: usize = h.capacity as usize;
        put_zeros(&mut self.key, 0, HEADER_SIZE + cap * SLOT_SIZE);
        let ghost blank = self.key@;
        init_header(&mut self.key, cap);
        proof {
            let cleared = Header {
                capacity: cap as u64,
                count: 0,
                tombstone_count: 0,
                cardinality: 0,
                value_write_pos: 0,
            };
            layout::lemma_write_header(blank, cleared);
            lemma_table_header(blank, cap as int, cleared);
            let fresh = table_of(blank, cap as int);
            assert forall|i: int| 0 <= i < fresh.len() implies (#[trigger] fresh[i]).state == STATE_EMPTY by {
                assert(layout::slot_pos(i + 1) <= layout::slot_pos(cap as int));
                assert(blank[layout::slot_pos(i)] == 0);
            }
            assert forall|i: int| 0 <= i < cap implies (#[trigger] layout::slot_at(self.key@, i)).state
                == STATE_EMPTY by {
                assert(fresh[i].state == STATE_EMPTY);
                assert(self.slots()[i] == fresh[i]);
            }
            table::lemma_empty(fresh);
            lemma_entries_table(*self);
            assert(self.entries() =~= Map::<u128, (Seq<u8>, u32)>::empty());
        }
    }

    /// The container that a slot's blob archives, if it does.
    fn read_blob(&self, s: &Slot) -> (r: Option<Container>)
        requires
            s.offset + s.len <= self.val_bytes().len(),
        ensures
            match r {
                Some(c) => stored_as(entry_of(self.val_bytes(), *s).0, c),
                None => forall|c: Container| !stored_as(entry_of(self.val_bytes(), *s).0, c),
            },
    {
        assert(s.offset + s.len <= self.val.len());
        let blob: &[u8] = vstd::slice::slice_subrange(
            self.val.as_slice(),
            s.offset as usize,
            s.offset as usize + s.len as usize,
        );
        match unarchive_words(blob) {
            Some(words) => {
                let r: Option<Container> = Container::from_words(words.as_slice());
                proof {
                    if r is None {
                        assert forall|c: Container| !stored_as(entry_of(self.val_bytes(), *s).0, c) by {
                            if c.wf() {
                                assert(c.frame() != words@);
                            }
                        }
                    }
                }
                r
            },
            None => None,
        }
    }

    /// The container of `key`, or none if it has no entry.
    pub fn get(&self, key: u128) -> (r: Option<Container>)
        requires
            self.valid(),
            self.readable(key),
        ensures
            match r {
                Some(c) => self.entries().dom().contains(key) && stored_as(self.entries()[key].0, c),
                None => !self.entries().dom().contains(key),
            },
    {
        let (idx, found): (usize, bool) = self.probe(key);
        if !found {
            return None;
        }
        assert(layout::slot_pos(idx + 1) <= layout::slot_pos(self.hdr().capacity as int));
        let s: Slot = read_slot(self.key.as_slice(), idx);
        proof {
            assert(self.slots()[idx as int] == s);
            table::lemma_lookup(self.slots(), key, idx as int);
            assert(layout::slot_at(self.key@, idx as int) == s);
        }
        self.read_blob(&s)
    }

    /// The occupied slots by increasing key.
    fn sorted_slots(&self) -> (out: Vec<Slot>)
        requires
            self.wf(),
        ensures
            lists_sorted(out@, self.slots()),
            out@.len() == self.hdr().count,
    {
        let ghost t = self.slots();
        assert(layout::slot_pos(self.hdr().capacity as int) <= self.key.len());
        let list: Vec<Slot> = live_slots(self.key.as_slice(), self.header().capacity as usize);
        let by = ByKey { list: &list };
        let order: Vec<usize> = sorted_positions(&by, list.len());
        let mut out: Vec<Slot> = Vec::new();
        let mut i: usize = 0;
        while i < order.len()
            invariant
                i <= order@.len(),
                is_permutation(order@, list@.len()),
                out@.len() == i,
                forall|k: int| 0 <= k < i ==> #[trigger] out@[k] == list@[order@[k] as int],
            decreases order@.len() - i,
        {
            out.push(list[order[i]]);
            i = i + 1;
        }
        proof {
            assert forall|a: int, b: int| 0 <= a < b < out@.len() implies (#[trigger] out@[a]).key < (
            #[trigger] out@[b]).key by {
                let (x, y) = (order@[a] as int, order@[b] as int);
                assert(order@[a] != order@[b]);
                assert(!by.before(y, x));
                if x < y {
                    assert(list@[x].key != list@[y].key);
                } else if y < x {
                    assert(list@[y].key != list@[x].key);
                }
            }
            assert forall|k: u128|
                table::entries(t).dom().contains(k) <==> exists|i: int|
                    0 <= i < out@.len() && (#[trigger] out@[i]).key == k by {
                lemma_lists_entries(list@, t, k);
                if table::entries(t).dom().contains(k) {
                    let e = choose|e: int| 0 <= e < list@.len() && (#[trigger] list@[e]).key == k;
                    assert(order@.contains(e as usize));
                    let i = choose|i: int| 0 <= i < order@.len() && order@[i] == e as usize;
                    assert(out@[i].key == k);
                }
                if exists|i: int| 0 <= i < out@.len() && (#[trigger] out@[i]).key == k {
                    let i = choose|i: int| 0 <= i < out@.len() && (#[trigger] out@[i]).key == k;
                    assert(list@[order@[i] as int].key == k);
                }
            }
            assert forall|i: int| 0 <= i < out@.len() implies (#[trigger] out@[i]).state == STATE_OCCUPIED
                && table::entries(t)[out@[i].key] == out@[i] by {
                lemma_lists_entries(list@, t, out@[i].key);
                assert(list@[order@[i] as int].key == out@[i].key);
            }
        }
        out
    }

    /// The key and cardinality of every entry, by increasing key.
    pub fn sorted_key_cards(&self) -> (out: Vec<(u128, u32)>)
        requires
            self.wf(),
        ensures
            out@.len() == self.hdr().count,
            forall|i: int, j: int| 0 <= i < j < out@.len() ==> (#[trigger] out@[i]).0 < (#[trigger] out@[j]).0,
            forall|k: u128|
                self.entries().dom().contains(k) <==> exists|i: int| 0 <= i < out@.len() && (#[trigger] out@[i]).0 == k,
            forall|i: int| 0 <= i < out@.len() ==> (#[trigger] out@[i]).1 == self.entries()[out@[i].0].1,
    {
        let slots: Vec<Slot> = self.sorted_slots();
        let mut out: Vec<(u128, u32)> = Vec::new();
        let mut i: usize = 0;
        while i < slots.len()
            invariant
                i <= slots@.len(),
                out@.len() == i,
                forall|k: int| 0 <= k < i ==> #[trigger] out@[k] == (slots@[k].key, slots@[k].card),
            decreases slots@.len() - i,
        {
            out.push((slots[i].key, slots[i].card));
            i = i + 1;
        }
        proof {
            lemma_entries_table(*self);
            assert forall|k: u128|
                self.entries().dom().contains(k) <==> exists|i: int|
                    0 <= i < out@.len() && (#[trigger] out@[i]).0 == k by {
                if self.entries().dom().contains(k) {
                    let i = choose|i: int| 0 <= i < slots@.len() && (#[trigger] slots@[i]).key == k;
                    assert(out@[i].0 == k);
                }
                if exists|i: int| 0 <= i < out@.len() && (#[trigger] out@[i]).0 == k {
                    let i = choose|i: int| 0 <= i < out@.len() && (#[trigger] out@[i]).0 == k;
                    assert(slots@[i].key == k);
                }
            }
            assert forall|i: int| 0 <= i < out@.len() implies (#[trigger] out@[i]).1 == self.entries()[out@[i].0].1 by {
                assert(slots@[i].key == out@[i].0);
                assert(table::entries(self.slots()).dom().contains(out@[i].0));
            }
        }
        out
    }

    /// The keys, increasing.
    pub fn sorted_keys(&self) -> (out: Vec<u128>)
        requires
            self.wf(),
        ensures
            out@.len() == self.hdr().count,
            forall|i: int, j: int| 0 <= i < j < out@.len() ==> #[trigger] out@[i] < #[trigger] out@[j],
            forall|k: u128|
                #![trigger self.entries().dom().contains(k)]
                #![trigger out@.contains(k)]
                self.entries().dom().contains(k) <==> out@.contains(k),
    {
        let slots: Vec<Slot> = self.sorted_slots();
        let mut out: Vec<u128> = Vec::new();
        let mut i: usize = 0;
        while i < slots.len()
            invariant
                i <= slots@.len(),
                out@.len() == i,
                forall|k: int| 0 <= k < i ==> #[trigger] out@[k] == slots@[k].key,
            decreases slots@.len() - i,
        {
            out.push(slots[i].key);
            i = i + 1;
        }
        proof {
            lemma_entries_table(*self);
            assert forall|k: u128| self.entries().dom().contains(k) <==> out@.contains(k) by {
                if self.entries().dom().contains(k) {
                    let i = choose|i: int| 0 <= i < slots@.len() && (#[trigger] slots@[i]).key == k;
                    assert(out@[i] == k);
                }
                if out@.contains(k) {
                    let i = choose|i: int| 0 <= i < out@.len() && out@[i] == k;
                    assert(slots@[i].key == k);
                }
            }
        }
        out
    }

    /// Every blob is an archived container.
    pub open spec fn intact(&self) -> bool {
        forall|k: u128| #[trigger] self.entries().dom().contains(k) ==> self.readable(k)
    }

    /// `list` holds every entry's key and container, by increasing key.
    pub open spec fn lists_entries(&self, list: Seq<(u128, Container)>) -> bool {
        &&& list.len() == self.hdr().count
        &&& forall|i: int, j: int| 0 <= i < j < list.len() ==> (#[trigger] list[i]).0 < (#[trigger] list[j]).0
        &&& forall|k: u128|
            self.entries().dom().contains(k) <==> exists|i: int| 0 <= i < list.len() && (#[trigger] list[i]).0 == k
        &&& forall|i: int| 0 <= i < list.len() ==> stored_as(self.entries()[(#[trigger] list[i]).0].0, list[i].1)
    }

    /// Every entry's key and container, by increasing key.
    pub fn sorted_entries(&self) -> (out: Vec<(u128, Container)>)
        requires
            self.wf(),
            self.intact(),
        ensures
            self.lists_entries(out@),
    {
        let keys: Vec<u128> = self.sorted_keys();
        let mut out: Vec<(u128, Container)> = Vec::new();
        let mut i: usize = 0;
        while i < keys.len()
            invariant
                i <= keys@.len(),
                out@.len() == i,
                self.valid(),
                self.intact(),
                forall|k: u128|
                    #![trigger self.entries().dom().contains(k)]
                    #![trigger keys@.contains(k)]
                    self.entries().dom().contains(k) <==> keys@.contains(k),
                forall|k: int| 0 <= k < i ==> (#[trigger] out@[k]).0 == keys@[k],
                forall|k: int| 0 <= k < i ==> stored_as(self.entries()[(#[trigger] out@[k]).0].0, out@[k].1),
            decreases keys@.len() - i,
        {
            let key: u128 = keys[i];
            assert(keys@.contains(key));
            match self.get(key) {
                Some(c) => {
                    out.push((key, c));
                },
                None => {
                    assert(false);
                },
            }
            i = i + 1;
        }
        proof {
            assert forall|k: u128|
                self.entries().dom().contains(k) <==> exists|i: int|
                    0 <= i < out@.len() && (#[trigger] out@[i]).0 == k by {
                if self.entries().dom().contains(k) {
                    let i = choose|i: int| 0 <= i < keys@.len() && keys@[i] == k;
                    assert(out@[i].0 == k);
                }
                if exists|i: int| 0 <= i < out@.len() && (#[trigger] out@[i]).0 == k {
                    let i = choose|i: int| 0 <= i < out@.len() && (#[trigger] out@[i]).0 == k;
                    assert(keys@[i] == k);
                }
            }
        }
        out
    }

    /// Every entry's key and container, by increasing key; or an error for the
    /// first key whose blob is not an archived container.
    pub fn try_sorted_entries(&self) -> (r: Result<Vec<(u128, Container)>, StoreError>)
        requires
            self.wf(),
        ensures
            match r {
                Ok(out) => self.intact() && self.lists_entries(out@),
                Err(e) => {
                    &&& e matches StoreError::CorruptBlob { key }
                    &&& self.entries().dom().contains(key)
                    &&& !self.readable(key)
                    &&& forall|k: u128| k < key ==> #[trigger] self.readable(k)
                },
            },
    {
        let keys: Vec<u128> = self.sorted_keys();
        let mut i: usize = 0;
        while i < keys.len()
            invariant
                i <= keys@.len(),
                self.wf(),
                forall|k: u128|
                    #![trigger self.entries().dom().contains(k)]
                    #![trigger keys@.contains(k)]
                    self.entries().dom().contains(k) <==> keys@.contains(k),
                forall|a: int, b: int| 0 <= a < b < keys@.len() ==> #[trigger] keys@[a] < #[trigger] keys@[b],
                forall|k: int| 0 <= k < i ==> self.readable(#[trigger] keys@[k]),
            decreases keys@.len() - i,
        {
            let key: u128 = keys[i];
            assert(keys@.contains(key));
            match self.try_get(key) {
                Ok(_) => {},
                Err(e) => {
                    proof {
                        assert forall|k: u128| k < key implies #[trigger] self.readable(k) by {
                            if self.entries().dom().contains(k) {
                                let j = choose|j: int| 0 <= j < keys@.len() && keys@[j] == k;
                                if j > i {
                                    assert(keys@[i as int] < keys@[j]);
                                }
                            }
                        }
                    }
                    return Err(e);
                },
            }
            i = i + 1;
        }
        proof {
            assert forall|k: u128| #[trigger] self.entries().dom().contains(k) implies self.readable(k) by {
                let j = choose|j: int| 0 <= j < keys@.len() && keys@[j] == k;
                assert(self.readable(keys@[j]));
            }
        }
        Ok(self.sorted_entries())
    }

    /// Whether the images of an opened store keep the table's invariant.
    ///
    /// Opening checks that reads stay inside of the images; this checks that
    /// every entry is found by its key and that the counters are right, which
    /// the changing operations rely on.
    pub fn is_consistent(&self) -> (yes: bool)
        requires
            self.valid(),
        ensures
            yes == self.wf(),
    {
        let h: Header = self.header();
        assert(layout::slot_pos(h.capacity as int) <= self.key.len());
        let cap: usize = h.capacity as usize;
        let ghost t = self.slots();
        let mut live: u64 = 0;
        let mut gone: u64 = 0;
        let mut cards: u128 = 0;
        let mut i: usize = 0;
        while i < cap
            invariant
                i <= cap,
                cap == h.capacity,
                h == self.hdr(),
                self.valid(),
                t == self.slots(),
                layout::slot_pos(cap as int) <= self.key.len(),
                live == table::tally(t.take(i as int), table::live()),
                live <= i,
                gone == table::tally(t.take(i as int), table::tombstones()),
                gone <= i,
                cards == table::tally(t.take(i as int), table::live_cards()),
                cards <= i * 0xffff_ffff,
                forall|j: int|
                    0 <= j < i && (#[trigger] t[j]).state == STATE_OCCUPIED ==> table::found_at(t, t[j].key, j),
                forall|j: int| 0 <= j < i ==> (#[trigger] t[j]).state <= STATE_TOMBSTONE,
            decreases cap - i,
        {
            assert(layout::slot_pos(i + 1) <= layout::slot_pos(cap as int));
            let s: Slot = read_slot(self.key.as_slice(), i);
            proof {
                assert(s == t[i as int]);
                assert(t.take(i + 1).drop_last() =~= t.take(i as int));
                assert(i * 0xffff_ffff <= usize::MAX * 0xffff_ffff) by (nonlinear_arith)
                    requires
                        i <= usize::MAX,
                ;
            }
            if s.state > STATE_TOMBSTONE {
                return false;
            }
            if s.state == STATE_OCCUPIED {
                let (idx, found): (usize, bool) = self.probe(s.key);
                if !found || idx != i {
                    proof {
                        if table::found_at(t, s.key, i as int) {
                            table::lemma_lookup(t, s.key, i as int);
                        }
                    }
                    return false;
                }
                live = live + 1;
                cards = cards + s.card as u128;
            }
            if s.state == STATE_TOMBSTONE {
                gone = gone + 1;
            }
            i = i + 1;
        }
        assert(t.take(i as int) =~= t);
        h.count == live && h.tombstone_count == gone && h.cardinality as u128 == cards && (h.count as u128
            + h.tombstone_count as u128) * 10 <= h.capacity as u128 * 7 + 10
    }

    /// The container of `key`, or an error if its blob is not an archived
    /// container.
    pub fn try_get(&self, key: u128) -> (r: Result<Option<Container>, StoreError>)
        requires
            self.valid(),
        ensures
            match r {
                Ok(Some(c)) => self.entries().dom().contains(key) && stored_as(self.entries()[key].0, c),
                Ok(None) => !self.entries().dom().contains(key),
                Err(e) => {
                    &&& e == StoreError::CorruptBlob { key }
                    &&& self.entries().dom().contains(key)
                    &&& forall|c: Container| !#[trigger] stored_as(self.entries()[key].0, c)
                },
            },
    {
        let (idx, found): (usize, bool) = self.probe(key);
        if !found {
            return Ok(None);
        }
        assert(layout::slot_pos(idx + 1) <= layout::slot_pos(self.hdr().capacity as int));
        let s: Slot = read_slot(self.key.as_slice(), idx);
        proof {
            assert(self.slots()[idx as int] == s);
            table::lemma_lookup(self.slots(), key, idx as int);
            assert(layout::slot_at(self.key@, idx as int) == s);
        }
        match self.read_blob(&s) {
            Some(c) => {
                assert(stored_as(self.entries()[key].0, c));
                Ok(self.get(key))
            },
            None => Err(StoreError::CorruptBlob { key }),
        }
    }
}

/// `out` lists each entry of a store once, by increasing key.
pub open spec fn lists_sorted(out: Seq<Slot>, t: Seq<Slot>) -> bool {
    &&& forall|i: int, j: int| 0 <= i < j < out.len() ==> (#[trigger] out[i]).key < (#[trigger] out[j]).key
    &&& forall|k: u128|
        table::entries(t).dom().contains(k) <==> exists|i: int| 0 <= i < out.len() && (#[trigger] out[i]).key == k
    &&& forall|i: int|
        0 <= i < out.len() ==> (#[trigger] out[i]).state == STATE_OCCUPIED && table::entries(t)[out[i].key] == out[i]
}

struct ByKey<'a> {
    list: &'a Vec<Slot>,
}

impl<'a> Ranking for ByKey<'a> {
    closed spec fn size(&self) -> nat {
        self.list@.len()
    }

    closed spec fn before(&self, a: int, b: int) -> bool {
        self.list@[a].key < self.list@[b].key
    }

    proof fn lemma_not_after(&self, a: int, b: int, c: int) {
    }

    proof fn lemma_one_way(&self, a: int, b: int) {
    }

    fn is_before(&self, a: usize, b: usize) -> bool {
        self.list[a].key < self.list[b].key
    }
}

/// The table and its tallies after an entry is written where probing ended.
proof fn lemma_slot_written(t: Seq<Slot>, i: int, slot: Slot, found: bool)
    requires
        table::table_wf(t),
        table::tally(t, table::live()) < t.len(),
        slot.state == STATE_OCCUPIED,
        found == (table::lookup(t, slot.key) is Some),
        found ==> table::found_at(t, slot.key, i),
        !found ==> table::insertion_at(t, slot.key, i),
    ensures
        ({
            let u = t.update(i, slot);
            &&& table::table_wf(u)
            &&& table::entries(u) == table::entries(t).insert(slot.key, slot)
            &&& table::tally(u, table::live()) == table::tally(t, table::live()) + if found {
                0int
            } else {
                1int
            }
            &&& table::tally(u, table::live_cards()) == table::tally(t, table::live_cards()) + slot.card
                - table::live_cards()(t[i])
            &&& table::live_cards()(t[i]) <= table::tally(t, table::live_cards())
            &&& table::reuses(t, slot.key) == (t[i].state == STATE_TOMBSTONE)
            &&& table::tally(u, table::tombstones()) == table::tally(t, table::tombstones()) - if table::reuses(
                t,
                slot.key,
            ) {
                1int
            } else {
                0int
            }
            &&& table::live_cards()(t[i]) == if found {
                t[i].card as nat
            } else {
                0
            }
        }),
{
    if !found {
        if !table::vacant(t[i]) {
            assert forall|j: int| 0 <= j < t.len() implies (#[trigger] t[j]).state == STATE_OCCUPIED by {
                assert(!table::vacant(t[j]));
            }
            table::lemma_full(t);
        }
        table::lemma_insert(t, i, slot);
        table::lemma_insertion_unique(t, slot.key, i);
    } else {
        table::lemma_lookup(t, slot.key, i);
        table::lemma_replace(t, i, slot);
    }
    table::lemma_tally_update(t, i, slot, table::live());
    table::lemma_tally_update(t, i, slot, table::live_cards());
    table::lemma_tally_update(t, i, slot, table::tombstones());
    table::lemma_tally_ge(t, i, table::live_cards());
}

/// No tombstone is used again in a store without any.
proof fn lemma_no_reuse(s: ContainerStore, key: u128)
    requires
        s.wf(),
        s.hdr().tombstone_count == 0,
    ensures
        !s.reuses(key),
{
    if s.reuses(key) {
        let t = s.slots();
        let i = choose|i: int| #[trigger] table::insertion_at(t, key, i) && t[i].state == STATE_TOMBSTONE;
        table::lemma_tally_ge(t, i, table::tombstones());
    }
}

/// Stores with the same entries record the same cardinalities.
proof fn lemma_counted_alike(a: ContainerStore, b: ContainerStore)
    requires
        a.entries() == b.entries(),
    ensures
        a.counted() ==> b.counted(),
{
    if a.counted() {
        assert forall|k: u128| #[trigger] b.counted_at(k) by {
            assert(a.counted_at(k));
        }
    }
}

/// A removal leaves the other entries' cardinalities as they were.
proof fn lemma_counted_removed(before: ContainerStore, after: ContainerStore, key: u128)
    requires
        before.counted(),
        after.entries() == before.entries().remove(key),
    ensures
        after.counted(),
{
    assert forall|k: u128| #[trigger] after.counted_at(k) by {
        assert(before.counted_at(k));
        if k != key && before.entries().dom().contains(k) {
            let c = choose|c: Container| #[trigger]
                stored_as(before.entries()[k].0, c) && c@.len() == before.entries()[k].1;
            assert(stored_as(after.entries()[k].0, c));
        }
    }
}

/// An entry written with its container's cardinality keeps all of them right.
proof fn lemma_counted_after(before: ContainerStore, after: ContainerStore, key: u128, c: Container, card: u32)
    requires
        before.counted(),
        card == c@.len(),
        after.entries() == before.entries().insert(key, (archive::archived_words(c.frame()), card)),
        stored_as(archive::archived_words(c.frame()), c),
    ensures
        after.counted(),
{
    assert forall|k: u128| #[trigger] after.counted_at(k) by {
        assert(before.counted_at(k));
        if k == key {
            assert(stored_as(after.entries()[k].0, c));
        } else if before.entries().dom().contains(k) {
            let d = choose|d: Container| #[trigger]
                stored_as(before.entries()[k].0, d) && d@.len() == before.entries()[k].1;
            assert(stored_as(after.entries()[k].0, d));
        }
    }
}

/// The entries of a store are those of its table.
proof fn lemma_entries_table(s: ContainerStore)
    ensures
        forall|k: u128| #[trigger] s.entries().dom().contains(k) == table::entries(s.slots()).dom().contains(k),
        forall|k: u128|
            s.entries().dom().contains(k) ==> #[trigger] s.entries()[k] == entry_of(
                s.val_bytes(),
                table::entries(s.slots())[k],
            ),
{
}

/// The entries after a blob was appended and its slot written.
proof fn lemma_entries_after(
    before: ContainerStore,
    mid: ContainerStore,
    after: ContainerStore,
    key: u128,
    slot: Slot,
    blob: Seq<u8>,
)
    requires
        mid.valid(),
        table::entries(mid.slots()) == table::entries(before.slots()),
        before.val_bytes() == mid.val_bytes(),
        table::entries(after.slots()) == table::entries(mid.slots()).insert(key, slot),
        slot.offset >= mid.hdr().value_write_pos,
        slot.len == blob.len(),
        slot.offset + slot.len <= after.val_bytes().len(),
        mid.val_bytes().len() <= after.val_bytes().len(),
        forall|k: int| 0 <= k < slot.offset && k < mid.val_bytes().len() ==> after.val_bytes()[k] == mid.val_bytes()[k],
        after.val_bytes().subrange(slot.offset as int, slot.offset + slot.len) == blob,
    ensures
        after.entries() == before.entries().insert(key, (blob, slot.card)),
{
    lemma_entries_table(before);
    lemma_entries_table(mid);
    lemma_entries_table(after);
    assert forall|k: u128| after.entries().dom().contains(k) implies #[trigger] after.entries()[k]
        == before.entries().insert(key, (blob, slot.card))[k] by {
        if k != key {
            assert(table::entries(mid.slots()).dom().contains(k));
            let s = table::entries(mid.slots())[k];
            let i = table::lookup(mid.slots(), k)->0;
            let j = choose|j: int| table::found_at(mid.slots(), k, j);
            table::lemma_lookup(mid.slots(), k, j);
            assert(layout::slot_at(mid.key_bytes(), i) == s);
            assert(after.val_bytes().subrange(s.offset as int, s.offset + s.len) =~= mid.val_bytes().subrange(
                s.offset as int,
                s.offset + s.len,
            ));
        }
    }
    assert(after.entries() =~= before.entries().insert(key, (blob, slot.card)));
}

/// The cardinality of a listed container.
pub open spec fn container_cards() -> spec_fn((u128, Container)) -> nat {
    |e: (u128, Container)| e.1@.len()
}

/// The counters count the stored containers: there are as many entries as live keys,
/// and the cardinality is the sum of those of the containers.
pub proof fn law_counters_count_the_containers(s: ContainerStore, list: Seq<(u128, Container)>)
    requires
        s.wf(),
        s.counted(),
        s.lists_entries(list),
    ensures
        s.entries().dom().finite(),
        s.hdr().count == s.entries().dom().len(),
        s.hdr().count == list.len(),
        s.hdr().cardinality == table::tally(list, container_cards()),
{
    let t = s.slots();
    let cards = Seq::new(list.len(), |i: int| (list[i].0, list[i].1@.len()));
    lemma_entries_table(s);
    assert forall|i: int| 0 <= i < cards.len() implies (#[trigger] cards[i]).1 == table::entries(
        t,
    )[cards[i].0].card by {
        let k = list[i].0;
        assert(s.entries().dom().contains(k));
        assert(s.counted_at(k));
        let c = choose|c: Container| #[trigger]
            stored_as(s.entries()[k].0, c) && c@.len() == s.entries()[k].1;
        law_read_gives_what_was_written(s.entries()[k].0, c, list[i].1);
    }
    assert forall|k: u128| #[trigger]
        table::entries(t).dom().contains(k) <==> exists|i: int| 0 <= i < cards.len() && (#[trigger] cards[i]).0 == k by {
        assert(s.entries().dom().contains(k) == table::entries(t).dom().contains(k));
        if s.entries().dom().contains(k) {
            let i = choose|i: int| 0 <= i < list.len() && (#[trigger] list[i]).0 == k;
            assert(cards[i].0 == k);
        }
        if exists|i: int| 0 <= i < cards.len() && (#[trigger] cards[i]).0 == k {
            let i = choose|i: int| 0 <= i < cards.len() && (#[trigger] cards[i]).0 == k;
            assert(list[i].0 == k);
        }
    }
    assert(forall|i: int, j: int| 0 <= i < j < cards.len() ==> (#[trigger] cards[i]).0 != (#[trigger] cards[j]).0) by {
        assert(forall|i: int| 0 <= i < cards.len() ==> (#[trigger] cards[i]).0 == list[i].0);
    }
    table::lemma_listed_tally(t, cards);
    lemma_container_tally(list, cards);
    let keys = Seq::new(list.len(), |i: int| list[i].0);
    assert(keys.no_duplicates()) by {
        assert(forall|i: int| 0 <= i < keys.len() ==> #[trigger] keys[i] == list[i].0);
    }
    keys.unique_seq_to_set();
    assert(keys.to_set() =~= s.entries().dom()) by {
        assert forall|k: u128| keys.to_set().contains(k) == s.entries().dom().contains(k) by {
            if s.entries().dom().contains(k) {
                let i = choose|i: int| 0 <= i < list.len() && (#[trigger] list[i]).0 == k;
                assert(keys[i] == k);
            }
            if keys.contains(k) {
                let i = choose|i: int| 0 <= i < keys.len() && keys[i] == k;
                assert(list[i].0 == k);
            }
        }
    }
}

proof fn lemma_container_tally(list: Seq<(u128, Container)>, cards: Seq<(u128, nat)>)
    requires
        cards.len() == list.len(),
        forall|i: int| 0 <= i < list.len() ==> (#[trigger] cards[i]).1 == list[i].1@.len(),
    ensures
        table::tally(list, container_cards()) == table::tally(cards, table::seconds()),
    decreases list.len(),
{
    if list.len() > 0 {
        assert(forall|i: int| 0 <= i < cards.len() - 1 ==> #[trigger] cards.drop_last()[i] == cards[i]);
        lemma_container_tally(list.drop_last(), cards.drop_last());
        assert(cards.last() == cards[list.len() - 1]);
    }
}

/// Stores with the same entries list the same keys with the same values, whatever
/// the size of their tables: placing every entry anew changes no reading.
pub proof fn law_same_entries_read_alike(
    a: ContainerStore,
    b: ContainerStore,
    x: Seq<(u128, Container)>,
    y: Seq<(u128, Container)>,
)
    requires
        a.entries() == b.entries(),
        a.lists_entries(x),
        b.lists_entries(y),
    ensures
        forall|k: u128| a.readable(k) == #[trigger] b.readable(k),
        x.len() == y.len(),
        forall|i: int| 0 <= i < x.len() ==> (#[trigger] x[i]).0 == y[i].0 && x[i].1@ == y[i].1@,
{
    let p = Seq::new(x.len(), |i: int| x[i].0);
    let q = Seq::new(y.len(), |i: int| y[i].0);
    assert forall|k: u128| p.contains(k) == q.contains(k) by {
        assert(p.contains(k) == a.entries().dom().contains(k)) by {
            lemma_keys_listed(a, x, k);
        }
        assert(q.contains(k) == b.entries().dom().contains(k)) by {
            lemma_keys_listed(b, y, k);
        }
    }
    assert(forall|i: int, j: int| 0 <= i < j < p.len() ==> #[trigger] p[i] < #[trigger] p[j]) by {
        assert(forall|i: int| 0 <= i < p.len() ==> #[trigger] p[i] == x[i].0);
    }
    assert(forall|i: int, j: int| 0 <= i < j < q.len() ==> #[trigger] q[i] < #[trigger] q[j]) by {
        assert(forall|i: int| 0 <= i < q.len() ==> #[trigger] q[i] == y[i].0);
    }
    lemma_increasing_alike(p, q);
    assert forall|i: int| 0 <= i < x.len() implies (#[trigger] x[i]).0 == y[i].0 && x[i].1@ == y[i].1@ by {
        assert(p[i] == q[i]);
        law_read_gives_what_was_written(a.entries()[x[i].0].0, x[i].1, y[i].1);
    }
}

proof fn lemma_keys_listed(s: ContainerStore, list: Seq<(u128, Container)>, k: u128)
    requires
        s.lists_entries(list),
    ensures
        Seq::new(list.len(), |i: int| list[i].0).contains(k) == s.entries().dom().contains(k),
{
    let keys = Seq::new(list.len(), |i: int| list[i].0);
    if s.entries().dom().contains(k) {
        let i = choose|i: int| 0 <= i < list.len() && (#[trigger] list[i]).0 == k;
        assert(keys[i] == k);
    }
    if keys.contains(k) {
        let i = choose|i: int| 0 <= i < keys.len() && keys[i] == k;
        assert(list[i].0 == k);
    }
}

/// Increasing sequences with the same members are equal.
proof fn lemma_increasing_alike(p: Seq<u128>, q: Seq<u128>)
    requires
        forall|i: int, j: int| 0 <= i < j < p.len() ==> #[trigger] p[i] < #[trigger] p[j],
        forall|i: int, j: int| 0 <= i < j < q.len() ==> #[trigger] q[i] < #[trigger] q[j],
        forall|k: u128| p.contains(k) == q.contains(k),
    ensures
        p == q,
    decreases p.len(),
{
    if p.len() == 0 {
        if q.len() > 0 {
            assert(q.contains(q[0]));
            assert(p.contains(q[0]));
        }
        assert(p =~= q);
    } else {
        assert(p.contains(p.last()));
        assert(q.contains(p.last()));
        let j = choose|j: int| 0 <= j < q.len() && q[j] == p.last();
        assert(q.contains(q.last()));
        assert(p.contains(q.last()));
        let i = choose|i: int| 0 <= i < p.len() && p[i] == q.last();
        let (m, n) = (p.len() - 1, q.len() - 1);
        if j < n {
            assert(q[j] < q[n]);
            if i < m {
                assert(p[i] < p[m]);
            }
        }
        assert(p.last() == q.last());
        let (a, b) = (p.drop_last(), q.drop_last());
        assert forall|k: u128| a.contains(k) == b.contains(k) by {
            if a.contains(k) {
                let x = choose|x: int| 0 <= x < a.len() && a[x] == k;
                assert(p[x] < p[m]);
                assert(p.contains(p[x]));
                let y = choose|y: int| 0 <= y < q.len() && q[y] == k;
                assert(b[y] == k);
            }
            if b.contains(k) {
                let y = choose|y: int| 0 <= y < b.len() && b[y] == k;
                assert(q[y] < q[n]);
                assert(q.contains(q[y]));
                let x = choose|x: int| 0 <= x < p.len() && p[x] == k;
                assert(a[x] == k);
            }
        }
        lemma_increasing_alike(a, b);
        assert(p =~= a.push(p.last()));
        assert(q =~= b.push(q.last()));
    }
}

/// Reading a key gives back the values that were written under it: whatever
/// container a blob reads as has the values, and the representation, of the
/// container it was archived from.
pub proof fn law_read_gives_what_was_written(blob: Seq<u8>, written: Container, read: Container)
    requires
        stored_as(blob, written),
        stored_as(blob, read),
    ensures
        read@ == written@,
        (read is Array) == (written is Array),
        (read is Bitset) == (written is Bitset),
{
    super::container::set::lemma_frame_injective(read, written);
}

/// Where every entry records its container's cardinality, every blob is readable.
pub proof fn law_counted_store_is_intact(s: ContainerStore)
    requires
        s.counted(),
    ensures
        s.intact(),
        forall|k: u128| #[trigger] s.readable(k),
{
    assert forall|k: u128| #[trigger] s.readable(k) by {
        assert(s.counted_at(k));
    }
}

/// The images of a store open again, and what is opened from them has the same
/// entries and counters.
pub proof fn law_images_open_again(s: ContainerStore, again: ContainerStore)
    requires
        s.valid(),
        again.key_bytes() == opened(s.key_bytes()),
        again.val_bytes() == opened(s.val_bytes()),
    ensures
        open_error(opened(s.key_bytes()), opened(s.val_bytes()).len()) is None,
        again.hdr() == s.hdr(),
        again.entries() == s.entries(),
        again.wf() == s.wf(),
        again.counted() == s.counted(),
{
    assert(s.key.len() <= u64::MAX);
    lemma_open_error(s.key_bytes(), s.val_bytes().len());
    lemma_open_error(s.key_bytes(), again.val_bytes().len());
    assert forall|k: u128| s.entries().dom().contains(k) implies again.entries()[k] == s.entries()[k] by {
        let i = table::lookup(s.slots(), k)->0;
        let j = choose|j: int| table::found_at(s.slots(), k, j);
        table::lemma_lookup(s.slots(), k, j);
        let slot = layout::slot_at(s.key_bytes(), i);
        assert(s.slots()[i] == slot);
        assert(slot.offset + slot.len <= s.val_bytes().len());
        assert(entry_of(again.val_bytes(), slot).0 =~= entry_of(s.val_bytes(), slot).0);
    }
    assert(again.entries() =~= s.entries());
    lemma_counted_alike(s, again);
    lemma_counted_alike(again, s);
}

/// `list` holds the entries of `t`, each once.
pub open spec fn lists_live(list: Seq<Slot>, t: Seq<Slot>) -> bool {
    &&& forall|e: int| 0 <= e < list.len() ==> (#[trigger] list[e]).state == STATE_OCCUPIED && t.contains(list[e])
    &&& forall|i: int| 0 <= i < t.len() && (#[trigger] t[i]).state == STATE_OCCUPIED ==> list.contains(t[i])
    &&& forall|d: int, e: int| 0 <= d < e < list.len() ==> (#[trigger] list[d]).key != (#[trigger] list[e]).key
    &&& list.len() == table::tally(t, table::live())
    &&& table::tally(list, table::live_cards()) == table::tally(t, table::live_cards())
}

/// One slot more: it joins the list where it holds an entry.
#[verifier::spinoff_prover]
proof fn lemma_next_slot(list: Seq<Slot>, t: Seq<Slot>, i: int)
    requires
        table::table_wf(t),
        0 <= i < t.len(),
        lists_live(list, t.take(i)),
    ensures
        t[i].state == STATE_OCCUPIED ==> lists_live(list.push(t[i]), t.take(i + 1)),
        t[i].state != STATE_OCCUPIED ==> lists_live(list, t.take(i + 1)),
{
    let (seen, next, s) = (t.take(i), t.take(i + 1), t[i]);
    assert(next.drop_last() =~= seen);
    assert(next.last() == s);
    assert forall|e: int| 0 <= e < list.len() implies next.contains(#[trigger] list[e]) by {
        assert(seen.contains(list[e]));
        let k = choose|k: int| 0 <= k < seen.len() && seen[k] == list[e];
        assert(next[k] == list[e]);
    }
    if s.state == STATE_OCCUPIED {
        let longer = list.push(s);
        assert(longer.drop_last() =~= list);
        assert forall|e: int| 0 <= e < longer.len() implies (#[trigger] longer[e]).state == STATE_OCCUPIED
            && next.contains(longer[e]) by {
            if e < list.len() {
                assert(next.contains(list[e]));
            } else {
                assert(next[i] == s);
            }
        }
        assert forall|k: int| 0 <= k < next.len() && (#[trigger] next[k]).state
            == STATE_OCCUPIED implies longer.contains(next[k]) by {
            if k < i {
                assert(seen[k] == next[k]);
                assert(list.contains(seen[k]));
                let e = choose|e: int| 0 <= e < list.len() && list[e] == seen[k];
                assert(longer[e] == next[k]);
            } else {
                assert(longer[list.len() as int] == s);
            }
        }
        assert forall|d: int, e: int| 0 <= d < e < longer.len() implies (#[trigger] longer[d]).key != (
        #[trigger] longer[e]).key by {
            if e < list.len() {
                assert(list[d].key != list[e].key);
            } else {
                assert(seen.contains(list[d]));
                let k = choose|k: int| 0 <= k < seen.len() && seen[k] == list[d];
                assert(t[k] == list[d]);
                assert(table::found_at(t, t[k].key, k));
                assert(table::found_at(t, t[i].key, i));
                if t[k].key == s.key {
                    table::lemma_found_unique(t, s.key, k, i);
                }
            }
        }
    } else {
        assert forall|k: int| 0 <= k < next.len() && (#[trigger] next[k]).state == STATE_OCCUPIED implies list.contains(
            next[k],
        ) by {
            assert(seen[k] == next[k]);
        }
    }
}

/// The occupied slots of a table, in slot order.
fn live_slots(key: &[u8], cap: usize) -> (list: Vec<Slot>)
    requires
        layout::slot_pos(cap as int) <= key@.len(),
        table::table_wf(table_of(key@, cap as int)),
    ensures
        lists_live(list@, table_of(key@, cap as int)),
{
    let ghost t = table_of(key@, cap as int);
    let mut list: Vec<Slot> = Vec::new();
    let mut i: usize = 0;
    while i < cap
        invariant
            i <= cap,
            layout::slot_pos(cap as int) <= key@.len(),
            t == table_of(key@, cap as int),
            table::table_wf(t),
            lists_live(list@, t.take(i as int)),
        decreases cap - i,
    {
        assert(layout::slot_pos(i + 1) <= layout::slot_pos(cap as int));
        let s: Slot = read_slot(key, i);
        proof {
            assert(s == t[i as int]);
            lemma_next_slot(list@, t, i as int);
        }
        if s.state == STATE_OCCUPIED {
            list.push(s);
        }
        i = i + 1;
    }
    assert(t.take(i as int) =~= t);
    list
}

/// A table and a list of its entries map keys to the same slots.
proof fn lemma_lists_entries(list: Seq<Slot>, t: Seq<Slot>, key: u128)
    requires
        table::table_wf(t),
        lists_live(list, t),
    ensures
        table::entries(t).dom().contains(key) <==> exists|e: int| 0 <= e < list.len() && (#[trigger] list[e]).key == key,
        forall|e: int| 0 <= e < list.len() && (#[trigger] list[e]).key == key ==> table::entries(t)[key] == list[e],
{
    if table::entries(t).dom().contains(key) {
        let i = choose|i: int| table::found_at(t, key, i);
        table::lemma_lookup(t, key, i);
        let e = choose|e: int| 0 <= e < list.len() && list[e] == t[i];
        assert(list[e].key == key);
    }
    assert forall|e: int| 0 <= e < list.len() && (#[trigger] list[e]).key == key implies table::entries(
        t,
    ).dom().contains(key) && table::entries(t)[key] == list[e] by {
        let i = choose|i: int| 0 <= i < t.len() && t[i] == list[e];
        assert(table::found_at(t, t[i].key, i));
        table::lemma_lookup(t, key, i);
    }
}

/// Put an entry in the first empty slot of its sequence.
fn place(key: &mut Vec<u8>, cap: usize, slot: &Slot)
    requires
        layout::slot_pos(cap as int) <= old(key)@.len(),
        table::table_wf(table_of(old(key)@, cap as int)),
        table::lookup(table_of(old(key)@, cap as int), slot.key) is None,
        table::tally(table_of(old(key)@, cap as int), table::live()) < cap,
        slot.state == STATE_OCCUPIED,
        forall|i: int|
            0 <= i < cap ==> (#[trigger] table_of(old(key)@, cap as int)[i]).state == STATE_EMPTY || table_of(
                old(key)@,
                cap as int,
            )[i].state == STATE_OCCUPIED,
    ensures
        final(key)@.len() == old(key)@.len(),
        layout::header_at(final(key)@) == layout::header_at(old(key)@),
        layout::magic_at(final(key)@) == layout::magic_at(old(key)@),
        layout::version_at(final(key)@) == layout::version_at(old(key)@),
        table::table_wf(table_of(final(key)@, cap as int)),
        table::entries(table_of(final(key)@, cap as int)) == table::entries(
            table_of(old(key)@, cap as int),
        ).insert(slot.key, *slot),
        table::tally(table_of(final(key)@, cap as int), table::live()) == table::tally(
            table_of(old(key)@, cap as int),
            table::live(),
        ) + 1,
        table::tally(table_of(final(key)@, cap as int), table::live_cards()) == table::tally(
            table_of(old(key)@, cap as int),
            table::live_cards(),
        ) + slot.card,
        exists|j: int|
            0 <= j < cap && table_of(old(key)@, cap as int)[j].state == STATE_EMPTY && #[trigger] table_of(
                old(key)@,
                cap as int,
            ).update(j, *slot) == table_of(final(key)@, cap as int),
{
    let ghost t = table_of(key@, cap as int);
    let start: usize = (hash_key(slot.key) % cap as u64) as usize;
    proof {
        table::lemma_home(slot.key, cap as int);
    }
    let mut i: usize = start;
    let mut n: usize = 0;
    while n < cap
        invariant
            n <= cap,
            t == table_of(key@, cap as int),
            layout::slot_pos(cap as int) <= key@.len(),
            start == table::home(slot.key, cap as int),
            start < cap,
            i < cap,
            n < cap ==> i == table::ring(cap as int, start as int, n as int),
            key@ == old(key)@,
            forall|m: int| 0 <= m < n ==> (#[trigger] table::probed(t, slot.key, m)).state == STATE_OCCUPIED,
            forall|j: int| 0 <= j < cap ==> (#[trigger] t[j]).state == STATE_EMPTY || t[j].state == STATE_OCCUPIED,
            table::table_wf(t),
            table::lookup(t, slot.key) is None,
            slot.state == STATE_OCCUPIED,
        ensures
            i < cap,
            key@ == old(key)@,
            n < cap ==> table::insertion_at(t, slot.key, i as int) && t[i as int].state == STATE_EMPTY,
            n == cap ==> forall|m: int|
                0 <= m < n ==> (#[trigger] table::probed(t, slot.key, m)).state == STATE_OCCUPIED,
        decreases cap - n,
    {
        assert(layout::slot_pos(i + 1) <= layout::slot_pos(cap as int));
        let s: Slot = read_slot(key.as_slice(), i);
        proof {
            table::lemma_ring(cap as int, start as int, n as int);
            assert(s == t[i as int]);
            assert(s == table::probed(t, slot.key, n as int));
        }
        if s.state == STATE_EMPTY {
            break;
        }
        i = if i + 1 == cap {
            0
        } else {
            i + 1
        };
        n = n + 1;
    }
    proof {
        if n == cap {
            assert forall|j: int| 0 <= j < cap implies (#[trigger] t[j]).state == STATE_OCCUPIED by {
                table::lemma_ring(cap as int, start as int, j);
                assert(table::probed(t, slot.key, table::ring_steps(cap as int, start as int, j)).state
                    == STATE_OCCUPIED);
            }
            table::lemma_full(t);
        }
        assert(layout::slot_pos(i + 1) <= layout::slot_pos(cap as int));
        layout::lemma_write_slot(key@, i as int, *slot);
        table::lemma_insert(t, i as int, *slot);
        table::lemma_tally_update(t, i as int, *slot, table::live());
        table::lemma_tally_update(t, i as int, *slot, table::live_cards());
    }
    write_slot(key, i, slot);
    proof {
        lemma_table_write(old(key)@, cap as int, i as int, *slot);
    }
}

/// Writing a slot of the table writes that slot of the sequence.
proof fn lemma_table_write(key: Seq<u8>, cap: int, i: int, s: Slot)
    requires
        0 <= i < cap,
        layout::slot_pos(cap) <= key.len(),
    ensures
        table_of(bytes::splice(key, layout::slot_pos(i), layout::slot_bytes(s)), cap) == table_of(key, cap).update(
            i,
            s,
        ),
{
    let after = bytes::splice(key, layout::slot_pos(i), layout::slot_bytes(s));
    assert(layout::slot_pos(i + 1) <= layout::slot_pos(cap));
    layout::lemma_write_slot(key, i, s);
    assert forall|j: int| 0 <= j < cap implies table_of(after, cap)[j] == table_of(key, cap).update(i, s)[j] by {
        assert(layout::slot_pos(j + 1) <= layout::slot_pos(cap));
        if j != i {
            assert(layout::slot_at(after, j) == layout::slot_at(key, j));
        }
    }
    assert(table_of(after, cap) =~= table_of(key, cap).update(i, s));
}

/// Writing the header leaves the table.
proof fn lemma_table_header(key: Seq<u8>, cap: int, h: Header)
    requires
        0 <= cap,
        layout::slot_pos(cap) <= key.len(),
    ensures
        table_of(bytes::splice(key, 0, layout::header_bytes(h)), cap) == table_of(key, cap),
{
    let after = bytes::splice(key, 0, layout::header_bytes(h));
    layout::lemma_write_header(key, h);
    assert forall|j: int| 0 <= j < cap implies table_of(after, cap)[j] == table_of(key, cap)[j] by {
        assert(layout::slot_pos(j + 1) <= layout::slot_pos(cap));
        assert(layout::slot_at(after, j) == layout::slot_at(key, j));
    }
    assert(table_of(after, cap) =~= table_of(key, cap));
}

/// A probe that stops at an empty slot, or has seen all, does not find the key.
proof fn lemma_stopped(t: Seq<Slot>, key: u128, n: int)
    requires
        t.len() > 0,
        0 <= n <= t.len(),
        table::passes(t, key, n),
        n < t.len() ==> table::probed(t, key, n).state == STATE_EMPTY,
    ensures
        table::lookup(t, key) is None,
{
    if exists|j: int| table::found_at(t, key, j) {
        let j = choose|j: int| table::found_at(t, key, j);
        let cap = t.len() as int;
        table::lemma_home(key, cap);
        table::lemma_ring(cap, table::home(key, cap), j);
        let steps = table::ring_steps(cap, table::home(key, cap), j);
        if steps < n {
            assert(!table::holds(table::probed(t, key, steps), key));
        } else if steps > n {
            assert(table::probed(t, key, n).state != STATE_EMPTY);
        }
    }
}

/// A pair of images is accepted exactly where the key image has a header with the right
/// magic number and version and a power of two of slots, all of them inside of it, and the
/// blobs end before the value write position, which lies inside of the value image.
pub proof fn law_accepted_images(key: Seq<u8>, val_len: nat)
    requires
        key.len() <= u64::MAX,
    ensures
        open_error(key, val_len) is None <==> {
            let h = layout::header_at(key);
            &&& key.len() >= 64
            &&& layout::magic_at(key) == 0x4D494E4E414C4249
            &&& layout::version_at(key) == 1
            &&& region::is_pow2(h.capacity as int)
            &&& 64 + 48 * h.capacity <= key.len()
            &&& h.value_write_pos <= val_len
            &&& forall|i: int|
                0 <= i < h.capacity && (#[trigger] layout::slot_at(key, i)).state == 1 ==> layout::slot_at(key, i).offset
                    + layout::slot_at(key, i).len <= h.value_write_pos
        },
{
    lemma_open_error(key, val_len);
}

/// What is wrong with an image is told in this order: its length, its magic number, its
/// version, its capacity, the size of its table, the value write position, and then the
/// first slot whose blob ends behind that.
pub proof fn law_refused_images(key: Seq<u8>, val_len: nat)
    requires
        key.len() <= u64::MAX,
    ensures
        key.len() < 64 <==> open_error(key, val_len) == Some(StoreError::ShortKeyFile),
        key.len() >= 64 && layout::magic_at(key) != 0x4D494E4E414C4249 ==> open_error(key, val_len) == Some(
            StoreError::BadMagic { magic: layout::magic_at(key) },
        ),
        key.len() >= 64 && layout::magic_at(key) == 0x4D494E4E414C4249 && layout::version_at(key) != 1 ==> open_error(
            key,
            val_len,
        ) == Some(StoreError::UnsupportedVersion { version: layout::version_at(key) }),
        ({
            let h = layout::header_at(key);
            let headed = key.len() >= 64 && layout::magic_at(key) == 0x4D494E4E414C4249 && layout::version_at(key) == 1;
            &&& headed && !region::is_pow2(h.capacity as int) ==> open_error(key, val_len) == Some(
                StoreError::BadCapacity { capacity: h.capacity },
            )
            &&& headed && region::is_pow2(h.capacity as int) && 64 + 48 * h.capacity > u64::MAX ==> open_error(
                key,
                val_len,
            ) == Some(StoreError::CapacityOverflow)
            &&& headed && region::is_pow2(h.capacity as int) && key.len() < 64 + 48 * h.capacity <= u64::MAX
                ==> open_error(key, val_len) == Some(
                StoreError::KeyFileTooSmall {
                    len: key.len() as u64,
                    capacity: h.capacity,
                    need: (64 + 48 * h.capacity) as u64,
                },
            )
            &&& headed && region::is_pow2(h.capacity as int) && 64 + 48 * h.capacity <= key.len() && h.value_write_pos
                > val_len ==> open_error(key, val_len) == Some(
                StoreError::WritePosPastEnd { pos: h.value_write_pos, val_len: val_len as u64 },
            )
        }),
{
    let h = layout::header_at(key);
    lemma_slot_error_kind(key, h.value_write_pos, h.capacity as int, 0);
}

proof fn lemma_slot_error_kind(key: Seq<u8>, write_pos: u64, cap: int, i: int)
    ensures
        slot_error(key, write_pos, cap, i) matches Some(e) ==> e is SlotOverflow || e is SlotPastEnd,
    decreases cap - i,
{
    if i < cap {
        lemma_slot_error_kind(key, write_pos, cap, i + 1);
    }
}

/// The first slot whose blob ends behind the write position is the one that is told of.
pub proof fn law_first_bad_slot(key: Seq<u8>, write_pos: u64, cap: int, i: int)
    requires
        0 <= i < cap,
        layout::slot_at(key, i).state == 1,
        layout::slot_at(key, i).offset + layout::slot_at(key, i).len > write_pos,
        forall|j: int|
            0 <= j < i && (#[trigger] layout::slot_at(key, j)).state == 1 ==> layout::slot_at(key, j).offset
                + layout::slot_at(key, j).len <= write_pos,
    ensures
        ({
            let s = layout::slot_at(key, i);
            slot_error(key, write_pos, cap, 0) == Some(
                if s.offset + s.len > u64::MAX {
                    StoreError::SlotOverflow
                } else {
                    StoreError::SlotPastEnd { slot: i as u64, offset: s.offset, end: (s.offset + s.len) as u64, write_pos }
                },
            )
        }),
{
    lemma_first_bad_from(key, write_pos, cap, 0, i);
}

proof fn lemma_first_bad_from(key: Seq<u8>, write_pos: u64, cap: int, from: int, i: int)
    requires
        0 <= from <= i < cap,
        layout::slot_at(key, i).state == 1,
        layout::slot_at(key, i).offset + layout::slot_at(key, i).len > write_pos,
        forall|j: int|
            from <= j < i && (#[trigger] layout::slot_at(key, j)).state == 1 ==> layout::slot_at(key, j).offset
                + layout::slot_at(key, j).len <= write_pos,
    ensures
        slot_error(key, write_pos, cap, from) == slot_error(key, write_pos, cap, i),
    decreases i - from,
{
    if from < i {
        let s = layout::slot_at(key, from);
        lemma_first_bad_from(key, write_pos, cap, from + 1, i);
    }
}

/// A list of the entries has each key with an entry once, in increasing order, with a
/// container that its blob archives.
pub proof fn law_listed_entries(s: ContainerStore, list: Seq<(u128, Container)>)
    requires
        s.lists_entries(list),
    ensures
        list.len() == s.hdr().count,
        forall|i: int, j: int| 0 <= i < j < list.len() ==> (#[trigger] list[i]).0 < (#[trigger] list[j]).0,
        forall|k: u128|
            s.entries().dom().contains(k) <==> exists|i: int| 0 <= i < list.len() && (#[trigger] list[i]).0 == k,
        forall|i: int| 0 <= i < list.len() ==> (#[trigger] list[i]).1.wf() && archive::unarchived_words(
            s.entries()[list[i].0].0,
        ) == Some(list[i].1.frame()),
{
}

/// A table is full where more than seven tenths of its slots hold an entry or a tombstone.
pub proof fn law_full_tables(s: ContainerStore)
    ensures
        s.full() <==> 10 * (s.hdr().count + s.hdr().tombstone_count) > 7 * s.hdr().capacity,
{
}

/// An empty file stands for a fresh image of zeros, and any other for itself.
pub proof fn law_opened_files(contents: Seq<u8>)
    ensures
        contents.len() > 0 ==> opened(contents) == contents,
        contents.len() == 0 ==> opened(contents).len() == 832 && forall|i: int|
            0 <= i < 832 ==> #[trigger] opened(contents)[i] == 0,
{
}

/// The recorded cardinality of a key is that of its entry, and none of a key without one.
pub proof fn law_recorded_cardinalities(s: ContainerStore, key: u128)
    ensures
        s.entries().dom().contains(key) ==> s.recorded(key) == s.entries()[key].1,
        !s.entries().dom().contains(key) ==> s.recorded(key) == 0,
{
}

/// What is written under a key is read under it, and what is under other keys stays.
pub proof fn law_upsert_and_get(
    s: &mut ContainerStore,
    key: u128,
    container: &Container,
    is_new: bool,
    k: u128,
    before: Option<Container>,
    after: Option<Container>,
)
    requires
        old(s).wf(),
        old(s).has_room(),
        container.wf(),
        call_ensures(ContainerStore::upsert, (s, key, container), is_new),
    ensures
        call_ensures(ContainerStore::get, (&*final(s), key), after) ==> after is Some && after->0@ == container@,
        call_ensures(ContainerStore::get, (&*old(s), key), before) ==> is_new == (before is None),
        k != key && call_ensures(ContainerStore::get, (&*old(s), k), before) && call_ensures(
            ContainerStore::get,
            (&*final(s), k),
            after,
        ) ==> (before is Some <==> after is Some) && (before is Some ==> before->0@ == after->0@),
        final(s).hdr().count == old(s).hdr().count + if is_new {
            1int
        } else {
            0int
        },
        final(s).hdr().cardinality == old(s).hdr().cardinality + container@.len() - old(s).recorded(key),
{
    super::container::set::lemma_u16_set_bound(container@);
    if old(s).entries().dom().contains(key) {
        table::lemma_tally_ge(old(s).slots(), table::lookup(old(s).slots(), key)->0, table::live_cards());
    }
    if call_ensures(ContainerStore::get, (&*final(s), key), after) {
        law_read_gives_what_was_written(final(s).entries()[key].0, *container, after->0);
    }
    if k != key && call_ensures(ContainerStore::get, (&*old(s), k), before) && call_ensures(
        ContainerStore::get,
        (&*final(s), k),
        after,
    ) {
        if before is Some {
            assert(final(s).entries()[k] == old(s).entries()[k]);
            law_read_gives_what_was_written(old(s).entries()[k].0, before->0, after->0);
        }
    }
}

/// After a key was removed nothing is read under it, and what is under other keys stays; what
/// is returned is the recorded number of values. After clearing nothing is read at all.
pub proof fn law_remove_and_get(
    s: &mut ContainerStore,
    t: &mut ContainerStore,
    key: u128,
    card: u32,
    k: u128,
    before: Option<Container>,
    after: Option<Container>,
)
    requires
        old(s).wf(),
        call_ensures(ContainerStore::remove_key, (s, key), card),
        old(t).valid(),
        call_ensures(ContainerStore::clear, (t,), ()),
    ensures
        call_ensures(ContainerStore::get, (&*final(s), key), after) ==> after is None,
        call_ensures(ContainerStore::get, (&*final(t), key), after) ==> after is None,
        k != key && call_ensures(ContainerStore::get, (&*old(s), k), before) && call_ensures(
            ContainerStore::get,
            (&*final(s), k),
            after,
        ) ==> (before is Some <==> after is Some) && (before is Some ==> before->0@ == after->0@),
        card == old(s).recorded(key),
{
    if k != key && call_ensures(ContainerStore::get, (&*old(s), k), before) && call_ensures(
        ContainerStore::get,
        (&*final(s), k),
        after,
    ) {
        if before is Some {
            assert(final(s).entries()[k] == old(s).entries()[k]);
            law_read_gives_what_was_written(old(s).entries()[k].0, before->0, after->0);
        }
    }
}

/// The listed keys are in ascending order, each once, and are those that are found; every
/// listed entry is what is read under its key; and their number is the count.
pub proof fn law_listed_and_read(
    s: &ContainerStore,
    keys: Vec<u128>,
    list: Vec<(u128, Container)>,
    cards: Vec<(u128, u32)>,
    n: usize,
    k: u128,
    found: bool,
    i: int,
    read: Option<Container>,
)
    requires
        s.wf(),
        s.intact(),
        call_ensures(ContainerStore::sorted_keys, (s,), keys),
        call_ensures(ContainerStore::sorted_entries, (s,), list),
        call_ensures(ContainerStore::sorted_key_cards, (s,), cards),
        call_ensures(ContainerStore::count, (s,), n),
        call_ensures(ContainerStore::contains_key, (s, k), found),
    ensures
        found <==> exists|j: int| 0 <= j < keys@.len() && #[trigger] keys@[j] == k,
        found <==> exists|j: int| 0 <= j < list@.len() && (#[trigger] list@[j]).0 == k,
        found <==> exists|j: int| 0 <= j < cards@.len() && (#[trigger] cards@[j]).0 == k,
        forall|a: int, b: int| 0 <= a < b < keys@.len() ==> #[trigger] keys@[a] < #[trigger] keys@[b],
        n == keys@.len() && n == list@.len() && n == cards@.len(),
        0 <= i < list@.len() && call_ensures(ContainerStore::get, (s, list@[i].0), read) ==> read is Some && read->0@
            == list@[i].1@,
{
    assert(found == keys@.contains(k));
    law_listed_entries(*s, list@);
    if 0 <= i < list@.len() && call_ensures(ContainerStore::get, (s, list@[i].0), read) {
        assert(s.entries().dom().contains(list@[i].0));
        law_read_gives_what_was_written(s.entries()[list@[i].0].0, list@[i].1, read->0);
    }
}

/// Images are opened exactly where their header is that of a store, its table and its values
/// are inside, and every live slot is inside the values.
pub proof fn law_validated_images(key: &[u8], val_len: usize, r: Result<(), StoreError>)
    requires
        call_ensures(validate_open, (key, val_len), r),
    ensures
        r is Ok <==> {
            let h = layout::header_at(key@);
            &&& key@.len() >= 64
            &&& layout::magic_at(key@) == 0x4D494E4E414C4249
            &&& layout::version_at(key@) == 1
            &&& region::is_pow2(h.capacity as int)
            &&& 64 + 48 * h.capacity <= key@.len()
            &&& h.value_write_pos <= val_len
            &&& forall|i: int|
                0 <= i < h.capacity && (#[trigger] layout::slot_at(key@, i)).state == 1 ==> layout::slot_at(key@, i).offset
                    + layout::slot_at(key@, i).len <= h.value_write_pos
        },
        key@.len() < 64 <==> r == Err::<(), StoreError>(StoreError::ShortKeyFile),
{
    assert(key@.len() == key.len());
    law_accepted_images(key@, val_len as nat);
    law_refused_images(key@, val_len as nat);
}

/// A new store is empty: its table has sixteen slots behind the header, and no value is
/// written.
pub proof fn law_new_store(s: ContainerStore, key: u128, found: bool, h: u64)
    requires
        call_ensures(ContainerStore::new_anon, (), s),
        call_ensures(ContainerStore::contains_key, (&s, key), found),
        call_ensures(hash_key, (key,), h),
    ensures
        !found,
        s.hdr().capacity == 16 && s.hdr().count == 0 && s.hdr().tombstone_count == 0,
        s.hdr().cardinality == 0 && s.hdr().value_write_pos == 0,
        s.key_bytes().len() == 64 + 16 * 48,
        s.val_bytes().len() == 4096,
        h == table::key_hash(key),
{
}

} // verus!

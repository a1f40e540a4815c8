//! Byte layout of the container table: a header and fixed-size slots.

use vstd::prelude::*;

use crate::bytes;
use crate::bytes::{get_u128, get_u32, get_u64, push_le, put_bytes};

verus! {

/// First bytes of a container table.
pub const MAGIC: u64 = 0x4D494E4E414C4249;

/// Layout version.
pub const VERSION: u32 = 1;

/// Bytes of the header.
pub const HEADER_SIZE: usize = 64;

/// Bytes of one slot.
pub const SLOT_SIZE: usize = 48;

/// A slot that never held an entry.
pub const STATE_EMPTY: u8 = 0;

/// A slot that holds an entry.
pub const STATE_OCCUPIED: u8 = 1;

/// A slot whose entry was removed.
pub const STATE_TOMBSTONE: u8 = 2;

/// The counters in the header.
#[derive(Debug, Clone, Copy, PartialEq, Eq, Structural)]
pub struct Header {
    /// Number of slots, a power of two.
    pub capacity: u64,
    /// Live entries.
    pub count: u64,
    /// Tombstone slots.
    pub tombstone_count: u64,
    /// Values over all live entries.
    pub cardinality: u64,
    /// Next write offset in the value region.
    pub value_write_pos: u64,
}

/// One slot of the table.
#[derive(Debug, Clone, Copy, PartialEq, Eq, Structural)]
pub struct Slot {
    pub state: u8,
    pub key: u128,
    /// Byte offset of the blob in the value region.
    pub offset: u64,
    /// Byte length of the blob.
    pub len: u32,
    /// Number of values of the blob's container.
    pub card: u32,
}

/// `n` zero bytes.
pub open spec fn zero_bytes(n: nat) -> Seq<u8> {
    Seq::new(n, |k: int| 0u8)
}

/// The magic number of `data`.
pub open spec fn magic_at(data: Seq<u8>) -> u64 {
    bytes::field(data, 0, 8) as u64
}

/// The version of `data`.
pub open spec fn version_at(data: Seq<u8>) -> u32 {
    bytes::field(data, 8, 4) as u32
}

/// The header of `data`.
pub open spec fn header_at(data: Seq<u8>) -> Header {
    Header {
        capacity: bytes::field(data, 16, 8) as u64,
        count: bytes::field(data, 24, 8) as u64,
        tombstone_count: bytes::field(data, 32, 8) as u64,
        cardinality: bytes::field(data, 40, 8) as u64,
        value_write_pos: bytes::field(data, 48, 8) as u64,
    }
}

/// Offset of slot `i`.
pub open spec fn slot_pos(i: int) -> int {
    HEADER_SIZE + i * SLOT_SIZE
}

/// Slot `i` of `data`.
pub open spec fn slot_at(data: Seq<u8>, i: int) -> Slot {
    let b = slot_pos(i);
    Slot {
        state: data[b],
        key: bytes::field(data, b + 8, 16) as u128,
        offset: bytes::field(data, b + 24, 8) as u64,
        len: bytes::field(data, b + 32, 4) as u32,
        card: bytes::field(data, b + 36, 4) as u32,
    }
}

/// The bytes of a header.
pub open spec fn header_bytes(h: Header) -> Seq<u8> {
    bytes::le_bytes(MAGIC as nat, 8) + bytes::le_bytes(VERSION as nat, 4) + zero_bytes(4) + bytes::le_bytes(
        h.capacity as nat,
        8,
    ) + bytes::le_bytes(h.count as nat, 8) + bytes::le_bytes(h.tombstone_count as nat, 8) + bytes::le_bytes(
        h.cardinality as nat,
        8,
    ) + bytes::le_bytes(h.value_write_pos as nat, 8) + zero_bytes(8)
}

/// The bytes of a slot.
pub open spec fn slot_bytes(s: Slot) -> Seq<u8> {
    seq![s.state] + zero_bytes(7) + bytes::le_bytes(s.key as nat, 16) + bytes::le_bytes(s.offset as nat, 8)
        + bytes::le_bytes(s.len as nat, 4) + bytes::le_bytes(s.card as nat, 4) + zero_bytes(8)
}

/// Append `n` zero bytes.
fn push_zeros(out: &mut Vec<u8>, n: usize)
    ensures
        final(out)@ == old(out)@ + zero_bytes(n as nat),
{
    let mut k: usize = 0;
    while k < n
        invariant
            k <= n,
            out@ == old(out)@ + zero_bytes(k as nat),
        decreases n - k,
    {
        out.push(0);
        k = k + 1;
        assert(out@ =~= old(out)@ + zero_bytes(k as nat));
    }
    assert(out@ =~= old(out)@ + zero_bytes(n as nat));
}

/// Read the header of a table image.
pub fn read_header(data: &[u8]) -> (h: Header)
    requires
        data@.len() >= HEADER_SIZE,
    ensures
        h == header_at(data@),
{
    Header {
        capacity: get_u64(data, 16),
        count: get_u64(data, 24),
        tombstone_count: get_u64(data, 32),
        cardinality: get_u64(data, 40),
        value_write_pos: get_u64(data, 48),
    }
}

/// Write the header of a table image.
pub fn write_header(data: &mut Vec<u8>, h: &Header)
    requires
        old(data)@.len() >= HEADER_SIZE,
    ensures
        final(data)@ == bytes::splice(old(data)@, 0, header_bytes(*h)),
{
    let mut out: Vec<u8> = Vec::new();
    push_le(&mut out, 8, MAGIC as u128);
    push_le(&mut out, 4, VERSION as u128);
    push_zeros(&mut out, 4);
    push_le(&mut out, 8, h.capacity as u128);
    push_le(&mut out, 8, h.count as u128);
    push_le(&mut out, 8, h.tombstone_count as u128);
    push_le(&mut out, 8, h.cardinality as u128);
    push_le(&mut out, 8, h.value_write_pos as u128);
    push_zeros(&mut out, 8);
    proof {
        assert(out@ =~= header_bytes(*h));
        lemma_header_bytes_len(*h);
    }
    put_bytes(data, 0, out.as_slice());
}

/// Write the header of an empty table of `capacity` slots.
pub fn init_header(data: &mut Vec<u8>, capacity: usize)
    requires
        old(data)@.len() >= HEADER_SIZE,
    ensures
        final(data)@ == bytes::splice(
            old(data)@,
            0,
            header_bytes(
                (Header {
                    capacity: capacity as u64,
                    count: 0,
                    tombstone_count: 0,
                    cardinality: 0,
                    value_write_pos: 0,
                }),
            ),
        ),
{
    write_header(
        data,
        &Header { capacity: capacity as u64, count: 0, tombstone_count: 0, cardinality: 0, value_write_pos: 0 },
    );
}

/// Offset of slot `i`.
pub fn slot_byte_offset(i: usize) -> (at: usize)
    requires
        slot_pos(i as int) <= usize::MAX,
    ensures
        at == slot_pos(i as int),
{
    HEADER_SIZE + i * SLOT_SIZE
}

/// Read slot `i` of a table image.
pub fn read_slot(data: &[u8], i: usize) -> (s: Slot)
    requires
        slot_pos(i + 1) <= data@.len(),
    ensures
        s == slot_at(data@, i as int),
{
    assert(slot_pos(i as int) + SLOT_SIZE <= data.len());
    let b: usize = slot_byte_offset(i);
    Slot {
        state: data[b],
        key: get_u128(data, b + 8),
        offset: get_u64(data, b + 24),
        len: get_u32(data, b + 32),
        card: get_u32(data, b + 36),
    }
}

/// Write slot `i` of a table image.
pub fn write_slot(data: &mut Vec<u8>, i: usize, s: &Slot)
    requires
        slot_pos(i + 1) <= old(data)@.len(),
    ensures
        final(data)@ == bytes::splice(old(data)@, slot_pos(i as int), slot_bytes(*s)),
{
    assert(slot_pos(i as int) + SLOT_SIZE <= data.len());
    let b: usize = slot_byte_offset(i);
    let mut out: Vec<u8> = Vec::new();
    out.push(s.state);
    push_zeros(&mut out, 7);
    push_le(&mut out, 16, s.key);
    push_le(&mut out, 8, s.offset as u128);
    push_le(&mut out, 4, s.len as u128);
    push_le(&mut out, 4, s.card as u128);
    push_zeros(&mut out, 8);
    proof {
        assert(out@ =~= slot_bytes(*s));
        lemma_slot_bytes_len(*s);
    }
    put_bytes(data, b, out.as_slice());
}

pub proof fn lemma_header_bytes_len(h: Header)
    ensures
        header_bytes(h).len() == HEADER_SIZE,
{
    bytes::lemma_le_bytes_len(MAGIC as nat, 8);
    bytes::lemma_le_bytes_len(VERSION as nat, 4);
    bytes::lemma_le_bytes_len(h.capacity as nat, 8);
    bytes::lemma_le_bytes_len(h.count as nat, 8);
    bytes::lemma_le_bytes_len(h.tombstone_count as nat, 8);
    bytes::lemma_le_bytes_len(h.cardinality as nat, 8);
    bytes::lemma_le_bytes_len(h.value_write_pos as nat, 8);
}

pub proof fn lemma_slot_bytes_len(s: Slot)
    ensures
        slot_bytes(s).len() == SLOT_SIZE,
{
    bytes::lemma_le_bytes_len(s.key as nat, 16);
    bytes::lemma_le_bytes_len(s.offset as nat, 8);
    bytes::lemma_le_bytes_len(s.len as nat, 4);
    bytes::lemma_le_bytes_len(s.card as nat, 4);
}

/// A written header reads back, and the slots stay as they were.
pub proof fn lemma_write_header(data: Seq<u8>, h: Header)
    requires
        data.len() >= HEADER_SIZE,
    ensures
        ({
            let after = bytes::splice(data, 0, header_bytes(h));
            &&& after.len() == data.len()
            &&& header_at(after) == h
            &&& magic_at(after) == MAGIC
            &&& version_at(after) == VERSION
            &&& forall|i: int| 0 <= i && slot_pos(i + 1) <= data.len() ==> #[trigger] slot_at(after, i) == slot_at(data, i)
        }),
{
    let after = bytes::splice(data, 0, header_bytes(h));
    let hb = header_bytes(h);
    lemma_header_bytes_len(h);
    bytes::lemma_pow256();
    bytes::lemma_le_bytes_len(MAGIC as nat, 8);
    bytes::lemma_le_bytes_len(VERSION as nat, 4);
    bytes::lemma_le_bytes_len(h.capacity as nat, 8);
    bytes::lemma_le_bytes_len(h.count as nat, 8);
    bytes::lemma_le_bytes_len(h.tombstone_count as nat, 8);
    bytes::lemma_le_bytes_len(h.cardinality as nat, 8);
    bytes::lemma_le_bytes_len(h.value_write_pos as nat, 8);
    bytes::lemma_field_value(after, 0, 8, MAGIC as nat);
    bytes::lemma_field_value(after, 8, 4, VERSION as nat);
    bytes::lemma_field_value(after, 16, 8, h.capacity as nat);
    bytes::lemma_field_value(after, 24, 8, h.count as nat);
    bytes::lemma_field_value(after, 32, 8, h.tombstone_count as nat);
    bytes::lemma_field_value(after, 40, 8, h.cardinality as nat);
    bytes::lemma_field_value(after, 48, 8, h.value_write_pos as nat);
    assert forall|i: int| 0 <= i && slot_pos(i + 1) <= data.len() implies #[trigger] slot_at(after, i) == slot_at(
        data,
        i,
    ) by {
        lemma_slot_same(after, data, i);
    }
}

/// A slot depends on its own bytes only.
pub proof fn lemma_slot_same(a: Seq<u8>, b: Seq<u8>, i: int)
    requires
        0 <= i,
        slot_pos(i + 1) <= a.len(),
        slot_pos(i + 1) <= b.len(),
        forall|k: int| slot_pos(i) <= k < slot_pos(i + 1) ==> a[k] == b[k],
    ensures
        slot_at(a, i) == slot_at(b, i),
{
    let p = slot_pos(i);
    bytes::lemma_field_same(a, b, p + 8, 16);
    bytes::lemma_field_same(a, b, p + 24, 8);
    bytes::lemma_field_same(a, b, p + 32, 4);
    bytes::lemma_field_same(a, b, p + 36, 4);
}

/// The header depends on the first bytes only.
pub proof fn lemma_header_same(a: Seq<u8>, b: Seq<u8>)
    requires
        a.len() >= HEADER_SIZE,
        b.len() >= HEADER_SIZE,
        forall|k: int| 0 <= k < HEADER_SIZE ==> a[k] == b[k],
    ensures
        header_at(a) == header_at(b),
        magic_at(a) == magic_at(b),
        version_at(a) == version_at(b),
{
    bytes::lemma_field_same(a, b, 0, 8);
    bytes::lemma_field_same(a, b, 8, 4);
    bytes::lemma_field_same(a, b, 16, 8);
    bytes::lemma_field_same(a, b, 24, 8);
    bytes::lemma_field_same(a, b, 32, 8);
    bytes::lemma_field_same(a, b, 40, 8);
    bytes::lemma_field_same(a, b, 48, 8);
}

/// A written slot reads back; the header and the other slots stay.
pub proof fn lemma_write_slot(data: Seq<u8>, i: int, s: Slot)
    requires
        0 <= i,
        slot_pos(i + 1) <= data.len(),
    ensures
        ({
            let after = bytes::splice(data, slot_pos(i), slot_bytes(s));
            &&& after.len() == data.len()
            &&& slot_at(after, i) == s
            &&& header_at(after) == header_at(data)
            &&& magic_at(after) == magic_at(data)
            &&& version_at(after) == version_at(data)
            &&& forall|j: int|
                0 <= j && j != i && slot_pos(j + 1) <= data.len() ==> #[trigger] slot_at(after, j) == slot_at(data, j)
        }),
{
    let p = slot_pos(i);
    let after = bytes::splice(data, p, slot_bytes(s));
    lemma_slot_bytes_len(s);
    bytes::lemma_pow256();
    bytes::lemma_le_bytes_len(s.key as nat, 16);
    bytes::lemma_le_bytes_len(s.offset as nat, 8);
    bytes::lemma_le_bytes_len(s.len as nat, 4);
    bytes::lemma_le_bytes_len(s.card as nat, 4);
    assert(after[p] == slot_bytes(s)[0]);
    bytes::lemma_field_value(after, p + 8, 16, s.key as nat);
    bytes::lemma_field_value(after, p + 24, 8, s.offset as nat);
    bytes::lemma_field_value(after, p + 32, 4, s.len as nat);
    bytes::lemma_field_value(after, p + 36, 4, s.card as nat);
    lemma_header_same(after, data);
    assert forall|j: int| 0 <= j && j != i && slot_pos(j + 1) <= data.len() implies #[trigger] slot_at(after, j)
        == slot_at(data, j) by {
        assert(slot_pos(j + 1) <= p || slot_pos(i + 1) <= slot_pos(j)) by (nonlinear_arith)
            requires
                j != i,
                p == slot_pos(i),
        ;
        lemma_slot_same(after, data, j);
    }
}

/// Overwriting the state byte changes the state of that slot and nothing else.
pub proof fn lemma_write_state(data: Seq<u8>, i: int, state: u8)
    requires
        0 <= i,
        slot_pos(i + 1) <= data.len(),
    ensures
        ({
            let after = data.update(slot_pos(i), state);
            &&& slot_at(after, i) == (Slot { state, ..slot_at(data, i) })
            &&& header_at(after) == header_at(data)
            &&& magic_at(after) == magic_at(data)
            &&& version_at(after) == version_at(data)
            &&& forall|j: int|
                0 <= j && j != i && slot_pos(j + 1) <= data.len() ==> #[trigger] slot_at(after, j) == slot_at(data, j)
        }),
{
    let p = slot_pos(i);
    let after = data.update(p, state);
    bytes::lemma_field_same(after, data, p + 8, 16);
    bytes::lemma_field_same(after, data, p + 24, 8);
    bytes::lemma_field_same(after, data, p + 32, 4);
    bytes::lemma_field_same(after, data, p + 36, 4);
    lemma_header_same(after, data);
    assert forall|j: int| 0 <= j && j != i && slot_pos(j + 1) <= data.len() implies #[trigger] slot_at(after, j)
        == slot_at(data, j) by {
        assert(slot_pos(j + 1) <= p || slot_pos(i + 1) <= slot_pos(j)) by (nonlinear_arith)
            requires
                j != i,
                p == slot_pos(i),
        ;
        lemma_slot_same(after, data, j);
    }
}

/// The header of an image: the magic number in the first eight bytes, the version in the
/// next four, and the five counters in eight bytes each from byte 16 on, all of them
/// little-endian.
pub proof fn law_place_of_the_header(data: Seq<u8>)
    ensures
        magic_at(data) == bytes::le_value(data.subrange(0, 8)) as u64,
        version_at(data) == bytes::le_value(data.subrange(8, 12)) as u32,
        header_at(data).capacity == bytes::le_value(data.subrange(16, 24)) as u64,
        header_at(data).count == bytes::le_value(data.subrange(24, 32)) as u64,
        header_at(data).tombstone_count == bytes::le_value(data.subrange(32, 40)) as u64,
        header_at(data).cardinality == bytes::le_value(data.subrange(40, 48)) as u64,
        header_at(data).value_write_pos == bytes::le_value(data.subrange(48, 56)) as u64,
{
}

/// The slots of an image: 48 bytes each from byte 64 on, the state in the first byte, the
/// key in sixteen from byte 8 on, then the offset, the length and the cardinality, all of
/// them little-endian.
pub proof fn law_place_of_a_slot(data: Seq<u8>, i: int)
    ensures
        ({
            let b = 64 + 48 * i;
            let s = slot_at(data, i);
            &&& s.state == data[b]
            &&& s.key == bytes::le_value(data.subrange(b + 8, b + 24)) as u128
            &&& s.offset == bytes::le_value(data.subrange(b + 24, b + 32)) as u64
            &&& s.len == bytes::le_value(data.subrange(b + 32, b + 36)) as u32
            &&& s.card == bytes::le_value(data.subrange(b + 36, b + 40)) as u32
        }),
{
}

/// Writing a header or a slot: it is read again as it was written, and the slots, or the
/// header and the other slots, stay.
pub proof fn law_written_and_read(
    data: &mut Vec<u8>,
    h: &Header,
    other: &mut Vec<u8>,
    i: usize,
    s: &Slot,
    j: int,
)
    requires
        old(data)@.len() >= 64,
        call_ensures(write_header, (data, h), ()),
        64 + 48 * (i + 1) <= old(other)@.len(),
        call_ensures(write_slot, (other, i, s), ()),
    ensures
        header_at(final(data)@) == *h,
        0 <= j && 64 + 48 * (j + 1) <= old(data)@.len() ==> slot_at(final(data)@, j) == slot_at(old(data)@, j),
        slot_at(final(other)@, i as int) == *s,
        header_at(final(other)@) == header_at(old(other)@),
        0 <= j && j != i && 64 + 48 * (j + 1) <= old(other)@.len() ==> slot_at(final(other)@, j) == slot_at(old(other)@, j),
        final(data)@.len() == old(data)@.len() && final(other)@.len() == old(other)@.len(),
{
    lemma_write_header(old(data)@, *h);
    lemma_write_slot(old(other)@, i as int, *s);
}

} // verus!

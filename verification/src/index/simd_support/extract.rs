//! Listing the set bits of a bitset's words.

use vstd::prelude::*;

use crate::index::container::bitset;
use crate::index::container::bitset::BITSET_WORDS;
use crate::seqs;

verus! {

/// Cardinality from which the byte-wise extraction is used.
pub const DENSE_EXTRACT_THRESHOLD: usize = 1024;

/// `out` lists, in increasing order, exactly the set bits below `limit`.
pub open spec fn lists_below(out: Seq<u16>, words: Seq<u64>, limit: int) -> bool {
    &&& seqs::increasing(out)
    &&& forall|v: u16|
        #![trigger out.contains(v)]
        #![trigger bitset::has_bit(words, v)]
        out.contains(v) <==> (v < limit && bitset::has_bit(words, v))
}

/// The positions of all set bits, in increasing order.
///
/// `cardinality` selects the extraction path and sizes the result's buffer; the
/// result does not depend on it.
pub fn extract_bitset_to_values(bits: &[u64; BITSET_WORDS], cardinality: usize) -> (out: Vec<u16>)
    ensures
        lists_below(out@, bits@, 65536),
{
    if cardinality >= DENSE_EXTRACT_THRESHOLD {
        return extract_dense_lookup(bits, cardinality);
    }
    extract_scalar(bits, cardinality)
}

/// One-bit-at-a-time extraction, best where few bits are set per word.
pub fn extract_scalar(bits: &[u64; BITSET_WORDS], cardinality: usize) -> (out: Vec<u16>)
    ensures
        lists_below(out@, bits@, 65536),
{
    let mut result: Vec<u16> = Vec::with_capacity(cardinality);
    let mut i: usize = 0;
    while i < BITSET_WORDS
        invariant
            i <= BITSET_WORDS,
            lists_below(result@, bits@, 64 * i),
        decreases BITSET_WORDS - i,
    {
        let word: u64 = bits[i];
        let mut w: u64 = word;
        let ghost mut low: int = 0;
        proof {
            assert(lists_below(result@, bits@, 64 * i + low));
        }
        while w != 0
            invariant
                i < BITSET_WORDS,
                0 <= low <= 64,
                word == bits@[i as int],
                lists_below(result@, bits@, 64 * i + low),
                forall|q: u64| q < 64 ==> #[trigger] bitset::word_bit(w, q) == (q >= low && bitset::word_bit(word, q)),
            decreases w,
        {
            let t: u32 = w.trailing_zeros();
            proof {
                bitset::lemma_drop_lowest(w, t as u64);
            }
            let pos: u16 = (i as u16) * 64 + t as u16;
            let ghost before = result@;
            result.push(pos);
            proof {
                assert forall|v: u16| 64 * i + low <= v < pos implies !#[trigger] bitset::has_bit(bits@, v) by {
                    lemma_split(v, i as int);
                    assert(!bitset::word_bit(w, (v % 64) as u64));
                }
                lemma_split(pos, i as int);
                lemma_push_position(before, bits@, 64 * i + low, pos);
                low = t + 1;
            }
            w = w & (w - 1);
        }
        proof {
            assert forall|v: u16| 64 * i + low <= v < 64 * (i + 1) implies !#[trigger] bitset::has_bit(bits@, v) by {
                lemma_split(v, i as int);
                let q = (v % 64) as u64;
                assert((0u64 >> q) & 1 == 0) by (bit_vector);
                assert(!bitset::word_bit(w, q));
            }
            lemma_extend(result@, bits@, 64 * i + low, 64 * (i + 1));
        }
        i = i + 1;
    }
    result
}

/// Values of word `i` and their bit in it.
proof fn lemma_split(v: u16, i: int)
    requires
        64 * i <= v < 64 * (i + 1),
    ensures
        (v as int) / 64 == i,
        v % 64 == v - 64 * i,
{
}

/// A listing stays one when its limit moves over clear bits only.
proof fn lemma_extend(out: Seq<u16>, words: Seq<u64>, limit: int, end: int)
    requires
        lists_below(out, words, limit),
        limit <= end,
        forall|v: u16| limit <= v < end ==> !#[trigger] bitset::has_bit(words, v),
    ensures
        lists_below(out, words, end),
{
}

/// Appending the next set bit extends the listing to just past it.
proof fn lemma_push_position(out: Seq<u16>, words: Seq<u64>, limit: int, pos: u16)
    requires
        lists_below(out, words, limit),
        limit <= pos,
        bitset::has_bit(words, pos),
        forall|v: u16| limit <= v < pos ==> !#[trigger] bitset::has_bit(words, v),
    ensures
        lists_below(out.push(pos), words, pos + 1),
{
    assert forall|u: u16| #[trigger] out.contains(u) implies u < pos by {
        assert(bitset::has_bit(words, u));
    }
    seqs::lemma_push_increasing(out, pos);
    assert forall|v: u16| out.push(pos).contains(v) == (v < pos + 1 && bitset::has_bit(words, v)) by {
        seqs::lemma_push_contains(out, pos, v);
    }
}

/// Byte-wise extraction: eight steps per word, empty words and bytes skipped.
pub fn extract_dense_lookup(bits: &[u64; BITSET_WORDS], cardinality: usize) -> (out: Vec<u16>)
    ensures
        lists_below(out@, bits@, 65536),
{
    let mut result: Vec<u16> = Vec::with_capacity(cardinality);
    let mut i: usize = 0;
    while i < BITSET_WORDS
        invariant
            i <= BITSET_WORDS,
            lists_below(result@, bits@, 64 * i),
        decreases BITSET_WORDS - i,
    {
        let word: u64 = bits[i];
        if word != 0 {
            push_word_positions(bits, i, &mut result);
        } else {
            proof {
                assert forall|v: u16| 64 * i <= v < 64 * (i + 1) implies !#[trigger] bitset::has_bit(bits@, v) by {
                    lemma_split(v, i as int);
                    let q = (v % 64) as u64;
                    assert((0u64 >> q) & 1 == 0) by (bit_vector);
                }
                lemma_extend(result@, bits@, 64 * i as int, 64 * (i + 1));
            }
        }
        i = i + 1;
    }
    result
}

/// Append the positions of the bits set in word `i`.
fn push_word_positions(bits: &[u64; BITSET_WORDS], i: usize, out: &mut Vec<u16>)
    requires
        i < BITSET_WORDS,
        lists_below(old(out)@, bits@, 64 * i),
    ensures
        lists_below(final(out)@, bits@, 64 * (i + 1)),
{
    let word: u64 = bits[i];
    let base: u16 = (i as u16) * 64;
    let mut k: u16 = 0;
    while k < 8
        invariant
            i < BITSET_WORDS,
            k <= 8,
            base == 64 * i,
            word == bits@[i as int],
            lists_below(out@, bits@, 64 * i + 8 * k),
        decreases 8 - k,
    {
        let shift: u64 = (k * 8) as u64;
        let mut byte: u64 = (word >> shift) & 0xff;
        let ghost full = byte;
        let ghost mut low: int = 0;
        proof {
            assert forall|q: u64| q < 64 implies #[trigger] bitset::word_bit(full, q) == (q < 8 && bitset::word_bit(
                word,
                (shift + q) as u64,
            )) by {
                assert((((word >> shift) & 0xff) >> q) & 1 == 1 <==> q < 8 && (word >> ((shift + q) as u64)) & 1 == 1)
                    by (bit_vector)
                    requires
                        shift < 64,
                        q < 64,
                ;
            }
            assert(lists_below(out@, bits@, 64 * i + 8 * k + low));
        }
        while byte != 0
            invariant
                i < BITSET_WORDS,
                k < 8,
                shift == 8 * k,
                base == 64 * i,
                word == bits@[i as int],
                0 <= low <= 8,
                lists_below(out@, bits@, 64 * i + 8 * k + low),
                forall|q: u64| q < 64 ==> #[trigger] bitset::word_bit(full, q) == (q < 8 && bitset::word_bit(
                    word,
                    (shift + q) as u64,
                )),
                forall|q: u64| q < 64 ==> #[trigger] bitset::word_bit(byte, q) == (q >= low && bitset::word_bit(full, q)),
            decreases byte,
        {
            let t: u32 = byte.trailing_zeros();
            proof {
                bitset::lemma_drop_lowest(byte, t as u64);
                assert(bitset::word_bit(full, t as u64));
            }
            let pos: u16 = base + k * 8 + t as u16;
            let ghost before = out@;
            out.push(pos);
            proof {
                assert forall|v: u16| 64 * i + 8 * k + low <= v < pos implies !#[trigger] bitset::has_bit(bits@, v) by {
                    lemma_split(v, i as int);
                    let q = (v - 64 * i - 8 * k) as u64;
                    assert(!bitset::word_bit(byte, q));
                    assert(!bitset::word_bit(full, q));
                    assert((shift + q) as u64 == (v % 64) as u64);
                }
                assert((shift + t) as u64 == (pos % 64) as u64);
                lemma_push_position(before, bits@, 64 * i + 8 * k + low, pos);
                low = t + 1;
            }
            byte = byte & (byte - 1);
        }
        proof {
            assert forall|v: u16| 64 * i + 8 * k + low <= v < 64 * i + 8 * (k + 1) implies !#[trigger] bitset::has_bit(
                bits@,
                v,
            ) by {
                lemma_split(v, i as int);
                let q = (v - 64 * i - 8 * k) as u64;
                assert((0u64 >> q) & 1 == 0) by (bit_vector);
                assert(!bitset::word_bit(byte, q));
                assert(!bitset::word_bit(full, q));
                assert((shift + q) as u64 == (v % 64) as u64);
            }
            lemma_extend(out@, bits@, 64 * i + 8 * k + low, 64 * i + 8 * (k + 1));
        }
        k = k + 1;
    }
}

/// What is extracted is every position whose bit is set, in increasing order.
pub proof fn law_every_set_bit_is_extracted(out: Seq<u16>, words: Seq<u64>)
    requires
        lists_below(out, words, 65536),
    ensures
        forall|i: int, j: int| 0 <= i < j < out.len() ==> #[trigger] out[i] < #[trigger] out[j],
        forall|v: u16| #[trigger] out.contains(v) <==> (words[v as int / 64] >> ((v % 64) as u64)) & 1 == 1,
{
}

} // verus!

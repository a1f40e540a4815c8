//! Bulk bit updates of a bitset's words.

use vstd::prelude::*;

use crate::index::container::bitset;
use crate::index::container::bitset::BITSET_WORDS;
use crate::index::container::run;
use crate::index::container::run::Run;
use crate::seqs;

verus! {

/// Set every bit position in `values` into `bits`.
///
/// Skips the exists-check of a per-value insert: setting a bit that is already
/// set changes nothing.
pub fn set_bits_from_array(bits: &mut [u64; BITSET_WORDS], values: &[u16])
    ensures
        forall|v: u16| #[trigger]
            bitset::has_bit(final(bits)@, v) == (bitset::has_bit(old(bits)@, v) || values@.contains(v)),
{
    let mut i: usize = 0;
    while i < values.len()
        invariant
            i <= values.len(),
            forall|v: u16| #[trigger]
                bitset::has_bit(bits@, v) == (bitset::has_bit(old(bits)@, v) || values@.take(i as int).contains(v)),
        decreases values.len() - i,
    {
        let v: u16 = values[i];
        assert(v >> 6 == v / 64 && v & 63 == v % 64 && v / 64 < 1024) by (bit_vector);
        let word: usize = (v >> 6) as usize;
        let bit: u64 = 1u64 << ((v & 63) as u64);
        let ghost before = bits@;
        bits[word] = bits[word] | bit;
        proof {
            assert(values@.take(i + 1) =~= values@.take(i as int).push(v));
            assert forall|u: u16| #[trigger]
                bitset::has_bit(bits@, u) == (bitset::has_bit(old(bits)@, u) || values@.take(i + 1).contains(u)) by {
                assert(bitset::has_bit(before, u) == (bitset::has_bit(old(bits)@, u) || values@.take(
                    i as int,
                ).contains(u)));
                seqs::lemma_push_contains(values@.take(i as int), v, u);
                if (u as int) / 64 == (v as int) / 64 {
                    bitset::lemma_set_bit(before[word as int], (v % 64) as u64, (u % 64) as u64);
                }
            }
        }
        i = i + 1;
    }
    assert(values@.take(i as int) =~= values@);
}

/// Clear every bit position in `values` from `bits`.
pub fn clear_bits_from_array(bits: &mut [u64; BITSET_WORDS], values: &[u16])
    ensures
        forall|v: u16| #[trigger]
            bitset::has_bit(final(bits)@, v) == (bitset::has_bit(old(bits)@, v) && !values@.contains(v)),
{
    let mut i: usize = 0;
    while i < values.len()
        invariant
            i <= values.len(),
            forall|v: u16| #[trigger]
                bitset::has_bit(bits@, v) == (bitset::has_bit(old(bits)@, v) && !values@.take(i as int).contains(v)),
        decreases values.len() - i,
    {
        let v: u16 = values[i];
        assert(v >> 6 == v / 64 && v & 63 == v % 64 && v / 64 < 1024) by (bit_vector);
        let word: usize = (v >> 6) as usize;
        let bit: u64 = 1u64 << ((v & 63) as u64);
        let ghost before = bits@;
        bits[word] = bits[word] & !bit;
        proof {
            assert(values@.take(i + 1) =~= values@.take(i as int).push(v));
            assert forall|u: u16| #[trigger]
                bitset::has_bit(bits@, u) == (bitset::has_bit(old(bits)@, u) && !values@.take(i + 1).contains(u)) by {
                assert(bitset::has_bit(before, u) == (bitset::has_bit(old(bits)@, u) && !values@.take(
                    i as int,
                ).contains(u)));
                seqs::lemma_push_contains(values@.take(i as int), v, u);
                if (u as int) / 64 == (v as int) / 64 {
                    bitset::lemma_clear_bit(before[word as int], (v % 64) as u64, (u % 64) as u64);
                }
            }
        }
        i = i + 1;
    }
    assert(values@.take(i as int) =~= values@);
}

/// A word with exactly the bits `lo ..= hi` set.
pub fn word_mask(lo: usize, hi: usize) -> (mask: u64)
    requires
        lo <= hi < 64,
    ensures
        forall|q: u64| q < 64 ==> #[trigger] bitset::word_bit(mask, q) == (lo <= q <= hi),
{
    let len: usize = hi - lo + 1;
    if len == 64 {
        proof {
            assert forall|q: u64| q < 64 implies #[trigger] bitset::word_bit(!0u64, q) by {
                assert((!0u64 >> q) & 1 == 1) by (bit_vector)
                    requires
                        q < 64,
                ;
            }
        }
        !0u64
    } else {
        let n: u64 = len as u64;
        let l: u64 = lo as u64;
        assert(1u64 << n >= 1) by (bit_vector)
            requires
                n < 64,
        ;
        proof {
            assert forall|q: u64| q < 64 implies #[trigger] bitset::word_bit((((1u64 << n) - 1) as u64) << l, q) == (
            lo <= q <= hi) by {
                assert((((((1u64 << n) - 1) as u64) << l) >> q) & 1 == 1 <==> l <= q && q < l + n) by (bit_vector)
                    requires
                        0 < n < 64,
                        l < 64,
                        l + n <= 64,
                        q < 64,
                ;
            }
        }
        ((1u64 << n) - 1) << l
    }
}

/// The head and tail masks of one run, applied to the words it spans.
proof fn lemma_head_mask(p: u64, q: u64)
    requires
        p < 64,
        q < 64,
    ensures
        bitset::word_bit(!0u64 << p, q) == (p <= q),
{
    assert(((!0u64 << p) >> q) & 1 == 1 <==> p <= q) by (bit_vector)
        requires
            p < 64,
            q < 64,
    ;
}

proof fn lemma_or_bit(a: u64, b: u64, q: u64)
    requires
        q < 64,
    ensures
        bitset::word_bit(a | b, q) == (bitset::word_bit(a, q) || bitset::word_bit(b, q)),
{
    assert(((a | b) >> q) & 1 == 1 <==> ((a >> q) & 1 == 1 || (b >> q) & 1 == 1)) by (bit_vector);
}

/// Set the bits of one run.
fn set_run(bits: &mut [u64; BITSET_WORDS], run: Run)
    requires
        run.wf(),
    ensures
        forall|v: u16| #[trigger]
            bitset::has_bit(final(bits)@, v) == (bitset::has_bit(old(bits)@, v) || run.covers(v)),
{
    let first: usize = run.start as usize;
    let last: usize = run.end() as usize;
    assert(first >> 6 == first / 64 && first & 63 == first % 64) by (bit_vector);
    assert(last >> 6 == last / 64 && last & 63 == last % 64) by (bit_vector);
    let first_word: usize = first >> 6;
    let last_word: usize = last >> 6;
    let ghost start = bits@;
    if first_word == last_word {
        let mask: u64 = word_mask(first & 63, last & 63);
        bits[first_word] = bits[first_word] | mask;
        proof {
            assert forall|u: u16| #[trigger]
                bitset::has_bit(bits@, u) == (bitset::has_bit(start, u) || run.covers(u)) by {
                let q = (u % 64) as u64;
                if (u as int) / 64 == first_word {
                    lemma_or_bit(start[first_word as int], mask, q);
                }
            }
        }
    } else {
        bits[first_word] = bits[first_word] | (!0u64 << ((first & 63) as u64));
        let ghost headed = bits@;
        let mut w: usize = first_word + 1;
        while w < last_word
            invariant
                first_word < w <= last_word < 1024,
                bits@.len() == 1024,
                headed.len() == 1024,
                forall|k: int| 0 <= k < 1024 ==> bits@[k] == (if first_word < k < w {
                    !0u64
                } else {
                    headed[k]
                }),
            decreases last_word - w,
        {
            bits[w] = !0u64;
            w = w + 1;
        }
        let tail: u64 = word_mask(0, last & 63);
        bits[last_word] = bits[last_word] | tail;
        proof {
            assert forall|u: u16| #[trigger]
                bitset::has_bit(bits@, u) == (bitset::has_bit(start, u) || run.covers(u)) by {
                let k = (u as int) / 64;
                let q = (u % 64) as u64;
                if k == first_word {
                    lemma_head_mask((first % 64) as u64, q);
                    lemma_or_bit(start[k], !0u64 << ((first % 64) as u64), q);
                } else if k == last_word {
                    lemma_or_bit(start[k], tail, q);
                } else if first_word < k < last_word {
                    lemma_head_mask(0, q);
                    assert(!0u64 << 0u64 == !0u64) by (bit_vector);
                }
            }
        }
    }
}

/// Set every bit of every run into `bits`.
pub fn set_runs_into(bits: &mut [u64; BITSET_WORDS], runs: &[Run])
    requires
        forall|k: int| 0 <= k < runs@.len() ==> (#[trigger] runs@[k]).wf(),
    ensures
        forall|v: u16| #[trigger]
            bitset::has_bit(final(bits)@, v) == (bitset::has_bit(old(bits)@, v) || run::any_covers(runs@, v)),
{
    let mut i: usize = 0;
    while i < runs.len()
        invariant
            i <= runs.len(),
            forall|k: int| 0 <= k < runs@.len() ==> (#[trigger] runs@[k]).wf(),
            forall|v: u16| #[trigger]
                bitset::has_bit(bits@, v) == (bitset::has_bit(old(bits)@, v) || run::any_covers(
                    runs@.take(i as int),
                    v,
                )),
        decreases runs.len() - i,
    {
        let ghost before = bits@;
        set_run(bits, runs[i]);
        proof {
            assert(runs@.take(i + 1) =~= runs@.take(i as int).push(runs@[i as int]));
            assert forall|v: u16| #[trigger]
                bitset::has_bit(bits@, v) == (bitset::has_bit(old(bits)@, v) || run::any_covers(
                    runs@.take(i + 1),
                    v,
                )) by {
                assert(bitset::has_bit(before, v) == (bitset::has_bit(old(bits)@, v) || run::any_covers(
                    runs@.take(i as int),
                    v,
                )));
                run::lemma_any_covers_push(runs@.take(i as int), runs@[i as int], v);
            }
        }
        i = i + 1;
    }
    assert(runs@.take(i as int) =~= runs@);
}

/// Words with exactly the bits of every run set.
pub fn runs_to_bitmask_scalar(runs: &[Run]) -> (bits: Box<[u64; BITSET_WORDS]>)
    requires
        forall|k: int| 0 <= k < runs@.len() ==> (#[trigger] runs@[k]).wf(),
    ensures
        forall|v: u16| #[trigger] bitset::has_bit(bits@, v) == run::any_covers(runs@, v),
{
    let mut bits: [u64; BITSET_WORDS] = bitset::zero_words();
    set_runs_into(&mut bits, runs);
    Box::new(bits)
}

/// Words with exactly the bits of every run set.
pub fn runs_to_bitmask(runs: &[Run]) -> (bits: Box<[u64; BITSET_WORDS]>)
    requires
        forall|k: int| 0 <= k < runs@.len() ==> (#[trigger] runs@[k]).wf(),
    ensures
        forall|v: u16| #[trigger] bitset::has_bit(bits@, v) == run::any_covers(runs@, v),
{
    runs_to_bitmask_scalar(runs)
}

} // verus!

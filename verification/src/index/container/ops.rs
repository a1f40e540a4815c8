//! Set operations between containers of different representations.
//!
//! Each operation iterates or copies the operand that makes it cheapest.

use vstd::prelude::*;

use super::array::ArrayContainer;
use super::bitset;
use super::bitset::{count_words, BitsetContainer, BITSET_WORDS};
use super::run::RunContainer;
use crate::index::simd_support::bitwise;
use crate::index::simd_support::run_bitset::{clear_bits_from_array, runs_to_bitmask, set_bits_from_array};
use crate::seqs;

verus! {

/// Array ∩ Bitset: the array's values that the bitset holds.
pub fn array_and_bitset(array: &ArrayContainer, bitset: &BitsetContainer) -> (r: ArrayContainer)
    requires
        array.wf(),
        bitset.wf(),
    ensures
        r.wf(),
        r@ == array@.intersect(bitset@),
{
    let list: &[u16] = array.values();
    let mut out: Vec<u16> = Vec::new();
    let mut i: usize = 0;
    proof {
        array.lemma_list();
    }
    while i < list.len()
        invariant
            i <= list@.len(),
            bitset.wf(),
            seqs::increasing(list@),
            seqs::filtered(out@, list@.take(i as int), bitset@),
        decreases list.len() - i,
    {
        let v: u16 = list[i];
        let keep: bool = bitset.contains(v);
        proof {
            seqs::lemma_filtered_step(out@, list@, i as int, bitset@);
        }
        if keep {
            out.push(v);
        }
        i = i + 1;
    }
    proof {
        assert(list@.take(i as int) =~= list@);
        assert(out@.to_set() =~= array@.intersect(bitset@));
    }
    ArrayContainer::from_sorted(out)
}

/// Array ∪ Bitset: the bitset with the array's bits set.
pub fn array_or_bitset(array: &ArrayContainer, bitset: &BitsetContainer) -> (r: BitsetContainer)
    requires
        array.wf(),
        bitset.wf(),
    ensures
        r.wf(),
        r@ == array@.union(bitset@),
{
    let mut bits: [u64; BITSET_WORDS] = *bitset.bits();
    set_bits_from_array(&mut bits, array.values());
    let cardinality: usize = count_words(&bits);
    proof {
        array.lemma_list();
        assert(bitset::set_of(bits@) =~= array@.union(bitset@));
    }
    BitsetContainer::from_raw_bits(Box::new(bits), cardinality)
}

/// Array \ Bitset: the array's values that the bitset lacks.
pub fn array_andnot_bitset(array: &ArrayContainer, bitset: &BitsetContainer) -> (r: ArrayContainer)
    requires
        array.wf(),
        bitset.wf(),
    ensures
        r.wf(),
        r@ == array@.difference(bitset@),
{
    let list: &[u16] = array.values();
    let mut out: Vec<u16> = Vec::new();
    let mut i: usize = 0;
    proof {
        array.lemma_list();
    }
    while i < list.len()
        invariant
            i <= list@.len(),
            bitset.wf(),
            seqs::increasing(list@),
            seqs::filtered(out@, list@.take(i as int), bitset@.complement()),
        decreases list.len() - i,
    {
        let v: u16 = list[i];
        let keep: bool = !bitset.contains(v);
        proof {
            seqs::lemma_filtered_step(out@, list@, i as int, bitset@.complement());
        }
        if keep {
            out.push(v);
        }
        i = i + 1;
    }
    proof {
        assert(list@.take(i as int) =~= list@);
        assert(out@.to_set() =~= array@.difference(bitset@));
    }
    ArrayContainer::from_sorted(out)
}

/// Bitset \ Array: the bitset with the array's bits cleared.
pub fn bitset_andnot_array(bitset: &BitsetContainer, array: &ArrayContainer) -> (r: BitsetContainer)
    requires
        array.wf(),
        bitset.wf(),
    ensures
        r.wf(),
        r@ == bitset@.difference(array@),
{
    let mut bits: [u64; BITSET_WORDS] = *bitset.bits();
    clear_bits_from_array(&mut bits, array.values());
    let cardinality: usize = count_words(&bits);
    proof {
        array.lemma_list();
        assert(bitset::set_of(bits@) =~= bitset@.difference(array@));
    }
    BitsetContainer::from_raw_bits(Box::new(bits), cardinality)
}

/// Array ∩ Run: the array's values that a run covers.
pub fn array_and_run(array: &ArrayContainer, run: &RunContainer) -> (r: ArrayContainer)
    requires
        array.wf(),
        run.wf(),
    ensures
        r.wf(),
        r@ == array@.intersect(run@),
{
    let list: &[u16] = array.values();
    let mut out: Vec<u16> = Vec::new();
    let mut i: usize = 0;
    proof {
        array.lemma_list();
    }
    while i < list.len()
        invariant
            i <= list@.len(),
            run.wf(),
            seqs::increasing(list@),
            seqs::filtered(out@, list@.take(i as int), run@),
        decreases list.len() - i,
    {
        let v: u16 = list[i];
        let keep: bool = run.contains(v);
        proof {
            seqs::lemma_filtered_step(out@, list@, i as int, run@);
        }
        if keep {
            out.push(v);
        }
        i = i + 1;
    }
    proof {
        assert(list@.take(i as int) =~= list@);
        assert(out@.to_set() =~= array@.intersect(run@));
    }
    ArrayContainer::from_sorted(out)
}

/// Array ∪ Run: the merged values in increasing order.
///
/// The caller wraps them into the container type that suits them.
pub fn array_or_run_values(array: &ArrayContainer, run: &RunContainer) -> (out: Vec<u16>)
    requires
        array.wf(),
        run.wf(),
    ensures
        seqs::increasing(out@),
        out@.to_set() == array@.union(run@),
{
    let a: &[u16] = array.values();
    let b: Vec<u16> = run.to_values();
    let mut out: Vec<u16> = Vec::new();
    let mut i: usize = 0;
    let mut j: usize = 0;
    proof {
        array.lemma_list();
    }
    while i < a.len() || j < b.len()
        invariant
            i <= a@.len(),
            j <= b@.len(),
            seqs::increasing(a@),
            seqs::increasing(b@),
            seqs::merged(out@, a@, i as int, b@, j as int),
        decreases a.len() - i + b.len() - j,
    {
        let take_a: bool = i < a.len() && (j >= b.len() || a[i] <= b[j]);
        let take_b: bool = j < b.len() && (i >= a.len() || b[j] <= a[i]);
        proof {
            seqs::lemma_merged_step(out@, a@, i as int, b@, j as int);
        }
        if take_a {
            out.push(a[i]);
        } else {
            out.push(b[j]);
        }
        if take_a {
            i = i + 1;
        }
        if take_b {
            j = j + 1;
        }
    }
    proof {
        assert(a@.take(i as int) =~= a@);
        assert(b@.take(j as int) =~= b@);
        assert(out@.to_set() =~= array@.union(run@));
    }
    out
}

/// Array \ Run: the array's values that no run covers.
pub fn array_andnot_run(array: &ArrayContainer, run: &RunContainer) -> (r: ArrayContainer)
    requires
        array.wf(),
        run.wf(),
    ensures
        r.wf(),
        r@ == array@.difference(run@),
{
    let list: &[u16] = array.values();
    let mut out: Vec<u16> = Vec::new();
    let mut i: usize = 0;
    proof {
        array.lemma_list();
    }
    while i < list.len()
        invariant
            i <= list@.len(),
            run.wf(),
            seqs::increasing(list@),
            seqs::filtered(out@, list@.take(i as int), run@.complement()),
        decreases list.len() - i,
    {
        let v: u16 = list[i];
        let keep: bool = !run.contains(v);
        proof {
            seqs::lemma_filtered_step(out@, list@, i as int, run@.complement());
        }
        if keep {
            out.push(v);
        }
        i = i + 1;
    }
    proof {
        assert(list@.take(i as int) =~= list@);
        assert(out@.to_set() =~= array@.difference(run@));
    }
    ArrayContainer::from_sorted(out)
}

/// Run \ Array: the runs' values that the array lacks, in increasing order.
pub fn run_andnot_array(run: &RunContainer, array: &ArrayContainer) -> (out: Vec<u16>)
    requires
        run.wf(),
        array.wf(),
    ensures
        seqs::increasing(out@),
        out@.to_set() == run@.difference(array@),
{
    let list: Vec<u16> = run.to_values();
    let mut out: Vec<u16> = Vec::new();
    let mut i: usize = 0;
    while i < list.len()
        invariant
            i <= list@.len(),
            array.wf(),
            seqs::increasing(list@),
            seqs::filtered(out@, list@.take(i as int), array@.complement()),
        decreases list.len() - i,
    {
        let v: u16 = list[i];
        let keep: bool = !array.contains(v);
        proof {
            seqs::lemma_filtered_step(out@, list@, i as int, array@.complement());
        }
        if keep {
            out.push(v);
        }
        i = i + 1;
    }
    proof {
        assert(list@.take(i as int) =~= list@);
        assert(out@.to_set() =~= run@.difference(array@));
    }
    out
}

/// Bitset ∩ Run, over the runs' bitmask.
pub fn bitset_and_run(bitset: &BitsetContainer, run: &RunContainer) -> (r: BitsetContainer)
    requires
        bitset.wf(),
        run.wf(),
    ensures
        r.wf(),
        r@ == bitset@.intersect(run@),
{
    proof {
        run.lemma_list();
    }
    let run_bits: Box<[u64; BITSET_WORDS]> = runs_to_bitmask(run.runs());
    assert(bitset::set_of(run_bits@) =~= run@);
    let r: bitwise::BitwiseResult = bitwise::and(bitset.bits(), &run_bits);
    BitsetContainer::from_raw_bits(r.bits, r.cardinality)
}

/// Bitset ∪ Run, over the runs' bitmask.
pub fn bitset_or_run(bitset: &BitsetContainer, run: &RunContainer) -> (r: BitsetContainer)
    requires
        bitset.wf(),
        run.wf(),
    ensures
        r.wf(),
        r@ == bitset@.union(run@),
{
    proof {
        run.lemma_list();
    }
    let run_bits: Box<[u64; BITSET_WORDS]> = runs_to_bitmask(run.runs());
    assert(bitset::set_of(run_bits@) =~= run@);
    let r: bitwise::BitwiseResult = bitwise::or(bitset.bits(), &run_bits);
    BitsetContainer::from_raw_bits(r.bits, r.cardinality)
}

/// Bitset \ Run, over the runs' bitmask.
pub fn bitset_andnot_run(bitset: &BitsetContainer, run: &RunContainer) -> (r: BitsetContainer)
    requires
        bitset.wf(),
        run.wf(),
    ensures
        r.wf(),
        r@ == bitset@.difference(run@),
{
    proof {
        run.lemma_list();
    }
    let run_bits: Box<[u64; BITSET_WORDS]> = runs_to_bitmask(run.runs());
    assert(bitset::set_of(run_bits@) =~= run@);
    let r: bitwise::BitwiseResult = bitwise::and_not(bitset.bits(), &run_bits);
    BitsetContainer::from_raw_bits(r.bits, r.cardinality)
}

/// Run \ Bitset: the runs' values that the bitset lacks, in increasing order.
pub fn run_andnot_bitset(run: &RunContainer, bitset: &BitsetContainer) -> (out: Vec<u16>)
    requires
        run.wf(),
        bitset.wf(),
    ensures
        seqs::increasing(out@),
        out@.to_set() == run@.difference(bitset@),
{
    let list: Vec<u16> = run.to_values();
    let mut out: Vec<u16> = Vec::new();
    let mut i: usize = 0;
    while i < list.len()
        invariant
            i <= list@.len(),
            bitset.wf(),
            seqs::increasing(list@),
            seqs::filtered(out@, list@.take(i as int), bitset@.complement()),
        decreases list.len() - i,
    {
        let v: u16 = list[i];
        let keep: bool = !bitset.contains(v);
        proof {
            seqs::lemma_filtered_step(out@, list@, i as int, bitset@.complement());
        }
        if keep {
            out.push(v);
        }
        i = i + 1;
    }
    proof {
        assert(list@.take(i as int) =~= list@);
        assert(out@.to_set() =~= run@.difference(bitset@));
    }
    out
}

} // verus!

//! Word-wise set operations with the cardinality of their result.

use vstd::prelude::*;

use crate::index::container::bitset;
use crate::index::container::bitset::{count_words, zero_words, BITSET_WORDS};

verus! {

/// The words of a set operation and the number of bits set in them.
pub struct BitwiseResult {
    pub bits: Box<[u64; BITSET_WORDS]>,
    pub cardinality: usize,
}

impl BitwiseResult {
    /// The cardinality counts the set bits.
    pub open spec fn wf(&self) -> bool {
        self.cardinality == bitset::set_of(self.bits@).len()
    }
}

/// Intersection of two bitsets.
pub fn and(a: &[u64; BITSET_WORDS], b: &[u64; BITSET_WORDS]) -> (r: BitwiseResult)
    ensures
        r.wf(),
        bitset::set_of(r.bits@) == bitset::set_of(a@).intersect(bitset::set_of(b@)),
{
    let mut bits: [u64; BITSET_WORDS] = zero_words();
    let mut i: usize = 0;
    while i < BITSET_WORDS
        invariant
            i <= BITSET_WORDS,
            forall|k: int| 0 <= k < i ==> bits@[k] == a@[k] & b@[k],
        decreases BITSET_WORDS - i,
    {
        bits[i] = a[i] & b[i];
        i = i + 1;
    }
    proof {
        assert forall|v: u16| bitset::set_of(bits@).contains(v) == bitset::set_of(a@).intersect(
            bitset::set_of(b@),
        ).contains(v) by {
            let (x, y, q) = (a@[v as int / 64], b@[v as int / 64], (v % 64) as u64);
            assert(((x & y) >> q) & 1 == 1 <==> ((x >> q) & 1 == 1 && (y >> q) & 1 == 1)) by (bit_vector);
        }
        assert(bitset::set_of(bits@) =~= bitset::set_of(a@).intersect(bitset::set_of(b@)));
    }
    let cardinality: usize = count_words(&bits);
    BitwiseResult { bits: Box::new(bits), cardinality }
}

/// Union of two bitsets.
pub fn or(a: &[u64; BITSET_WORDS], b: &[u64; BITSET_WORDS]) -> (r: BitwiseResult)
    ensures
        r.wf(),
        bitset::set_of(r.bits@) == bitset::set_of(a@).union(bitset::set_of(b@)),
{
    let mut bits: [u64; BITSET_WORDS] = zero_words();
    let mut i: usize = 0;
    while i < BITSET_WORDS
        invariant
            i <= BITSET_WORDS,
            forall|k: int| 0 <= k < i ==> bits@[k] == a@[k] | b@[k],
        decreases BITSET_WORDS - i,
    {
        bits[i] = a[i] | b[i];
        i = i + 1;
    }
    proof {
        assert forall|v: u16| bitset::set_of(bits@).contains(v) == bitset::set_of(a@).union(
            bitset::set_of(b@),
        ).contains(v) by {
            let (x, y, q) = (a@[v as int / 64], b@[v as int / 64], (v % 64) as u64);
            assert(((x | y) >> q) & 1 == 1 <==> ((x >> q) & 1 == 1 || (y >> q) & 1 == 1)) by (bit_vector);
        }
        assert(bitset::set_of(bits@) =~= bitset::set_of(a@).union(bitset::set_of(b@)));
    }
    let cardinality: usize = count_words(&bits);
    BitwiseResult { bits: Box::new(bits), cardinality }
}

/// Difference of two bitsets.
pub fn and_not(a: &[u64; BITSET_WORDS], b: &[u64; BITSET_WORDS]) -> (r: BitwiseResult)
    ensures
        r.wf(),
        bitset::set_of(r.bits@) == bitset::set_of(a@).difference(bitset::set_of(b@)),
{
    let mut bits: [u64; BITSET_WORDS] = zero_words();
    let mut i: usize = 0;
    while i < BITSET_WORDS
        invariant
            i <= BITSET_WORDS,
            forall|k: int| 0 <= k < i ==> bits@[k] == a@[k] & !b@[k],
        decreases BITSET_WORDS - i,
    {
        bits[i] = a[i] & !b[i];
        i = i + 1;
    }
    proof {
        assert forall|v: u16| bitset::set_of(bits@).contains(v) == bitset::set_of(a@).difference(
            bitset::set_of(b@),
        ).contains(v) by {
            let (x, y, q) = (a@[v as int / 64], b@[v as int / 64], (v % 64) as u64);
            assert(((x & !y) >> q) & 1 == 1 <==> ((x >> q) & 1 == 1 && !((y >> q) & 1 == 1))) by (bit_vector)
                requires
                    q < 64,
            ;
        }
        assert(bitset::set_of(bits@) =~= bitset::set_of(a@).difference(bitset::set_of(b@)));
    }
    let cardinality: usize = count_words(&bits);
    BitwiseResult { bits: Box::new(bits), cardinality }
}

} // verus!

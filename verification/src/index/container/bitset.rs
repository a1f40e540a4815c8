//! Dense value sets: one bit per 16-bit value.

use vstd::prelude::*;

use crate::index::simd_support::extract;
use crate::index::simd_support::extract::extract_bitset_to_values;
use crate::index::simd_support::run_bitset::set_bits_from_array;

verus! {

/// Number of 64-bit words that hold one bit per 16-bit value.
pub const BITSET_WORDS: usize = 1024;

/// Bit `p` of `word` is set.
pub open spec fn word_bit(word: u64, p: u64) -> bool {
    (word >> p) & 1 == 1
}

/// The bit of value `v` is set in `words`.
pub open spec fn has_bit(words: Seq<u64>, v: u16) -> bool {
    word_bit(words[(v as int) / 64], (v % 64) as u64)
}

/// Words with no bit set.
pub fn zero_words() -> (words: [u64; BITSET_WORDS])
    ensures
        forall|v: u16| !#[trigger] has_bit(words@, v),
{
    let words: [u64; BITSET_WORDS] = [0u64; 1024];
    proof {
        assert forall|v: u16| !#[trigger] has_bit(words@, v) by {
            let p = (v % 64) as u64;
            assert((0u64 >> p) & 1 == 0) by (bit_vector);
        }
    }
    words
}

/// Setting bit `p` changes that bit and no other.
pub proof fn lemma_set_bit(word: u64, p: u64, q: u64)
    requires
        p < 64,
        q < 64,
    ensures
        word_bit(word | (1u64 << p), q) == (word_bit(word, q) || p == q),
{
    assert(((word | (1u64 << p)) >> q) & 1 == 1 <==> ((word >> q) & 1 == 1 || p == q)) by (bit_vector)
        requires
            p < 64,
            q < 64,
    ;
}

/// Clearing bit `p` changes that bit and no other.
pub proof fn lemma_clear_bit(word: u64, p: u64, q: u64)
    requires
        p < 64,
        q < 64,
    ensures
        word_bit(word & !(1u64 << p), q) == (word_bit(word, q) && p != q),
{
    assert(((word & !(1u64 << p)) >> q) & 1 == 1 <==> ((word >> q) & 1 == 1 && p != q)) by (bit_vector)
        requires
            p < 64,
            q < 64,
    ;
}

/// `word & (word - 1)` clears the lowest set bit, which is bit `t`.
pub proof fn lemma_drop_lowest(word: u64, t: u64)
    requires
        word != 0,
        t == vstd::std_specs::bits::u64_trailing_zeros(word),
    ensures
        t < 64,
        word_bit(word, t),
        forall|q: u64| q < t ==> !word_bit(word, q),
        forall|q: u64| q < 64 ==> #[trigger] word_bit(word & (word - 1) as u64, q) == (word_bit(word, q) && q != t),
        (word & (word - 1) as u64) < word,
{
    vstd::std_specs::bits::axiom_u64_trailing_zeros(word);
    assert((word & (word - 1) as u64) < word) by (bit_vector)
        requires
            word != 0,
    ;
    assert forall|q: u64| q < 64 implies #[trigger] word_bit(word & (word - 1) as u64, q) == (word_bit(word, q)
        && q != t) by {
        assert(((word & (word - 1) as u64) >> q) & 1 == 1 <==> ((word >> q) & 1 == 1 && q != t)) by (bit_vector)
            requires
                word != 0,
                t < 64,
                q < 64,
                (word >> t) & 1 == 1,
                word << ((64 - t) as u64) == 0,
        ;
    }
    assert forall|q: u64| q < t implies !word_bit(word, q) by {
        assert((word >> q) & 1u64 == 0u64);
    }
}

/// The values whose bit is set.
pub open spec fn set_of(words: Seq<u64>) -> Set<u16> {
    Set::new(|v: u16| has_bit(words, v))
}

/// Number of set bits of `word` below bit `n`.
pub open spec fn word_count(word: u64, n: nat) -> nat
    decreases n,
{
    if n == 0 {
        0
    } else {
        word_count(word, (n - 1) as nat) + if word_bit(word, (n - 1) as u64) {
            1nat
        } else {
            0nat
        }
    }
}

/// Number of values below `n` whose bit is set.
pub open spec fn count_below(words: Seq<u64>, n: nat) -> nat
    decreases n,
{
    if n == 0 {
        0
    } else {
        count_below(words, (n - 1) as nat) + if has_bit(words, (n - 1) as u16) {
            1nat
        } else {
            0nat
        }
    }
}

/// Counting values counts the bits of each word.
proof fn lemma_count_word(words: Seq<u64>, i: nat, n: nat)
    requires
        i < BITSET_WORDS,
        words.len() == BITSET_WORDS,
        n <= 64,
    ensures
        count_below(words, 64 * i + n) == count_below(words, 64 * i) + word_count(words[i as int], n),
    decreases n,
{
    if n > 0 {
        lemma_count_word(words, i, (n - 1) as nat);
        let v = (64 * i + n - 1) as u16;
        assert((v as int) / 64 == i);
        assert((v % 64) as u64 == (n - 1) as u64);
    }
}

/// The set of values below `n` is finite and has `count_below` elements.
pub proof fn lemma_count_set(words: Seq<u64>, n: nat)
    requires
        n <= 65536,
    ensures
        Set::new(|v: u16| v < n && has_bit(words, v)).finite(),
        Set::new(|v: u16| v < n && has_bit(words, v)).len() == count_below(words, n),
    decreases n,
{
    let here = Set::new(|v: u16| v < n && has_bit(words, v));
    if n == 0 {
        assert(here =~= Set::empty());
    } else {
        lemma_count_set(words, (n - 1) as nat);
        let below = Set::new(|v: u16| v < n - 1 && has_bit(words, v));
        let last = (n - 1) as u16;
        if has_bit(words, last) {
            assert(here =~= below.insert(last));
        } else {
            assert(here =~= below);
        }
    }
}

/// The values of a bitset are counted by `count_below`.
pub proof fn lemma_set_of_count(words: Seq<u64>)
    ensures
        set_of(words).finite(),
        set_of(words).len() == count_below(words, 65536),
{
    lemma_count_set(words, 65536);
    assert(set_of(words) =~= Set::new(|v: u16| v < 65536 && has_bit(words, v)));
}

/// Number of set bits of `word`.
pub fn count_ones(word: u64) -> (n: u32)
    ensures
        n == word_count(word, 64),
        n <= 64,
{
    let mut n: u32 = 0;
    let mut p: u64 = 0;
    while p < 64
        invariant
            p <= 64,
            n <= p,
            n == word_count(word, p as nat),
        decreases 64 - p,
    {
        if (word >> p) & 1 == 1 {
            n = n + 1;
        }
        p = p + 1;
    }
    n
}

/// Number of set bits of all words.
pub fn count_words(words: &[u64; BITSET_WORDS]) -> (n: usize)
    ensures
        n == set_of(words@).len(),
        set_of(words@).finite(),
{
    let mut n: usize = 0;
    let mut i: usize = 0;
    while i < BITSET_WORDS
        invariant
            i <= BITSET_WORDS,
            n <= 64 * i,
            n == count_below(words@, (64 * i) as nat),
        decreases BITSET_WORDS - i,
    {
        proof {
            lemma_count_word(words@, i as nat, 64);
        }
        n = n + count_ones(words[i]) as usize;
        i = i + 1;
    }
    proof {
        lemma_set_of_count(words@);
    }
    n
}

/// A value set stored as one bit per value, with its cardinality.
pub struct BitsetContainer {
    bits: Box<[u64; BITSET_WORDS]>,
    cardinality: usize,
}

impl View for BitsetContainer {
    type V = Set<u16>;

    closed spec fn view(&self) -> Set<u16> {
        set_of(self.bits@)
    }
}

impl BitsetContainer {
    /// The words of the bitset.
    pub closed spec fn words(&self) -> Seq<u64> {
        self.bits@
    }

    /// What the words say of the container.
    pub proof fn lemma_words(&self)
        ensures
            self@ == set_of(self.words()),
            self.words().len() == BITSET_WORDS,
    {
    }

    /// The cached cardinality is the number of values.
    pub closed spec fn wf(&self) -> bool {
        &&& self@.finite()
        &&& self.cardinality == self@.len()
    }

    /// The set that `values` lists, in any order.
    pub fn from_values(values: &[u16]) -> (c: Self)
        ensures
            c.wf(),
            c@ == values@.to_set(),
    {
        let mut bits: [u64; BITSET_WORDS] = zero_words();
        set_bits_from_array(&mut bits, values);
        let cardinality: usize = count_words(&bits);
        proof {
            assert(set_of(bits@) =~= values@.to_set());
        }
        BitsetContainer { bits: Box::new(bits), cardinality }
    }

    /// Adopt `bits`, whose set bits number `cardinality`.
    pub fn from_raw_bits(bits: Box<[u64; BITSET_WORDS]>, cardinality: usize) -> (c: Self)
        requires
            cardinality == set_of(bits@).len(),
        ensures
            c.wf(),
            c@ == set_of(bits@),
            c.words() == bits@,
    {
        proof {
            lemma_set_of_count(bits@);
        }
        BitsetContainer { bits, cardinality }
    }

    pub fn bits(&self) -> (bits: &[u64; BITSET_WORDS])
        ensures
            bits@ == self.words(),
            self@ == set_of(bits@),
    {
        &self.bits
    }

    pub fn contains(&self, v: u16) -> (found: bool)
        ensures
            found == self@.contains(v),
    {
        assert(v >> 6 == v / 64 && v & 63 == v % 64 && v / 64 < 1024) by (bit_vector);
        let word: u64 = self.bits[(v >> 6) as usize];
        (word >> ((v & 63) as u64)) & 1 == 1
    }

    pub fn cardinality(&self) -> (n: usize)
        requires
            self.wf(),
        ensures
            n == self@.len(),
    {
        self.cardinality
    }

    /// The values in increasing order.
    pub fn to_values(&self) -> (out: Vec<u16>)
        ensures
            crate::seqs::increasing(out@),
            forall|v: u16| out@.contains(v) <==> self@.contains(v),
    {
        let out: Vec<u16> = extract_bitset_to_values(&self.bits, self.cardinality);
        assert(extract::lists_below(out@, self.bits@, 65536));
        out
    }
}

/// The count of a word is the number of its set bits.
pub proof fn law_word_count_is_the_number_of_set_bits(word: u64, n: nat)
    requires
        n <= 64,
    ensures
        Set::new(|p: int| 0 <= p < n && (word >> (p as u64)) & 1 == 1).finite(),
        word_count(word, n) == Set::new(|p: int| 0 <= p < n && (word >> (p as u64)) & 1 == 1).len(),
    decreases n,
{
    let all = Set::new(|p: int| 0 <= p < n && (word >> (p as u64)) & 1 == 1);
    if n == 0 {
        assert(all =~= Set::empty());
    } else {
        let m = (n - 1) as nat;
        let before = Set::new(|p: int| 0 <= p < m && (word >> (p as u64)) & 1 == 1);
        law_word_count_is_the_number_of_set_bits(word, m);
        if word_bit(word, m as u64) {
            assert(all =~= before.insert(m as int));
        } else {
            assert(all =~= before);
        }
    }
}

/// Value `v` is in a bitset exactly where bit `v % 64` of word `v / 64` is set.
pub proof fn law_bit_of_a_value(c: BitsetContainer, v: u16)
    ensures
        c.words().len() == 1024,
        c@.contains(v) <==> (c.words()[v as int / 64] >> ((v % 64) as u64)) & 1 == 1,
        has_bit(c.words(), v) <==> (c.words()[v as int / 64] >> ((v % 64) as u64)) & 1 == 1,
{
    c.lemma_words();
}

} // verus!

//! Integer arithmetic on byte vectors: sums, bit counts and packing into wide words.

use vstd::prelude::*;

use crate::bytes::{field, get_u128, get_u64, law_bytes_are_digits, le_bytes, lemma_le_bytes_len, lemma_le_value_bound, lemma_le_value_bytes, lemma_pow256, pow256, push_le};
use crate::index::container::bitset::{count_ones, law_word_count_is_the_number_of_set_bits, word_count};

verus! {

/// A byte vector that does not fill whole words.
#[derive(Clone, Copy, Debug, PartialEq, Eq, Structural)]
pub enum PackError {
    /// The length is not a multiple of 16.
    NotMultipleOf16,
    /// The length is not a multiple of 8.
    NotMultipleOf8,
}

impl PackError {
    /// What went wrong, in words.
    pub fn message(&self) -> (text: &'static str)
        ensures
            self is NotMultipleOf16 ==> text@ == "Input length must be divisible by 16"@,
            self is NotMultipleOf8 ==> text@ == "Input length must be divisible by 8"@,
    {
        match self {
            PackError::NotMultipleOf16 => "Input length must be divisible by 16",
            PackError::NotMultipleOf8 => "Input length must be divisible by 8",
        }
    }
}

/// Number of set bits of all bytes together.
pub open spec fn one_bits(bytes: Seq<u8>) -> nat
    decreases bytes.len(),
{
    if bytes.len() == 0 {
        0
    } else {
        one_bits(bytes.drop_last()) + word_count(bytes.last() as u64, 64)
    }
}

/// Sum of all bytes.
pub open spec fn byte_sum(bytes: Seq<u8>) -> nat
    decreases bytes.len(),
{
    if bytes.len() == 0 {
        0
    } else {
        byte_sum(bytes.drop_last()) + bytes.last() as nat
    }
}

proof fn lemma_one_bits_mono(bytes: Seq<u8>, k: int)
    requires
        0 <= k <= bytes.len(),
    ensures
        one_bits(bytes.take(k)) <= one_bits(bytes),
    decreases bytes.len() - k,
{
    if k < bytes.len() {
        lemma_one_bits_mono(bytes, k + 1);
        assert(bytes.take(k + 1).drop_last() =~= bytes.take(k));
    } else {
        assert(bytes.take(k) =~= bytes);
    }
}

proof fn lemma_byte_sum_mono(bytes: Seq<u8>, k: int)
    requires
        0 <= k <= bytes.len(),
    ensures
        byte_sum(bytes.take(k)) <= byte_sum(bytes),
    decreases bytes.len() - k,
{
    if k < bytes.len() {
        lemma_byte_sum_mono(bytes, k + 1);
        assert(bytes.take(k + 1).drop_last() =~= bytes.take(k));
    } else {
        assert(bytes.take(k) =~= bytes);
    }
}

/// Number of set bits of all bytes together.
pub fn total_number_of_one_bits(embeddings: &[u8]) -> (n: u32)
    requires
        one_bits(embeddings@) <= u32::MAX,
    ensures
        n == one_bits(embeddings@),
{
    let mut n: u32 = 0;
    let mut i: usize = 0;
    while i < embeddings.len()
        invariant
            i <= embeddings@.len(),
            n == one_bits(embeddings@.take(i as int)),
            one_bits(embeddings@) <= u32::MAX,
        decreases embeddings@.len() - i,
    {
        proof {
            lemma_one_bits_mono(embeddings@, i + 1);
            assert(embeddings@.take(i + 1).drop_last() =~= embeddings@.take(i as int));
        }
        n = n + count_ones(embeddings[i] as u64);
        i = i + 1;
    }
    proof {
        assert(embeddings@.take(i as int) =~= embeddings@);
    }
    n
}

/// Sum of all bytes.
pub fn total(embeddings: &[u8]) -> (n: u32)
    requires
        byte_sum(embeddings@) <= u32::MAX,
    ensures
        n == byte_sum(embeddings@),
{
    let mut n: u32 = 0;
    let mut i: usize = 0;
    while i < embeddings.len()
        invariant
            i <= embeddings@.len(),
            n == byte_sum(embeddings@.take(i as int)),
            byte_sum(embeddings@) <= u32::MAX,
        decreases embeddings@.len() - i,
    {
        proof {
            lemma_byte_sum_mono(embeddings@, i + 1);
            assert(embeddings@.take(i + 1).drop_last() =~= embeddings@.take(i as int));
        }
        n = n + embeddings[i] as u32;
        i = i + 1;
    }
    proof {
        assert(embeddings@.take(i as int) =~= embeddings@);
    }
    n
}

/// The number that `n` bytes hold in two's complement, given their unsigned value.
pub open spec fn signed(value: nat, modulus: nat) -> int {
    if 2 * value < modulus {
        value as int
    } else {
        value - modulus
    }
}

/// The unsigned value of the same bytes.
pub open spec fn unsigned(value: int, modulus: nat) -> nat {
    if value >= 0 {
        value as nat
    } else {
        (value + modulus) as nat
    }
}

/// Packs sixteen bytes into each word, lowest byte first.
pub fn pack(binary_quantized_embeddings: &[u8]) -> (r: Result<Vec<u128>, PackError>)
    ensures
        r is Ok <==> binary_quantized_embeddings@.len() % 16 == 0,
        r is Err ==> r->Err_0 == PackError::NotMultipleOf16,
        r is Ok ==> 16 * r->Ok_0@.len() == binary_quantized_embeddings@.len(),
        r is Ok ==> forall|k: int|
            0 <= k < r->Ok_0@.len() ==> #[trigger] r->Ok_0@[k] == field(binary_quantized_embeddings@, 16 * k, 16),
{
    let bytes = binary_quantized_embeddings;
    if bytes.len() % 16 != 0 {
        return Err(PackError::NotMultipleOf16);
    }
    let mut out: Vec<u128> = Vec::new();
    let mut at: usize = 0;
    while at < bytes.len()
        invariant
            at <= bytes.len(),
            bytes@.len() % 16 == 0,
            at == 16 * out@.len(),
            forall|k: int| 0 <= k < out@.len() ==> #[trigger] out@[k] == field(bytes@, 16 * k, 16),
        decreases bytes@.len() - at,
    {
        out.push(get_u128(bytes, at));
        at = at + 16;
    }
    Ok(out)
}

/// Packs sixteen bytes into each signed word, lowest byte first.
pub fn pack_to_signed_128(binary_quantized_embeddings: &[u8]) -> (r: Result<Vec<i128>, PackError>)
    ensures
        r is Ok <==> binary_quantized_embeddings@.len() % 16 == 0,
        r is Err ==> r->Err_0 == PackError::NotMultipleOf16,
        r is Ok ==> 16 * r->Ok_0@.len() == binary_quantized_embeddings@.len(),
        r is Ok ==> forall|k: int|
            0 <= k < r->Ok_0@.len() ==> #[trigger] r->Ok_0@[k] == signed(
                field(binary_quantized_embeddings@, 16 * k, 16),
                pow256(16),
            ),
{
    let bytes = binary_quantized_embeddings;
    if bytes.len() % 16 != 0 {
        return Err(PackError::NotMultipleOf16);
    }
    let mut out: Vec<i128> = Vec::new();
    let mut at: usize = 0;
    while at < bytes.len()
        invariant
            at <= bytes.len(),
            bytes@.len() % 16 == 0,
            at == 16 * out@.len(),
            forall|k: int|
                0 <= k < out@.len() ==> #[trigger] out@[k] == signed(
                    field(bytes@, 16 * k, 16),
                    pow256(16),
                ),
        decreases bytes@.len() - at,
    {
        let word: u128 = get_u128(bytes, at);
        proof {
            lemma_pow256();
        }
        let x: i128 = if word <= 0x7fff_ffff_ffff_ffff_ffff_ffff_ffff_ffff {
            word as i128
        } else {
            -1 - ((u128::MAX - word) as i128)
        };
        out.push(x);
        at = at + 16;
    }
    Ok(out)
}

/// Packs eight bytes into each signed word, lowest byte first.
pub fn pack_to_signed_64(binary_quantized_embeddings: &[u8]) -> (r: Result<Vec<i64>, PackError>)
    ensures
        r is Ok <==> binary_quantized_embeddings@.len() % 8 == 0,
        r is Err ==> r->Err_0 == PackError::NotMultipleOf8,
        r is Ok ==> 8 * r->Ok_0@.len() == binary_quantized_embeddings@.len(),
        r is Ok ==> forall|k: int|
            0 <= k < r->Ok_0@.len() ==> #[trigger] r->Ok_0@[k] == signed(
                field(binary_quantized_embeddings@, 8 * k, 8),
                pow256(8),
            ),
{
    let bytes = binary_quantized_embeddings;
    if bytes.len() % 8 != 0 {
        return Err(PackError::NotMultipleOf8);
    }
    let mut out: Vec<i64> = Vec::new();
    let mut at: usize = 0;
    while at < bytes.len()
        invariant
            at <= bytes.len(),
            bytes@.len() % 8 == 0,
            at == 8 * out@.len(),
            forall|k: int|
                0 <= k < out@.len() ==> #[trigger] out@[k] == signed(field(bytes@, 8 * k, 8), pow256(8)),
        decreases bytes@.len() - at,
    {
        let word: u64 = get_u64(bytes, at);
        proof {
            lemma_pow256();
        }
        let x: i64 = if word <= 0x7fff_ffff_ffff_ffff {
            word as i64
        } else {
            -1 - ((u64::MAX - word) as i64)
        };
        out.push(x);
        at = at + 8;
    }
    Ok(out)
}

/// The bytes of the words, lowest byte first.
pub open spec fn word_bytes(words: Seq<u128>) -> Seq<u8> {
    Seq::new(16 * words.len(), |i: int| le_bytes(words[i / 16] as nat, 16)[i % 16])
}

/// The bytes of the signed words, lowest byte first.
pub open spec fn signed_word_bytes(words: Seq<i64>) -> Seq<u8> {
    Seq::new(
        8 * words.len(),
        |i: int| le_bytes(unsigned(words[i / 8] as int, pow256(8)), 8)[i % 8],
    )
}

/// The bytes of the words, lowest byte first.
pub fn unpack(packed_embeddings: &[u128]) -> (bytes: Vec<u8>)
    ensures
        bytes@ == word_bytes(packed_embeddings@),
{
    let mut bytes: Vec<u8> = Vec::new();
    let mut k: usize = 0;
    while k < packed_embeddings.len()
        invariant
            k <= packed_embeddings@.len(),
            bytes@.len() == 16 * k,
            forall|i: int|
                0 <= i < bytes@.len() ==> #[trigger] bytes@[i] == le_bytes(packed_embeddings@[i / 16] as nat, 16)[i % 16],
        decreases packed_embeddings@.len() - k,
    {
        proof {
            lemma_le_bytes_len(packed_embeddings@[k as int] as nat, 16);
        }
        push_le(&mut bytes, 16, packed_embeddings[k]);
        k = k + 1;
    }
    bytes
}

/// The bytes of the signed words, lowest byte first.
pub fn unpack_from_signed_64(packed_embeddings: &[i64]) -> (bytes: Vec<u8>)
    ensures
        bytes@ == signed_word_bytes(packed_embeddings@),
{
    let mut bytes: Vec<u8> = Vec::new();
    let mut k: usize = 0;
    while k < packed_embeddings.len()
        invariant
            k <= packed_embeddings@.len(),
            bytes@.len() == 8 * k,
            forall|i: int|
                0 <= i < bytes@.len() ==> #[trigger] bytes@[i] == le_bytes(
                    unsigned(packed_embeddings@[i / 8] as int, pow256(8)),
                    8,
                )[i % 8],
        decreases packed_embeddings@.len() - k,
    {
        let x: i64 = packed_embeddings[k];
        let word: u64 = if x >= 0 {
            x as u64
        } else {
            u64::MAX - ((-1 - x) as u64)
        };
        proof {
            lemma_pow256();
            lemma_le_bytes_len(word as nat, 8);
        }
        push_le(&mut bytes, 8, word as u128);
        k = k + 1;
    }
    bytes
}

/// Unpacking gives back the bytes that were packed.
pub proof fn law_pack_round_trip(bytes: Seq<u8>, words: Seq<u128>)
    requires
        16 * words.len() == bytes.len(),
        forall|k: int| 0 <= k < words.len() ==> #[trigger] words[k] == field(bytes, 16 * k, 16),
    ensures
        word_bytes(words) == bytes,
{
    assert forall|i: int| 0 <= i < bytes.len() implies word_bytes(words)[i] == bytes[i] by {
        let k = i / 16;
        assert(words[k] == field(bytes, 16 * k, 16));
        let chunk = bytes.subrange(16 * k, 16 * k + 16);
        lemma_le_value_bytes(chunk);
        assert(chunk[i % 16] == bytes[i]);
    }
    assert(word_bytes(words) =~= bytes);
}

/// Unpacking gives back the bytes that were packed into signed words.
pub proof fn law_signed_pack_round_trip(bytes: Seq<u8>, words: Seq<i64>)
    requires
        8 * words.len() == bytes.len(),
        forall|k: int|
            0 <= k < words.len() ==> #[trigger] words[k] == signed(field(bytes, 8 * k, 8), pow256(8)),
    ensures
        signed_word_bytes(words) == bytes,
{
    assert forall|i: int| 0 <= i < bytes.len() implies signed_word_bytes(words)[i] == bytes[i] by {
        let k = i / 8;
        let chunk = bytes.subrange(8 * k, 8 * k + 8);
        assert(words[k] == signed(field(bytes, 8 * k, 8), pow256(8)));
        lemma_le_value_bound(chunk);
        lemma_pow256();
        lemma_le_value_bytes(chunk);
        assert(chunk[i % 8] == bytes[i]);
    }
    assert(signed_word_bytes(words) =~= bytes);
}

/// One more byte adds its value to the sum and its set bits to their count.
pub proof fn law_totals_add_up(bytes: Seq<u8>, b: u8)
    ensures
        byte_sum(Seq::<u8>::empty()) == 0,
        one_bits(Seq::<u8>::empty()) == 0,
        byte_sum(bytes.push(b)) == byte_sum(bytes) + b,
        one_bits(bytes.push(b)) == one_bits(bytes) + Set::new(
            |p: int| 0 <= p < 64 && ((b as u64) >> (p as u64)) & 1 == 1,
        ).len(),
{
    assert(bytes.push(b).drop_last() =~= bytes);
    law_word_count_is_the_number_of_set_bits(b as u64, 64);
    assert(Set::new(|p: int| 0 <= p < 64 && ((b as u64) >> (p as u64)) & 1 == 1) =~= Set::new(
        |p: int| 0 <= p < 64nat && ((b as u64) >> (p as u64)) & 1 == 1,
    ));
}

/// Two's complement: the lower half of the values stand for themselves, and the upper half
/// for the negative numbers that are the modulus below them.
pub proof fn law_twos_complement(value: nat, modulus: nat)
    requires
        value < modulus,
    ensures
        signed(value, modulus) == value || signed(value, modulus) == value - modulus,
        -(modulus as int) <= 2 * signed(value, modulus) < modulus,
        unsigned(signed(value, modulus), modulus) == value,
{
}

/// Byte `j` of word `k` comes out at place `16 * k + j`, the lowest first.
pub proof fn law_unpacked_words(words: Seq<u128>, k: int, j: int)
    requires
        0 <= k < words.len(),
        0 <= j < 16,
    ensures
        word_bytes(words).len() == 16 * words.len(),
        word_bytes(words)[16 * k + j] == (words[k] as nat / pow256(j as nat)) % 256,
{
    law_bytes_are_digits(words[k] as nat, 16, j);
    assert((16 * k + j) / 16 == k && (16 * k + j) % 16 == j);
}

/// Byte `j` of signed word `k` comes out at place `8 * k + j`, the lowest first.
pub proof fn law_unpacked_signed_words(words: Seq<i64>, k: int, j: int)
    requires
        0 <= k < words.len(),
        0 <= j < 8,
    ensures
        signed_word_bytes(words).len() == 8 * words.len(),
        words[k] >= 0 ==> signed_word_bytes(words)[8 * k + j] == (words[k] as nat / pow256(j as nat)) % 256,
        words[k] < 0 ==> signed_word_bytes(words)[8 * k + j] == ((words[k] + 0x1_0000_0000_0000_0000) as nat / pow256(
            j as nat,
        )) % 256,
{
    lemma_pow256();
    law_bytes_are_digits(unsigned(words[k] as int, pow256(8)), 8, j);
    assert((8 * k + j) / 8 == k && (8 * k + j) % 8 == j);
}

/// Packing bytes into words: it is refused exactly where the number of bytes is no multiple
/// of those of a word; what is packed is unpacked, and the first byte of a word is its
/// lowest.
pub proof fn law_packed_words(
    bytes: &[u8],
    r: Result<Vec<u128>, PackError>,
    words: &[u128],
    back: Vec<u8>,
    s: Result<Vec<i64>, PackError>,
    signed_words: &[i64],
    signed_back: Vec<u8>,
)
    requires
        r is Ok ==> words@ == r->Ok_0@,
        s is Ok ==> signed_words@ == s->Ok_0@,
        call_ensures(pack, (bytes,), r),
        r is Ok ==> call_ensures(unpack, (words,), back),
        call_ensures(pack_to_signed_64, (bytes,), s),
        s is Ok ==> call_ensures(unpack_from_signed_64, (signed_words,), signed_back),
    ensures
        r is Ok <==> bytes@.len() % 16 == 0,
        r is Ok ==> back@ == bytes@ && 16 * r->Ok_0@.len() == bytes@.len(),
        s is Ok <==> bytes@.len() % 8 == 0,
        s is Ok ==> signed_back@ == bytes@ && 8 * s->Ok_0@.len() == bytes@.len(),
{
    if r is Ok {
        law_pack_round_trip(bytes@, r->Ok_0@);
    }
    if s is Ok {
        law_signed_pack_round_trip(bytes@, s->Ok_0@);
    }
}

/// The sum and the number of one bits of bytes grow by the added byte and by its one bits;
/// without bytes both are zero.
pub proof fn law_totals(bytes: &[u8], more: &[u8], b: u8, n: u32, m: u32, k: u32, l: u32)
    requires
        more@ == bytes@.push(b),
        call_ensures(total, (bytes,), n),
        call_ensures(total, (more,), m),
        call_ensures(total_number_of_one_bits, (bytes,), k),
        call_ensures(total_number_of_one_bits, (more,), l),
    ensures
        m == n + b,
        l == k + Set::new(|p: int| 0 <= p < 64 && ((b as u64) >> (p as u64)) & 1 == 1).len(),
        bytes@.len() == 0 ==> n == 0 && k == 0,
{
    law_totals_add_up(bytes@, b);
}

} // verus!

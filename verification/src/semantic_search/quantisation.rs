//! Packing of quantisation codes into words, and the integer part of the codes.

use vstd::prelude::*;

use crate::bytes::{
    copy_bytes, get_u64, law_bytes_are_digits, le_bytes, le_value, lemma_le_bytes_len, lemma_le_value_bytes, pow256, push_le,
};
use super::fusion::{total_order, INFINITY_BITS, NEGATIVE_ZERO_BITS};
use crate::index::container::bitset::{lemma_set_bit, word_bit};

verus! {

/// Bit `i` of a sequence of words, lowest bit of the first word first.
pub open spec fn bit_at(words: Seq<u64>, i: int) -> bool {
    word_bit(words[i / 64], (i % 64) as u64)
}

/// Number of groups of `per` that hold `n` items.
pub open spec fn groups(n: nat, per: nat) -> nat {
    ((n + per - 1) / per as int) as nat
}

/// `packed` holds one bit per element of `binary`, set where the element is 1, and
/// zeros behind them up to the end of the last word.
pub open spec fn is_bit_packing(packed: Seq<u64>, binary: Seq<u8>) -> bool {
    &&& packed.len() == groups(binary.len(), 64)
    &&& forall|i: int|
        0 <= i < 64 * packed.len() ==> (#[trigger] bit_at(packed, i) <==> i < binary.len() && binary[i] == 1)
}

/// The first `dim` bits of `packed`.
pub open spec fn leading_bits(packed: Seq<u64>, dim: nat) -> Seq<bool> {
    Seq::new(dim, |i: int| bit_at(packed, i))
}

/// `packed` holds the bytes, eight to a word, lowest first, and zeros behind them.
pub open spec fn is_byte_packing(packed: Seq<u64>, bytes: Seq<u8>) -> bool {
    &&& packed.len() == groups(bytes.len(), 8)
    &&& forall|k: int| 0 <= k < packed.len() ==> #[trigger] packed[k] == le_value(padded(bytes, 8 * k, 8))
}

/// The first `dim` bytes of `packed`, all of them where there are fewer.
pub open spec fn leading_bytes(packed: Seq<u64>, dim: nat) -> Seq<u8> {
    Seq::new(
        if dim <= 8 * packed.len() {
            dim
        } else {
            8 * packed.len()
        },
        |i: int| le_bytes(packed[i / 8] as nat, 8)[i % 8],
    )
}

/// Packs one bit per element, set where the element is 1, into words; the rest of
/// the last word is zero.
pub fn pack_bits(binary: &[u8]) -> (packed: Vec<u64>)
    ensures
        is_bit_packing(packed@, binary@),
{
    let mut packed: Vec<u64> = Vec::new();
    let mut i: usize = 0;
    while i < binary.len()
        invariant
            i <= binary@.len(),
            packed@.len() == groups(i as nat, 64),
            forall|k: int| 0 <= k < 64 * packed@.len() ==> (#[trigger] bit_at(packed@, k) <==> k < i && binary@[k] == 1),
        decreases binary@.len() - i,
    {
        let ghost before = packed@;
        if i % 64 == 0 {
            packed.push(0);
            proof {
                assert(forall|p: u64| p < 64 ==> !word_bit(0, p)) by {
                    assert(forall|p: u64| p < 64 ==> (0u64 >> p) & 1 == 0) by (bit_vector);
                }
                assert forall|k: int| 0 <= k < 64 * packed@.len() implies (#[trigger] bit_at(packed@, k) <==> k < i
                    && binary@[k] == 1) by {
                    if k < 64 * before.len() {
                        assert(bit_at(before, k) <==> k < i && binary@[k] == 1);
                    }
                }
            }
        }
        let ghost mid = packed@;
        let at: usize = i / 64;
        let bit: u64 = (i % 64) as u64;
        if binary[i] == 1 {
            let word: u64 = packed[at] | (1u64 << bit);
            packed.set(at, word);
            proof {
                assert forall|k: int| 0 <= k < 64 * packed@.len() implies (#[trigger] bit_at(packed@, k) <==> k < i + 1
                    && binary@[k] == 1) by {
                    assert(bit_at(mid, k) <==> k < i && binary@[k] == 1);
                    if k / 64 == at {
                        lemma_set_bit(mid[at as int], bit, (k % 64) as u64);
                    }
                }
            }
        } else {
            proof {
                assert forall|k: int| 0 <= k < 64 * packed@.len() implies (#[trigger] bit_at(packed@, k) <==> k < i + 1
                    && binary@[k] == 1) by {
                    assert(bit_at(mid, k) <==> k < i && binary@[k] == 1);
                }
            }
        }
        i = i + 1;
    }
    packed
}

/// The first `dim` bits of `packed`.
pub fn unpack_bits(packed: &[u64], dim: usize) -> (bits: Vec<bool>)
    requires
        dim <= 64 * packed@.len(),
    ensures
        bits@ == leading_bits(packed@, dim as nat),
{
    let mut bits: Vec<bool> = Vec::with_capacity(dim);
    let mut i: usize = 0;
    while i < dim
        invariant
            i <= dim <= 64 * packed@.len(),
            bits@ =~= leading_bits(packed@, i as nat),
        decreases dim - i,
    {
        let word: u64 = packed[i / 64];
        let p: u64 = (i % 64) as u64;
        bits.push((word >> p) & 1 == 1);
        i = i + 1;
    }
    bits
}

/// Unpacking gives back which elements were 1.
pub proof fn law_bits_round_trip(binary: Seq<u8>, packed: Seq<u64>)
    requires
        is_bit_packing(packed, binary),
    ensures
        leading_bits(packed, binary.len()) == Seq::new(binary.len(), |i: int| binary[i] == 1),
{
    let bits = leading_bits(packed, binary.len());
    assert forall|i: int| 0 <= i < bits.len() implies bits[i] == (binary[i] == 1) by {
        assert(bit_at(packed, i) <==> i < binary.len() && binary[i] == 1);
    }
    assert(bits =~= Seq::new(binary.len(), |i: int| binary[i] == 1));
}

/// The `n` bytes from `at` on, with zeros past the end of `bytes`.
pub open spec fn padded(bytes: Seq<u8>, at: int, n: nat) -> Seq<u8> {
    Seq::new(
        n,
        |j: int|
            if at + j < bytes.len() {
                bytes[at + j]
            } else {
                0u8
            },
    )
}

/// Packs eight elements into each word, lowest byte first; the rest of the last
/// word is zero.
pub fn pack_bytes(bytes: &[u8]) -> (packed: Vec<u64>)
    ensures
        is_byte_packing(packed@, bytes@),
{
    let mut full: Vec<u8> = copy_bytes(bytes);
    while full.len() % 8 != 0
        invariant
            full@ =~= padded(bytes@, 0, full@.len()),
            bytes@.len() <= full@.len(),
            groups(full@.len(), 8) == groups(bytes@.len(), 8),
        decreases (8 - full@.len() % 8) % 8,
    {
        full.push(0);
    }
    let mut packed: Vec<u64> = Vec::new();
    let mut at: usize = 0;
    while at < full.len()
        invariant
            at <= full.len(),
            full@.len() % 8 == 0,
            at == 8 * packed@.len(),
            full@ =~= padded(bytes@, 0, full@.len()),
            bytes@.len() <= full@.len(),
            forall|k: int| 0 <= k < packed@.len() ==> #[trigger] packed@[k] == le_value(padded(bytes@, 8 * k, 8)),
        decreases full@.len() - at,
    {
        let word: u64 = get_u64(full.as_slice(), at);
        proof {
            assert(full@.subrange(at as int, at + 8) =~= padded(bytes@, at as int, 8));
        }
        packed.push(word);
        at = at + 8;
    }
    packed
}

/// The first `dim` bytes of `packed`, all of them where there are fewer.
pub fn unpack_bytes(packed: &[u64], dim: usize) -> (bytes: Vec<u8>)
    ensures
        bytes@ == leading_bytes(packed@, dim as nat),
{
    let mut bytes: Vec<u8> = Vec::new();
    let mut k: usize = 0;
    while k < packed.len()
        invariant
            k <= packed@.len(),
            bytes@.len() == 8 * k,
            forall|i: int| 0 <= i < bytes@.len() ==> #[trigger] bytes@[i] == le_bytes(packed@[i / 8] as nat, 8)[i % 8],
        decreases packed@.len() - k,
    {
        proof {
            lemma_le_bytes_len(packed@[k as int] as nat, 8);
        }
        push_le(&mut bytes, 8, packed[k] as u128);
        k = k + 1;
    }
    bytes.truncate(dim);
    bytes
}

/// Unpacking as many bytes as were packed gives them back.
pub proof fn law_bytes_round_trip(bytes: Seq<u8>, packed: Seq<u64>)
    requires
        is_byte_packing(packed, bytes),
    ensures
        leading_bytes(packed, bytes.len()) == bytes,
{
    let out = leading_bytes(packed, bytes.len());
    assert forall|i: int| 0 <= i < out.len() implies out[i] == bytes[i] by {
        let k = i / 8;
        assert(packed[k] == le_value(padded(bytes, 8 * k, 8)));
        lemma_le_value_bytes(padded(bytes, 8 * k, 8));
        assert(padded(bytes, 8 * k, 8)[i % 8] == bytes[i]);
    }
    assert(out =~= bytes);
}

/// Smallest width of the multi-bit codes; one bit has a code of its own.
pub const MIN_MULTI_BIT_QUANTISATION_BITS: usize = 2;

/// Largest width of the multi-bit codes: a code is one byte.
pub const MAX_MULTI_BIT_QUANTISATION_BITS: usize = 8;

/// Number of codes of `bits` bits.
pub open spec fn levels(bits: nat) -> nat
    decreases bits,
{
    if bits == 0 {
        1
    } else {
        2 * levels((bits - 1) as nat)
    }
}

proof fn lemma_levels_mono(a: nat, b: nat)
    requires
        a <= b,
    ensures
        1 <= levels(a) <= levels(b),
    decreases b,
{
    if b > 0 {
        if a < b {
            lemma_levels_mono(a, (b - 1) as nat);
        } else {
            lemma_levels_mono((a - 1) as nat, (b - 1) as nat);
        }
    }
}

/// Number of codes of `bits` bits.
fn level_count(bits: usize) -> (n: u32)
    requires
        bits <= 8,
    ensures
        n == levels(bits as nat),
        1 <= n <= 256,
{
    let mut n: u32 = 1;
    let mut k: usize = 0;
    proof {
        reveal_with_fuel(levels, 9);
        lemma_levels_mono(bits as nat, 8);
    }
    while k < bits
        invariant
            k <= bits <= 8,
            n == levels(k as nat) <= 256,
        decreases bits - k,
    {
        proof {
            lemma_levels_mono((k + 1) as nat, 8);
            reveal_with_fuel(levels, 9);
        }
        n = n * 2;
        k = k + 1;
    }
    n
}

/// The pattern is that of a number below zero.
pub open spec fn is_below_zero(bits: u32) -> bool {
    total_order(NEGATIVE_INFINITY_BITS) <= total_order(bits) < total_order(NEGATIVE_ZERO_BITS)
}

/// The pattern is that of a number from zero on; either zero is one.
pub open spec fn is_zero_or_above(bits: u32) -> bool {
    total_order(NEGATIVE_ZERO_BITS) <= total_order(bits) <= total_order(INFINITY_BITS)
}

/// Bit pattern of negative infinity.
pub const NEGATIVE_INFINITY_BITS: u32 = 0xff80_0000;

/// Whether the pattern is that of a number from zero on.
fn zero_or_above(bits: u32) -> (yes: bool)
    ensures
        yes == is_zero_or_above(bits),
{
    bits <= INFINITY_BITS || bits == NEGATIVE_ZERO_BITS
}

/// Whether the pattern is that of a number below zero.
fn below_zero(bits: u32) -> (yes: bool)
    ensures
        yes == is_below_zero(bits),
{
    bits > NEGATIVE_ZERO_BITS && bits <= NEGATIVE_INFINITY_BITS
}

/// The single-bit code of a residual: 1 for a component from zero on, else 0.
/// The residual is given as the bit patterns of its components.
pub fn binary_quantize(residual: &[u32]) -> (code: Vec<u8>)
    ensures
        code@ == Seq::new(
            residual@.len(),
            |i: int|
                if is_zero_or_above(residual@[i]) {
                    1u8
                } else {
                    0u8
                },
        ),
{
    let mut code: Vec<u8> = Vec::with_capacity(residual.len());
    let mut i: usize = 0;
    while i < residual.len()
        invariant
            i <= residual@.len(),
            code@.len() == i,
            forall|k: int|
                0 <= k < i ==> #[trigger] code@[k] == if is_zero_or_above(residual@[k]) {
                    1u8
                } else {
                    0u8
                },
        decreases residual@.len() - i,
    {
        let b: u8 = if zero_or_above(residual[i]) {
            1
        } else {
            0
        };
        code.push(b);
        i = i + 1;
    }
    code
}

/// `magnitude` brought down to the largest code of `extra_bits` bits.
pub open spec fn clamped(magnitude: int, extra_bits: nat) -> int {
    if magnitude >= levels(extra_bits) {
        levels(extra_bits) - 1
    } else {
        magnitude
    }
}

/// Brings `magnitude` down to the largest code of `extra_bits` bits.
pub fn clamp_magnitude(magnitude: i32, extra_bits: usize) -> (m: i32)
    requires
        extra_bits <= 8,
    ensures
        m == clamped(magnitude as int, extra_bits as nat),
{
    let top: i32 = level_count(extra_bits) as i32;
    if magnitude >= top {
        top - 1
    } else {
        magnitude
    }
}

/// The code of one component of `bits` bits: the highest bit says that the residual
/// is not below zero, the others hold the magnitude, complemented below zero.
pub open spec fn component_code(magnitude: int, residual: u32, bits: nat) -> int {
    let extra = levels((bits - 1) as nat);
    if is_zero_or_above(residual) {
        extra + magnitude
    } else if is_below_zero(residual) {
        extra - 1 - magnitude
    } else {
        magnitude
    }
}

/// The codes of `bits` bits of all components, from their magnitudes and the bit
/// patterns of the residual.
pub fn compose_codes(magnitudes: &[i32], residual: &[u32], bits: usize) -> (codes: Vec<u8>)
    requires
        MIN_MULTI_BIT_QUANTISATION_BITS <= bits <= MAX_MULTI_BIT_QUANTISATION_BITS,
        magnitudes@.len() == residual@.len(),
        forall|i: int| 0 <= i < magnitudes@.len() ==> 0 <= (#[trigger] magnitudes@[i]) < levels((bits - 1) as nat),
    ensures
        codes@.len() == residual@.len(),
        forall|i: int|
            0 <= i < codes@.len() ==> #[trigger] codes@[i] == component_code(
                magnitudes@[i] as int,
                residual@[i],
                bits as nat,
            ),
{
    let extra: u32 = level_count(bits - 1);
    proof {
        lemma_levels_mono((bits - 1) as nat, 7);
        reveal_with_fuel(levels, 9);
    }
    let mut codes: Vec<u8> = Vec::with_capacity(residual.len());
    let mut i: usize = 0;
    while i < residual.len()
        invariant
            i <= residual@.len() == magnitudes@.len(),
            1 <= extra <= 128,
            extra == levels((bits - 1) as nat),
            forall|k: int| 0 <= k < magnitudes@.len() ==> 0 <= (#[trigger] magnitudes@[k]) < levels((bits - 1) as nat),
            codes@.len() == i,
            forall|k: int|
                0 <= k < i ==> #[trigger] codes@[k] == component_code(magnitudes@[k] as int, residual@[k], bits as nat),
        decreases residual@.len() - i,
    {
        let m: u32 = magnitudes[i] as u32;
        let code: u32 = if zero_or_above(residual[i]) {
            extra + m
        } else if below_zero(residual[i]) {
            extra - 1 - m
        } else {
            m
        };
        codes.push(code as u8);
        i = i + 1;
    }
    codes
}

/// The code of a component whose residual is zero.
pub fn zero_residual_code(bits: usize) -> (code: u8)
    requires
        1 <= bits <= MAX_MULTI_BIT_QUANTISATION_BITS,
    ensures
        code == levels((bits - 1) as nat),
{
    proof {
        lemma_levels_mono((bits - 1) as nat, 7);
        reveal_with_fuel(levels, 9);
    }
    level_count(bits - 1) as u8
}

/// Residuals of opposite sign and the same magnitude have complementary codes.
pub proof fn law_opposite_residuals(magnitude: int, up: u32, down: u32, bits: nat)
    requires
        bits >= 1,
        0 <= magnitude < levels((bits - 1) as nat),
        is_zero_or_above(up),
        is_below_zero(down),
    ensures
        component_code(magnitude, up, bits) + component_code(magnitude, down, bits) == levels(bits) - 1,
        component_code(magnitude, down, bits) < levels((bits - 1) as nat) <= component_code(magnitude, up, bits),
{
}

/// As many groups as are needed, and none that is empty.
pub proof fn law_groups(n: nat, per: nat)
    requires
        per > 0,
    ensures
        n <= groups(n, per) * per,
        n > 0 ==> (groups(n, per) - 1) * per < n,
        n == 0 ==> groups(n, per) == 0,
{
    let q = (n + per - 1) / per as int;
    vstd::arithmetic::div_mod::lemma_fundamental_div_mod(n + per - 1, per as int);
    vstd::arithmetic::div_mod::lemma_mod_bound(n + per - 1, per as int);
    vstd::arithmetic::mul::lemma_mul_is_commutative(per as int, q);
    assert((q - 1) * per == q * per - per) by (nonlinear_arith);
    if n == 0 {
        vstd::arithmetic::div_mod::lemma_small_mod((per - 1) as nat, per);
        assert(q == 0) by (nonlinear_arith)
            requires
                q * per + (per - 1) % per as int == per - 1,
                (per - 1) % per as int == per - 1,
                per > 0,
        ;
    }
}

/// Bit `i % 64` of word `i / 64` is set exactly where element `i` is 1; the bits behind
/// the last element are not set.
pub proof fn law_packed_bits(packed: Seq<u64>, binary: Seq<u8>, i: int)
    requires
        is_bit_packing(packed, binary),
        0 <= i < 64 * packed.len(),
    ensures
        packed.len() == groups(binary.len(), 64),
        i < binary.len() ==> ((packed[i / 64] >> ((i % 64) as u64)) & 1 == 1 <==> binary[i] == 1),
        i >= binary.len() ==> (packed[i / 64] >> ((i % 64) as u64)) & 1 != 1,
{
    assert(bit_at(packed, i) <==> i < binary.len() && binary[i] == 1);
}

/// Unpacked bit `i` is bit `i % 64` of word `i / 64`.
pub proof fn law_unpacked_bits(packed: Seq<u64>, dim: nat, i: int)
    requires
        0 <= i < dim,
    ensures
        leading_bits(packed, dim).len() == dim,
        leading_bits(packed, dim)[i] <==> (packed[i / 64] >> ((i % 64) as u64)) & 1 == 1,
{
}

/// Byte `j` of word `k`, the lowest first, is element `8 * k + j`, or zero behind the last
/// one.
pub proof fn law_packed_bytes(packed: Seq<u64>, bytes: Seq<u8>, k: int, j: int)
    requires
        is_byte_packing(packed, bytes),
        0 <= k < packed.len(),
        0 <= j < 8,
    ensures
        packed.len() == groups(bytes.len(), 8),
        8 * k + j < bytes.len() ==> (packed[k] as nat / pow256(j as nat)) % 256 == bytes[8 * k + j],
        8 * k + j >= bytes.len() ==> (packed[k] as nat / pow256(j as nat)) % 256 == 0,
{
    let chunk = padded(bytes, 8 * k, 8);
    assert(packed[k] == le_value(chunk));
    lemma_le_value_bytes(chunk);
    law_bytes_are_digits(packed[k] as nat, 8, j);
    assert(le_bytes(packed[k] as nat, 8)[j] == chunk[j]);
}

/// Unpacked byte `i` is byte `i % 8` of word `i / 8`; there are as many as asked for, or
/// as the words hold.
pub proof fn law_unpacked_bytes(packed: Seq<u64>, dim: nat, i: int)
    ensures
        dim <= 8 * packed.len() ==> leading_bytes(packed, dim).len() == dim,
        dim > 8 * packed.len() ==> leading_bytes(packed, dim).len() == 8 * packed.len(),
        0 <= i < leading_bytes(packed, dim).len() ==> leading_bytes(packed, dim)[i] == (packed[i / 8] as nat / pow256(
            (i % 8) as nat,
        )) % 256,
{
    if 0 <= i < leading_bytes(packed, dim).len() {
        law_bytes_are_digits(packed[i / 8] as nat, 8, i % 8);
    }
}

/// One bit more makes twice as many codes.
pub proof fn law_levels(bits: nat)
    ensures
        levels(0) == 1,
        levels(bits + 1) == 2 * levels(bits),
{
}

/// The sign of a residual, read off its bit pattern: from zero on are the patterns up to
/// that of infinity and that of negative zero; below zero are those above negative zero
/// up to that of negative infinity; what is no number is neither.
pub proof fn law_signs_of_residuals(bits: u32)
    ensures
        is_zero_or_above(bits) <==> bits <= 0x7f80_0000 || bits == 0x8000_0000,
        is_below_zero(bits) <==> 0x8000_0000 < bits <= 0xff80_0000,
{
}

/// Magnitudes are brought down to the largest code, and smaller ones stay.
pub proof fn law_clamping(magnitude: int, bits: nat)
    ensures
        clamped(magnitude, bits) < levels(bits),
        magnitude < levels(bits) ==> clamped(magnitude, bits) == magnitude,
        magnitude >= levels(bits) ==> clamped(magnitude, bits) == levels(bits) - 1,
    decreases bits,
{
    lemma_levels_mono(0, bits);
}

/// The code of a component: in the upper half of the codes, counted up by the magnitude,
/// from zero on; in the lower half, counted down by it, below zero.
pub proof fn law_codes_of_components(magnitude: int, residual: u32, bits: nat)
    requires
        bits >= 1,
    ensures
        residual <= 0x7f80_0000 || residual == 0x8000_0000 ==> component_code(magnitude, residual, bits) == levels(
            (bits - 1) as nat,
        ) + magnitude,
        0x8000_0000 < residual <= 0xff80_0000 ==> component_code(magnitude, residual, bits) == levels((bits - 1) as nat)
            - 1 - magnitude,
        (0x7f80_0000 < residual < 0x8000_0000 || residual > 0xff80_0000) ==> component_code(magnitude, residual, bits)
            == magnitude,
{
}

/// Packing signs and bytes: every component is where it is read again, in words of 64
/// bits, and what is packed is unpacked.
pub proof fn law_packing(
    binary: &[u8],
    words: Vec<u64>,
    packed: &[u64],
    bits: Vec<bool>,
    bytes: &[u8],
    byte_words: Vec<u64>,
    packed_bytes: &[u64],
    back: Vec<u8>,
    i: int,
)
    requires
        packed@ == words@,
        packed_bytes@ == byte_words@,
        call_ensures(pack_bits, (binary,), words),
        call_ensures(unpack_bits, (packed, binary.len()), bits),
        call_ensures(pack_bytes, (bytes,), byte_words),
        call_ensures(unpack_bytes, (packed_bytes, bytes.len()), back),
    ensures
        bits@.len() == binary@.len(),
        0 <= i < binary@.len() ==> (bits@[i] <==> binary@[i] == 1),
        0 <= i < binary@.len() ==> (bits@[i] <==> (words@[i / 64] >> ((i % 64) as u64)) & 1 == 1),
        binary@.len() <= 64 * words@.len() < binary@.len() + 64,
        back@ == bytes@,
        bytes@.len() <= 8 * byte_words@.len() < bytes@.len() + 8,
        0 <= i < bytes@.len() ==> (byte_words@[i / 8] as nat / pow256((i % 8) as nat)) % 256 == bytes@[i],
{
    law_bits_round_trip(binary@, words@);
    law_bytes_round_trip(bytes@, byte_words@);
    law_groups(binary@.len(), 64);
    law_groups(bytes@.len(), 8);
    if 0 <= i < binary@.len() {
        law_packed_bits(words@, binary@, i);
        law_unpacked_bits(words@, binary@.len(), i);
    }
    if 0 <= i < bytes@.len() {
        law_packed_bytes(byte_words@, bytes@, i / 8, i % 8);
    }
}

/// The codes of a residual: one bit says whether a component is zero or above; with more
/// bits, a code keeps the magnitude, above the middle for such a component and mirrored
/// below it for one below zero. A magnitude is cut to what its bits can hold.
pub proof fn law_codes(
    residual: &[u32],
    code: Vec<u8>,
    magnitudes: &[i32],
    bits: usize,
    codes: Vec<u8>,
    magnitude: i32,
    cut: i32,
    zero: u8,
    half: int,
    i: int,
)
    requires
        2 <= bits <= 8,
        half == levels((bits - 1) as nat),
        magnitudes@.len() == residual@.len(),
        0 <= i < residual@.len(),
        call_ensures(binary_quantize, (residual,), code),
        call_ensures(compose_codes, (magnitudes, residual, bits), codes),
        call_ensures(clamp_magnitude, (magnitude, (bits - 1) as usize), cut),
        call_ensures(zero_residual_code, (bits,), zero),
    ensures
        half == 2 || half == 4 || half == 8 || half == 16 || half == 32 || half == 64 || half == 128,
        code@.len() == residual@.len() && codes@.len() == residual@.len(),
        residual@[i] <= 0x7f80_0000 || residual@[i] == 0x8000_0000 ==> code@[i] == 1 && codes@[i] == half + magnitudes@[i],
        0x8000_0000 < residual@[i] <= 0xff80_0000 ==> code@[i] == 0 && codes@[i] == half - 1 - magnitudes@[i],
        0x7f80_0000 < residual@[i] < 0x8000_0000 || residual@[i] > 0xff80_0000 ==> code@[i] == 0 && codes@[i]
            == magnitudes@[i],
        magnitude < half ==> cut == magnitude,
        magnitude >= half ==> cut == half - 1,
        zero == half,
{
    law_signs_of_residuals(residual@[i]);
    law_codes_of_components(magnitudes@[i] as int, residual@[i], bits as nat);
    law_clamping(magnitude as int, (bits - 1) as nat);
    reveal_with_fuel(levels, 9);
}

} // verus!

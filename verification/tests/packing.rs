//! Codes packed into words, and integer sums over codes.

use minnal_db::semantic_search::quantisation::{
    binary_quantize, clamp_magnitude, compose_codes, pack_bits, pack_bytes, unpack_bits, unpack_bytes, zero_residual_code,
};
use minnal_db::semantic_search::vector_math::{
    pack, pack_to_signed_128, pack_to_signed_64, total, total_number_of_one_bits, unpack, unpack_from_signed_64, PackError,
};

#[test]
fn pack_empty() {
    assert!(pack_bits(&[]).is_empty());
}

#[test]
fn pack_all_zeros_is_zero_word() {
    let packed = pack_bits(&[0u8; 64]);
    assert_eq!(packed, vec![0u64]);
}

#[test]
fn pack_all_ones_is_all_ones_word() {
    let packed = pack_bits(&[1u8; 64]);
    assert_eq!(packed, vec![u64::MAX]);
}

#[test]
fn pack_single_bits_land_in_correct_positions() {
    // bit 0 → word[0] bit 0; bit 63 → word[0] bit 63
    assert_eq!(pack_bits(&[1u8, 0u8])[0], 1u64);
    let mut bits = vec![0u8; 64];
    bits[63] = 1;
    assert_eq!(pack_bits(&bits)[0], 1u64 << 63);
}

#[test]
fn pack_spans_two_words() {
    // 65 bits: bit 64 is the LSB of word[1]
    let mut bits = vec![0u8; 65];
    bits[64] = 1;
    let packed = pack_bits(&bits);
    assert_eq!(packed.len(), 2);
    assert_eq!(packed[0], 0u64);
    assert_eq!(packed[1], 1u64);
}

#[test]
fn pack_non_multiple_of_64_zero_pads_last_word() {
    let packed = pack_bits(&[1u8, 0u8, 1u8]);
    assert_eq!(packed.len(), 1);
    assert_eq!(packed[0], 0b101u64);
}

#[test]
fn unpack_roundtrips_arbitrary_pattern() {
    let bits: Vec<u8> = (0u8..130).map(|i| if i % 3 == 0 { 1 } else { 0 }).collect();
    let packed = pack_bits(&bits);
    let restored = unpack_bits(&packed, bits.len());
    let expected: Vec<bool> = bits.iter().map(|&b| b == 1).collect();
    assert_eq!(restored, expected);
}

#[test]
fn unpack_exact_word_boundary() {
    let bits: Vec<u8> = (0u8..128).map(|i| i % 2).collect();
    let packed = pack_bits(&bits);
    assert_eq!(packed.len(), 2);
    let expected: Vec<bool> = bits.iter().map(|&b| b == 1).collect();
    assert_eq!(unpack_bits(&packed, 128), expected);
}

#[test]
fn unpack_dim_zero_returns_empty() {
    assert!(unpack_bits(&[], 0).is_empty());
}

#[test]
fn only_ones_set_a_bit() {
    assert_eq!(pack_bits(&[2u8, 1u8, 255u8]), vec![0b010]);
}

#[test]
fn bytes_pack_eight_to_a_word() {
    let bytes: Vec<u8> = (1..=11).collect();
    let packed = pack_bytes(&bytes);
    assert_eq!(packed, vec![0x0807_0605_0403_0201, 0x000b_0a09]);
    assert_eq!(unpack_bytes(&packed, 11), bytes);
    assert_eq!(unpack_bytes(&packed, 3), vec![1, 2, 3]);
    assert_eq!(unpack_bytes(&packed, 99).len(), 16);
    assert!(pack_bytes(&[]).is_empty());
}

#[test]
fn test_pack_as_16_bytes() {
    let bits: Vec<u8> = vec![1, 0, 1, 0, 1, 0, 1, 0, 1, 0, 1, 0, 1, 0, 1, 0];
    let packed_bits = pack(&bits).expect("Error packing bits");
    let unpacked_bits = unpack(&packed_bits);
    assert_eq!(packed_bits.len(), 1);
    assert_eq!(unpacked_bits, bits);
}

#[test]
fn test_pack_as_16_bytes_large_embeddings() {
    let mut bits: Vec<u8> = Vec::with_capacity(768);
    for i in 0..768 {
        bits.push((i % 2) as u8);
    }
    let packed_bits = pack(&bits).expect("Error packing bits");
    let unpacked_bits = unpack(&packed_bits);
    assert_eq!(packed_bits.len(), 48);
    assert_eq!(unpacked_bits, bits);
}

#[test]
fn total_sums_all_elements() {
    let embeddings = vec![1, 0, 1];
    let total = total(&embeddings);
    assert_eq!(total, 2);
}

#[test]
fn test_total_number_of_one_bits() {
    let embeddings = vec![1, 0, 1];
    let total_number_of_one_bits = total_number_of_one_bits(&embeddings);
    assert_eq!(total_number_of_one_bits, 2);
}

#[test]
fn sums_over_larger_codes() {
    assert_eq!(total_number_of_one_bits(&[0xff, 0x0f, 0x81]), 14);
    assert_eq!(total(&[255, 255, 3]), 513);
}

#[test]
fn signed_words_agree_with_the_machine() {
    let bytes: Vec<u8> = (0..32u8).map(|i| i.wrapping_mul(37).wrapping_add(200)).collect();
    let wide: Vec<i128> = bytes.chunks(16).map(|c| i128::from_le_bytes(c.try_into().unwrap())).collect();
    assert_eq!(pack_to_signed_128(&bytes), Ok(wide));
    let words: Vec<i64> = bytes.chunks(8).map(|c| i64::from_le_bytes(c.try_into().unwrap())).collect();
    assert_eq!(pack_to_signed_64(&bytes), Ok(words.clone()));
    assert_eq!(unpack_from_signed_64(&words), bytes);
    assert_eq!(pack_to_signed_64(&[0xff; 8]), Ok(vec![-1]));
    assert_eq!(pack_to_signed_64(&[0, 0, 0, 0, 0, 0, 0, 0x80]), Ok(vec![i64::MIN]));
    assert_eq!(pack(&[1u8; 16]), Ok(vec![u128::from_le_bytes([1u8; 16])]));
}

#[test]
fn partial_words_are_refused() {
    assert_eq!(pack(&[0u8; 15]), Err(PackError::NotMultipleOf16));
    assert_eq!(pack_to_signed_128(&[0u8; 8]), Err(PackError::NotMultipleOf16));
    assert_eq!(pack_to_signed_64(&[0u8; 7]), Err(PackError::NotMultipleOf8));
    assert_eq!(PackError::NotMultipleOf16.message(), "Input length must be divisible by 16");
    assert_eq!(PackError::NotMultipleOf8.message(), "Input length must be divisible by 8");
}

fn patterns(values: &[f32]) -> Vec<u32> {
    values.iter().map(|v| v.to_bits()).collect()
}

#[test]
fn test_binary_quantize() {
    let embeddings = vec![1.0, -2.0, 3.0];
    let binary_quantized_embeddings = binary_quantize(&patterns(&embeddings));
    assert_eq!(binary_quantized_embeddings, vec![1, 0, 1]);
}

#[test]
fn zeros_count_as_positive_and_nan_does_not() {
    let code = binary_quantize(&patterns(&[0.0, -0.0, f32::NAN, f32::INFINITY, f32::NEG_INFINITY, -1e-40]));
    assert_eq!(code, vec![1, 1, 0, 1, 0, 0]);
}

#[test]
fn codes_hold_sign_and_magnitude() {
    let residual = patterns(&[0.5, -0.5, -0.0, f32::NAN]);
    assert_eq!(compose_codes(&[3, 3, 0, 2], &residual, 4), vec![11, 4, 8, 2]);
    assert_eq!(compose_codes(&[127, 127, 0, 0], &residual, 8), vec![255, 0, 128, 0]);
    assert_eq!(clamp_magnitude(200, 7), 127);
    assert_eq!(clamp_magnitude(127, 7), 127);
    assert_eq!(clamp_magnitude(5, 3), 5);
    assert_eq!(zero_residual_code(8), 128);
    assert_eq!(zero_residual_code(2), 2);
}

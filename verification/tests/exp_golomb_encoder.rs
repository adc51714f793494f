//! Writing Exp-Golomb codes.

use crf::decoder::exp_golomb::ExpGolombDecoder;
use crf::encoder::exp_golomb::ExpGolombEncoder;

#[test]
fn test_encode_zero() {
    let mut encoder = ExpGolombEncoder::new();
    encoder.encode_value(0);
    let bytes = encoder.finish();

    assert_eq!(bytes[0], 0x80);
}

#[test]
fn test_encode_one() {
    let mut encoder = ExpGolombEncoder::new();
    encoder.encode_value(1);
    let bytes = encoder.finish();

    assert_eq!(bytes[0] >> 6, 0b01);
}

#[test]
fn test_encode_two() {
    let mut encoder = ExpGolombEncoder::new();
    encoder.encode_value(2);
    let bytes = encoder.finish();

    let bits = bytes_to_bits(&bytes);
    assert_eq!(bits[0], false);
    assert_eq!(bits[1], true);
    assert_eq!(bits[2], true);
}

#[test]
fn test_encode_signed_array_roundtrip() {
    let original = vec![0, 1, -1, 2, -2, 100, -100, 1000, -1000];

    let mut encoder = ExpGolombEncoder::new();
    encoder.encode_signed_array(&original);
    let encoded = encoder.finish();

    let mut decoder = ExpGolombDecoder::new(&encoded);
    let decoded: Vec<i32> = (0..original.len())
        .map(|_| decoder.decode_signed())
        .collect();

    assert_eq!(original, decoded);
}

fn bytes_to_bits(bytes: &[u8]) -> Vec<bool> {
    let mut bits = Vec::new();
    for byte in bytes {
        for i in (0..8).rev() {
            bits.push((byte >> i) & 1 == 1);
        }
    }
    bits
}

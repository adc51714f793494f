//! Decoding Exp-Golomb codes.

use crf::decoder::exp_golomb::ExpGolombDecoder;
use crf::encoder::exp_golomb::ExpGolombEncoder;

#[test]
fn test_decode_zero() {
    let mut encoder = ExpGolombEncoder::new();
    encoder.encode_value(0);
    let encoded = encoder.finish();

    let mut decoder = ExpGolombDecoder::new(&encoded);
    let decoded = decoder.decode_value();
    assert_eq!(decoded, 0);
}

#[test]
fn test_decode_one() {
    let mut encoder = ExpGolombEncoder::new();
    encoder.encode_value(1);
    let encoded = encoder.finish();

    let mut decoder = ExpGolombDecoder::new(&encoded);
    let decoded = decoder.decode_value();
    assert_eq!(decoded, 1);
}

#[test]
fn exp_golomb_test_decode_array_roundtrip() {
    let original = vec![0u32, 1, 2, 3, 4, 5, 10, 20, 50, 100, 1000];

    let mut encoder = ExpGolombEncoder::new();
    encoder.encode_array(&original);
    let encoded = encoder.finish();

    let mut decoder = ExpGolombDecoder::new(&encoded);
    let decoded = decoder.decode_array(original.len());
    assert_eq!(original, decoded);
}

#[test]
fn exp_golomb_test_decode_signed_array_roundtrip() {
    let original = vec![0, 1, -1, 2, -2, 10, -10, 100, -100, 1000, -1000];

    let mut encoder = ExpGolombEncoder::new();
    encoder.encode_signed_array(&original);
    let encoded = encoder.finish();

    let mut decoder = ExpGolombDecoder::new(&encoded);
    let decoded = decoder.decode_signed_array(original.len());
    assert_eq!(original, decoded);
}

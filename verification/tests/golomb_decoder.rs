//! Decoding Golomb-Rice codes.

use crf::decoder::golomb::GolombDecoder;
use crf::encoder::golomb::GolombEncoder;

#[test]
fn test_decode_single_value() {
    let mut encoder = GolombEncoder::new(2);
    encoder.encode_value(5);
    let encoded = encoder.finish();

    let mut decoder = GolombDecoder::new(&encoded, 2);
    let decoded = decoder.decode_value();
    assert_eq!(decoded, 5);
}

#[test]
fn golomb_test_decode_array_roundtrip() {
    let original = vec![0u32, 1, 2, 3, 4, 5, 10, 20, 50, 100];
    let k = 2;

    let mut encoder = GolombEncoder::new(k);
    encoder.encode_array(&original);
    let encoded = encoder.finish();

    let mut decoder = GolombDecoder::new(&encoded, k);
    let decoded = decoder.decode_array(original.len());
    assert_eq!(original, decoded);
}

#[test]
fn golomb_test_decode_signed_array_roundtrip() {
    let original = vec![0, 1, -1, 2, -2, 10, -10, 100, -100];
    let k = 3;

    let mut encoder = GolombEncoder::new(k);
    encoder.encode_signed_array(&original);
    let encoded = encoder.finish();

    let mut decoder = GolombDecoder::new(&encoded, k);
    let decoded = decoder.decode_signed_array(original.len());
    assert_eq!(original, decoded);
}

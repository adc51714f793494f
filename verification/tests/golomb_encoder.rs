//! Writing Golomb-Rice codes.

use crf::decoder::golomb::GolombDecoder;
use crf::encoder::golomb::GolombEncoder;

#[test]
fn test_encode_value() {
    let mut encoder = GolombEncoder::new(2);

    encoder.encode_value(0);
    let bits = finish_to_bits(encoder);

    let mut encoder2 = GolombEncoder::new(2);
    encoder2.encode_value(5);
    let _bits2 = finish_to_bits(encoder2);

    assert_eq!(bits[0], false);
    assert_eq!(bits[1], false);
    assert_eq!(bits[2], false);
}

#[test]
fn test_encode_signed() {
    let values = vec![0, 1, -1, 2, -2, 10, -10];
    let mut encoder = GolombEncoder::new(2);

    for &v in &values {
        encoder.encode_signed(v);
    }

    let encoded = encoder.finish();
    assert!(!encoded.is_empty());
}

#[test]
fn test_encode_array_roundtrip() {
    let original = vec![0u32, 1, 2, 3, 4, 5, 6, 7, 8, 9, 10];
    let k = 2;

    let mut encoder = GolombEncoder::new(k);
    encoder.encode_array(&original);
    let encoded = encoder.finish();

    let mut decoder = GolombDecoder::new(&encoded, k);
    let decoded: Vec<u32> = (0..original.len())
        .map(|_| decoder.decode_value())
        .collect();

    assert_eq!(original, decoded);
}

fn finish_to_bits(encoder: GolombEncoder) -> Vec<bool> {
    let bytes = encoder.finish();
    let mut bits = Vec::new();
    for byte in &bytes {
        for i in (0..8).rev() {
            bits.push((byte >> i) & 1 == 1);
        }
    }
    bits
}

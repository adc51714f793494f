//! Decoding zero runs and Golomb-Rice codes.

use crf::decoder::rle_golomb::decode_frame_rle_golomb;
use crf::encoder::rle_golomb::RleGolombEncoder;

#[test]
fn test_rle_golomb_roundtrip_zeros() {
    let values = vec![0i32; 1000];
    let mut encoder = RleGolombEncoder::new(0);
    encoder.encode_signed_array(&values);
    let encoded = encoder.finish();

    let decoded = decode_frame_rle_golomb(&encoded, 0, values.len());
    assert_eq!(values, decoded);
}

#[test]
fn test_rle_golomb_roundtrip_mixed() {
    let values = vec![0, 0, 0, 1, 2, -1, 0, 0, 5, -3, 0, 0, 0, 0, 0, 10];
    let mut encoder = RleGolombEncoder::new(1);
    encoder.encode_signed_array(&values);
    let encoded = encoder.finish();

    let decoded = decode_frame_rle_golomb(&encoded, 1, values.len());
    assert_eq!(values, decoded);
}

#[test]
fn test_rle_golomb_roundtrip_single() {
    let values = vec![42];
    let mut encoder = RleGolombEncoder::new(3);
    encoder.encode_signed_array(&values);
    let encoded = encoder.finish();

    let decoded = decode_frame_rle_golomb(&encoded, 3, values.len());
    assert_eq!(values, decoded);
}

//! Transformed blocks.

use crf::decoder::transform::decode_frame_transform;
use crf::encoder::transform::encode_frame_transform;

#[test]
fn test_transform_roundtrip() {
    let width = 8;
    let height = 8;
    let original: Vec<i32> = (0..64).map(|i| (i as i32) - 32).collect();
    let block_size = 4;

    let encoded = encode_frame_transform(&original, width, height, block_size).unwrap();

    let decoded = decode_frame_transform(&encoded, width, height);

    assert_eq!(original, decoded);
}

//! Codes on top of the range coder.

use crf::decoder::rle_cabac::decode_frame_rle_cabac;
use crf::encoder::rle_cabac::{
    encode_frame_rle_cabac_adaptive, encode_frame_rle_cabac_adaptive_limited,
};
use crf::encoder::rle_golomb::encode_frame_rle_golomb_adaptive;

#[test]
fn test_cabac_limited_equivalence() {
    let mut state = 0xABCDEFu64;
    let values: Vec<i32> = (0..30000)
        .map(|_| {
            state = state
                .wrapping_mul(6364136223846793005)
                .wrapping_add(1442695040888963407);
            if state >> 40 & 3 != 0 {
                0
            } else {
                ((state >> 33) % 200) as i32 - 100
            }
        })
        .collect();
    let (uncapped, k1) = encode_frame_rle_cabac_adaptive(&values, None).unwrap();
    let (capped, k2) = encode_frame_rle_cabac_adaptive_limited(&values, None, usize::MAX)
        .unwrap()
        .unwrap();
    assert_eq!(k1, k2);
    assert_eq!(uncapped, capped);
}

fn build_v3_payload(values: &[i32], stride: Option<usize>) -> (Vec<u8>, u8) {
    let (body, k) = encode_frame_rle_cabac_adaptive(values, stride).unwrap();
    let mut full = Vec::with_capacity(body.len() + 1);
    full.push(k);
    full.extend_from_slice(&body);
    (full, k)
}

fn roundtrip(values: &[i32], stride: Option<usize>) {
    let (full, k) = build_v3_payload(values, stride);
    let decoded = decode_frame_rle_cabac(&full[1..], k, values.len(), stride);
    assert_eq!(values, decoded);
}

#[test]
fn test_cabac_roundtrip_zeros() {
    roundtrip(&vec![0i32; 5000], None);
}

#[test]
fn test_cabac_roundtrip_mixed() {
    roundtrip(&[0, 0, 0, 1, 2, -1, 0, 0, 5, -3, 0, 0, 0, 0, 0, 10], None);
}

#[test]
fn test_cabac_roundtrip_random_uniform() {
    let mut state: u64 = 0x0123456789ABCDEF;
    let mut values = Vec::with_capacity(20000);
    for _ in 0..20000 {
        state = state
            .wrapping_mul(6364136223846793005)
            .wrapping_add(1442695040888963407);
        let v = ((state >> 33) as i32 % 512) - 256;
        if state >> 40 & 3 != 0 {
            values.push(0);
        } else {
            values.push(v / 16);
        }
    }
    roundtrip(&values, None);
}

#[test]
fn test_cabac_roundtrip_random_with_stride() {
    let width = 97usize;
    let height = 61usize;
    let mut state: u64 = 0xFEED_FACE_CAFE_BABE;
    let mut values = Vec::with_capacity(width * height);
    for _ in 0..width * height {
        state = state
            .wrapping_mul(6364136223846793005)
            .wrapping_add(1442695040888963407);
        let v = ((state >> 33) as i32 % 256) - 128;
        if state >> 45 & 7 != 0 {
            values.push(0);
        } else {
            values.push(v / 8);
        }
    }
    roundtrip(&values, Some(width));
}

#[test]
fn test_cabac_beats_static_golomb_on_skewed() {
    let mut values = Vec::new();
    for g in 0..1000 {
        values.extend_from_slice(&[0i32; 500]);
        values.push((g % 7) as i32 + 1);
        values.extend_from_slice(&[0i32; 37]);
        values.push((g % 3) as i32 - 1);
    }
    let (cabac_data, _) = encode_frame_rle_cabac_adaptive(&values, None).unwrap();
    let (golomb_data, _) = encode_frame_rle_golomb_adaptive(&values).unwrap();

    assert!(cabac_data.len() <= golomb_data.len());
}

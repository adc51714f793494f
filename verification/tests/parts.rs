//! Parts of the encoder that the whole of it does not use.

use crf::common::domain::{ColorFormat, ImageData, PredictionMode};
use crf::decoder::golomb::decode_frame_golomb;
use crf::encoder::banded::probe_band_split_savings;
use crf::encoder::coeff_coder::CoeffEncoder;
use crf::encoder::cost::sad_for_mode;
use crf::encoder::golomb::{encode_frame_golomb, encode_frame_golomb_adaptive};
use crf::encoder::reference::EncodeReferenceState;

fn gray(width: u16, height: u16, pixels: Vec<i32>) -> ImageData {
    ImageData {
        width,
        height,
        bit_depth: 8,
        color_format: ColorFormat::Gray,
        pixels,
    }
}

#[test]
fn plain_codes_read_back() {
    let px: Vec<i32> = (0..48).map(|i| (i * 37) % 61 - 30).collect();
    let (data, k) = encode_frame_golomb(&px, 3).unwrap();
    assert_eq!(k, 3);
    assert_eq!(decode_frame_golomb(&data, k, 48, 8, 6, 1), px);
    let (data, k) = encode_frame_golomb_adaptive(&px).unwrap();
    assert_eq!(decode_frame_golomb(&data, k, 48, 8, 6, 1), px);
    assert_eq!(encode_frame_golomb(&[0, 0, 0, 0], 0).unwrap().0, vec![0]);
    assert_eq!(encode_frame_golomb(&[-1, 1], 0).unwrap().0, vec![0b1011_0000]);
}

#[test]
fn the_first_frame_is_remembered() {
    let mut state = EncodeReferenceState::new();
    assert!(state.golden_pixels().is_none());
    state.set_golden(gray(2, 1, vec![4, 5]));
    assert_eq!(state.golden_pixels().unwrap(), &[4, 5]);
}

#[test]
fn residuals_are_summed_up() {
    let px = vec![3, 5, 9, -1];
    assert_eq!(sad_for_mode(&px, 4, 1, PredictionMode::Off), 18);
    assert_eq!(sad_for_mode(&px, 4, 1, PredictionMode::Horizontal), 19);
}

#[test]
fn cutting_bands_in_two_is_measured() {
    let px: Vec<i32> = (0..64 * 40)
        .map(|i| if i % 64 < 32 { 7 } else { (i * i) % 251 })
        .collect();
    let probe = probe_band_split_savings(&gray(64, 40, px), 32).unwrap();
    assert_eq!((probe.band_count, probe.bands_won), (2, 2));
    assert!(probe.split_bytes < probe.full_bytes);
}

fn block_bytes(places: &[(usize, i32)]) -> Vec<u8> {
    let mut z = vec![0; 64];
    for &(i, v) in places {
        z[i] = v;
    }
    let mut e = CoeffEncoder::new();
    e.encode_block(&z);
    let n = e.byte_len();
    let data = e.finish();
    assert_eq!(n, data.len());
    data
}

#[test]
fn runs_tell_where_coefficients_stand() {
    assert_ne!(block_bytes(&[(1, 1)]), block_bytes(&[(63, 1)]));
    let single: Vec<Vec<u8>> = (0..64).map(|i| block_bytes(&[(i, 1)])).collect();
    for i in 0..64 {
        for j in 0..i {
            assert_ne!(single[i], single[j], "{} and {}", i, j);
        }
    }
}

#[test]
fn blocks_are_coded_bit_by_bit() {
    assert_eq!(block_bytes(&[]), vec![0b0000_0000]);
    assert_eq!(block_bytes(&[(0, -2)]), vec![0b1101_0000]);
    assert_eq!(block_bytes(&[(63, 1)]), vec![0b0010_1000]);
    assert_eq!(block_bytes(&[(63, -1), (61, 2)]), vec![0b0010_1011, 0b0110_0000]);
    let first = block_bytes(&[(1, 1)]);
    assert_eq!(first.len(), 9);
    assert_eq!(first[0], 0b0011_1111);
    assert_eq!(first[8], 0b1010_0000);
}

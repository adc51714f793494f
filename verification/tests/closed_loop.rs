//! Frames refer to what a decoder has.

use crf::common::config::{EncodeParams, LossyTuning};
use crf::common::domain::{ColorFormat, ImageData, PredictionMode};
use crf::decoder::session::{decode_from_bytes, DecodeResult};
use crf::encoder::sequence::encode_sequence;

fn synthetic_sequence(frames: usize, w: u16, h: u16) -> Vec<ImageData> {
    let mut seq = Vec::with_capacity(frames);
    for f in 0..frames {
        let mut pixels = Vec::with_capacity(w as usize * h as usize * 3);
        for y in 0..h as usize {
            for x in 0..w as usize {
                let base = ((x * 7 + y * 13) % 256) as i32;

                let delta = if f == 0 {
                    0
                } else {
                    (((x + f * 5) % 32 < 8) as i32) * 60 + ((y + f * 3) % 24 < 6) as i32 * 40
                };
                for c in 0..3usize {
                    let v = (base + delta + c as i32 * 9 - f as i32).clamp(0, 255);
                    pixels.push(v);
                }
            }
        }
        seq.push(ImageData {
            width: w,
            height: h,
            bit_depth: 8,
            color_format: ColorFormat::Rgb,
            pixels,
        });
    }
    seq
}

fn base_params() -> EncodeParams {
    EncodeParams {
        compression_type: "golomb-rice".to_string(),
        block_size: None,
        prediction_mode: PredictionMode::Off,
        adaptive_prediction: true,
        lossy_quality: None,
        lossy_tuning: None,
        lossy: None,
        input_original_frames: true,
        user_metadata: None,
    }
}

fn restore_sequence(result: &DecodeResult) -> Vec<(Vec<i32>, bool)> {
    let mut out: Vec<(Vec<i32>, bool)> = Vec::with_capacity(result.frames.len());
    let mut prev: Option<Vec<i32>> = None;

    let decoded_golden = result.frames[0].pixels.clone();
    for (i, dec) in result.frames.iter().enumerate() {
        let is_golden = result.frame_golden_refs.get(i).copied().unwrap_or(false);
        let restored = if i == 0 {
            dec.pixels.clone()
        } else if is_golden {
            decoded_golden
                .iter()
                .zip(&dec.pixels)
                .map(|(a, b)| a + b)
                .collect()
        } else {
            match &prev {
                Some(p) => p.iter().zip(&dec.pixels).map(|(a, b)| a + b).collect(),
                None => dec.pixels.clone(),
            }
        };
        prev = Some(restored.clone());
        out.push((restored, is_golden));
    }
    out
}

fn mean_abs_error(restored: &[i32], original: &[i32]) -> f64 {
    let sum: f64 = restored
        .iter()
        .zip(original)
        .map(|(a, b)| (*a - *b).unsigned_abs() as f64)
        .sum();
    sum / restored.len() as f64
}

#[test]
fn p0_lossless_golden_pixel_exact_roundtrip() {
    let originals = synthetic_sequence(4, 48, 40);
    let params = base_params();
    let encoded = encode_sequence(&originals, &params).unwrap();
    let result = decode_from_bytes(&encoded).unwrap();

    assert_eq!(result.frames.len(), originals.len());
    let restored = restore_sequence(&result);
    for (i, (px, _)) in restored.iter().enumerate() {
        assert_eq!(px, &originals[i].pixels);
    }
}

#[test]
fn p0_lossy_golden_no_reference_drift() {
    let originals = synthetic_sequence(5, 48, 40);
    let tuning = LossyTuning {
        golden_lossless: false,
        ..Default::default()
    };
    let params = EncodeParams {
        lossy_quality: Some(75),
        lossy_tuning: Some(tuning),
        ..base_params()
    };
    let encoded = encode_sequence(&originals, &params).unwrap();
    let result = decode_from_bytes(&encoded).unwrap();

    assert!(!result.frame_golden_refs.is_empty());

    let restored = restore_sequence(&result);

    let first_err = mean_abs_error(&restored[0].0, &originals[0].pixels);
    assert!(first_err > 0.0);

    for i in 1..originals.len() {
        let err = mean_abs_error(&restored[i].0, &originals[i].pixels);
        assert!(err < first_err * 3.0 + 0.5);
    }

}

#[test]
fn p0_q95_soft_first_frame_structural_closure() {
    let originals = synthetic_sequence(3, 40, 32);
    let params = EncodeParams {
        lossy_quality: Some(95),
        ..base_params()
    };
    let encoded = encode_sequence(&originals, &params).unwrap();
    let result = decode_from_bytes(&encoded).unwrap();

    assert_eq!(result.frames.len(), originals.len());
    assert_eq!(result.header.width, 40);
    assert_eq!(result.header.height, 32);

    assert!(!result.frame_golden_refs[0]);
    for g in result.frame_golden_refs.iter().skip(1) {
        assert!(g);
    }

    let restored = restore_sequence(&result);
    assert_eq!(restored.len(), originals.len());
}

#[test]
fn preset_explicit_equivalence() {
    let originals = synthetic_sequence(4, 48, 40);
    let base = base_params();
    let preset_params = EncodeParams {
        lossy_quality: Some(90),
        lossy_tuning: None,
        ..base.clone()
    };
    let explicit_params = EncodeParams {
        lossy_quality: Some(90),
        lossy_tuning: Some(LossyTuning::default()),
        ..base
    };
    let enc_preset =
        encode_sequence(&originals, &preset_params).unwrap();
    let enc_explicit =
        encode_sequence(&originals, &explicit_params).unwrap();
    assert_eq!(enc_preset, enc_explicit);
}

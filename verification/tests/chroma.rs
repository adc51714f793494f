//! Chroma planes.

use crf::common::config::{EncodeParams, LossyTuning};
use crf::common::domain::{ColorFormat, ImageData, PredictionMode};
use crf::decoder::session::{decode_from_bytes, DecodeResult};
use crf::encoder::sequence::encode_sequence;

fn synthetic_sequence(frames: usize, w: u16, h: u16) -> Vec<ImageData> {
    let mut seq = Vec::with_capacity(frames);
    for f in 0..frames {
        let mut pixels = Vec::with_capacity(w as usize * h as usize * 3);
        for y in 0..h as usize {
            for x in 0..w as usize {
                let band = (y / 8) as i32 * 30;
                let ramp = (x % 32) as i32;
                let r = (band + ramp).clamp(0, 255);
                let g = (band * 2 / 3 + 40 - f as i32 * 5).clamp(0, 255);
                let b = (200 - band - f as i32 * 3).clamp(0, 255);
                pixels.push(r);
                pixels.push(g);
                pixels.push(b);
            }
        }
        seq.push(ImageData {
            width: w,
            height: h,
            bit_depth: 8,
            color_format: ColorFormat::Rgb,
            pixels,
        });
    }
    seq
}

fn base_params() -> EncodeParams {
    EncodeParams {
        compression_type: "golomb-rice".to_string(),
        block_size: None,
        prediction_mode: PredictionMode::Off,
        adaptive_prediction: true,
        lossy_quality: None,
        lossy_tuning: None,
        lossy: None,
        input_original_frames: true,
        user_metadata: None,
    }
}

fn restore_sequence(result: &DecodeResult) -> Vec<Vec<i32>> {
    let mut out = Vec::with_capacity(result.frames.len());
    let mut prev: Option<Vec<i32>> = None;
    let golden = result.frames[0].pixels.clone();
    for (i, dec) in result.frames.iter().enumerate() {
        let is_golden = result.frame_golden_refs.get(i).copied().unwrap_or(false);
        let restored = if i == 0 {
            dec.pixels.clone()
        } else if is_golden {
            golden.iter().zip(&dec.pixels).map(|(a, b)| a + b).collect()
        } else {
            match &prev {
                Some(p) => p.iter().zip(&dec.pixels).map(|(a, b)| a + b).collect(),
                None => dec.pixels.clone(),
            }
        };
        prev = Some(restored.clone());
        out.push(restored);
    }
    out
}

#[test]
fn p1_chroma_half_res_decoupled_from_step_q95() {
    let originals = synthetic_sequence(3, 64, 48);
    let params = EncodeParams {
        lossy_quality: Some(95),
        ..base_params()
    };
    let encoded = encode_sequence(&originals, &params).unwrap();
    let result = decode_from_bytes(&encoded).unwrap();

    assert_eq!(result.frames.len(), originals.len());
    let restored = restore_sequence(&result);
    assert_eq!(restored.len(), originals.len());
    for (i, px) in restored.iter().enumerate() {
        assert_eq!(px.len(), originals[i].pixels.len());
    }
}

#[test]
fn p1_chroma_half_res_disabled_explicitly() {
    let originals = synthetic_sequence(3, 64, 48);
    let tuning = LossyTuning {
        chroma_half_res: false,
        ..Default::default()
    };
    let params = EncodeParams {
        lossy_quality: Some(75),
        lossy_tuning: Some(tuning),
        ..base_params()
    };
    let encoded = encode_sequence(&originals, &params).unwrap();
    let result = decode_from_bytes(&encoded).unwrap();
    assert_eq!(result.frames.len(), originals.len());
}

#[test]
fn p1_chroma_step_effective_end_to_end() {
    let originals = synthetic_sequence(4, 56, 44);
    let params = EncodeParams {
        lossy_quality: Some(90),
        ..base_params()
    };
    let encoded = encode_sequence(&originals, &params).unwrap();
    let result = decode_from_bytes(&encoded).unwrap();

    let restored = restore_sequence(&result);
    for (i, px) in restored.iter().enumerate() {
        let max_err = px
            .iter()
            .zip(&originals[i].pixels)
            .map(|(a, b)| (*a - *b).unsigned_abs())
            .max()
            .unwrap_or(0);
        assert!(max_err <= 24);
    }
}

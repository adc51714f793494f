//! Encoding frame by frame.

use crf::common::config::{EncodeParams, LossyOptionsV2, ReferenceModeV2, SceneCutModeV2};
use crf::common::domain::{
    ColorFormat, ImageData, PredictionMode, FRAME_HEADER_SIZE, HEADER_SIZE, REFERENCE_TYPE_OFFSET,
};
use crf::decoder::session::{decode_from_bytes, DecodeSession};
use crf::encoder::sequence::encode_sequence;
use crf::encoder::streaming::StreamingEncoder;

fn make_frame(shift: i32, width: u16, height: u16) -> ImageData {
    let mut px = Vec::with_capacity(width as usize * height as usize * 3);
    for y in 0..height {
        for x in 0..width {
            px.push(((x as i32 + shift * 3) % 200) + 30);
            px.push((100 - ((y as i32 + shift) % 70)) + 20);
            px.push(((x as i32 + y as i32 + shift) % 150) + 50);
        }
    }
    ImageData {
        width,
        height,
        bit_depth: 8,
        color_format: ColorFormat::Rgb,
        pixels: px,
    }
}

fn mk_params() -> EncodeParams {
    EncodeParams {
        compression_type: "golomb-rice".to_string(),
        block_size: None,
        prediction_mode: PredictionMode::Average,
        adaptive_prediction: true,
        lossy_quality: None,
        lossy_tuning: None,
        lossy: None,
        input_original_frames: true,
        user_metadata: None,
    }
}

#[test]
fn test_streaming_60_frames() {
    let w = 24u16;
    let h = 16u16;
    let frames: Vec<ImageData> = (0..60).map(|i| make_frame(i % 7, w, h)).collect();

    let mut enc = StreamingEncoder::new(&mk_params()).unwrap();
    for f in &frames {
        enc.push_frame(f).unwrap();
    }
    let encoded = enc.finish().unwrap();

    let dec = decode_from_bytes(&encoded).unwrap();
    assert_eq!(dec.header.frame_count, 60);
    assert_eq!(dec.frames.len(), 60);

    assert_eq!(dec.frames[0].pixels, frames[0].pixels);
    let restored_33: Vec<i32> = dec.frames[0]
        .pixels
        .iter()
        .zip(dec.frames[33].pixels.iter())
        .map(|(a, b)| a + b)
        .collect();
    assert_eq!(restored_33, frames[33].pixels);
}

#[test]
fn test_streaming_matches_batch_lossless() {
    let w = 16u16;
    let h = 16u16;
    let frames: Vec<ImageData> = (0..5).map(|i| make_frame(i * 2, w, h)).collect();

    let streaming = {
        let mut enc = StreamingEncoder::new(&mk_params()).unwrap();
        for f in &frames {
            enc.push_frame(f).unwrap();
        }
        enc.finish().unwrap()
    };
    let batched = encode_sequence(&frames, &mk_params()).unwrap();

    assert_eq!(streaming.len(), batched.len());
    for i in 0..streaming.len() {
        assert_eq!(streaming[i], batched[i]);
    }
}

#[test]
#[should_panic(expected = "FrameCountOutOfRange")]
fn test_streaming_min_frames() {
    let mut enc = StreamingEncoder::new(&mk_params()).unwrap();
    enc.push_frame(&make_frame(0, 8, 8)).unwrap();
    let _ = enc.finish().unwrap();
}

#[test]
fn test_streaming_matches_batch_first_frame_bypass() {
    let w = 32u16;
    let h = 24u16;
    let mut f0 = vec![0i32; w as usize * h as usize * 3];
    for px in f0.chunks_exact_mut(3) {
        px[0] = 200;
        px[1] = 0;
        px[2] = 100;
    }
    let mut f1 = f0.clone();
    for px in f1.chunks_exact_mut(3).skip(w as usize * h as usize / 2) {
        px[0] = 50;
        px[2] = 220;
    }
    let frames = vec![
        ImageData {
            width: w,
            height: h,
            bit_depth: 8,
            color_format: ColorFormat::Rgb,
            pixels: f0,
        },
        ImageData {
            width: w,
            height: h,
            bit_depth: 8,
            color_format: ColorFormat::Rgb,
            pixels: f1,
        },
    ];

    let streaming = {
        let mut enc = StreamingEncoder::new(&mk_params()).unwrap();
        for f in &frames {
            enc.push_frame(f).unwrap();
        }
        enc.finish().unwrap()
    };
    let batched = encode_sequence(&frames, &mk_params()).unwrap();

    let dec = decode_from_bytes(&batched).unwrap();
    assert!(dec.header.flags.first_frame_no_rct());

    assert_eq!(streaming.len(), batched.len());
    for i in 0..streaming.len() {
        assert_eq!(streaming[i], batched[i]);
    }
}

fn mk_lossy_params_q90() -> EncodeParams {
    let mut p = mk_params();
    p.lossy = Some(
        LossyOptionsV2::builder_preset(9000)
            .reference_mode(ReferenceModeV2::Golden)
            .build()
            .unwrap(),
    );
    p
}

#[test]
fn test_streaming_lossy_golden_closed_loop_matches_batch() {
    let w = 32u16;
    let h = 24u16;
    let frames: Vec<ImageData> = (0..5).map(|i| make_frame(i * 2, w, h)).collect();
    let params = mk_lossy_params_q90();

    let streaming = {
        let mut enc = StreamingEncoder::new(&params).unwrap();
        for f in &frames {
            enc.push_frame(f).unwrap();
        }
        enc.finish().unwrap()
    };
    let batched = encode_sequence(&frames, &params).unwrap();

    let dec = decode_from_bytes(&batched).unwrap();
    assert!(dec.frames[0].pixels != frames[0].pixels);
    assert!(dec.header.flags.has_lossy_quant());

    assert_eq!(streaming.len(), batched.len());
    for i in 0..streaming.len() {
        assert_eq!(streaming[i], batched[i]);
    }
}

#[test]
fn test_streaming_lossy_golden_decode_semantics() {
    let w = 24u16;
    let h = 20u16;
    let mut frames: Vec<ImageData> = (0..4).map(|i| make_frame(i * 3, w, h)).collect();

    for v in frames[0].pixels.iter_mut() {
        if *v > 100 {
            *v += 40;
        }
    }
    let params = mk_lossy_params_q90();

    let mut enc = StreamingEncoder::new(&params).unwrap();
    for f in &frames {
        enc.push_frame(f).unwrap();
    }
    let encoded = enc.finish().unwrap();
    let dec = decode_from_bytes(&encoded).unwrap();

    assert_ne!(dec.frames[0].pixels, frames[0].pixels);

    let batched = encode_sequence(&frames, &params).unwrap();
    let dec_b = decode_from_bytes(&batched).unwrap();
    for (fa, fb) in dec.frames.iter().zip(dec_b.frames.iter()) {
        assert_eq!(fa.pixels, fb.pixels);
    }
}

#[test]
fn test_streaming_lossy_golden_quality_offset_matches_batch() {
    let w = 32u16;
    let h = 24u16;
    let frames: Vec<ImageData> = (0..4).map(|i| make_frame(i, w, h)).collect();
    let mut params = mk_lossy_params_q90();
    params.lossy = Some(
        LossyOptionsV2::builder_preset(9000)
            .reference_mode(ReferenceModeV2::Golden)
            .first_frame_offset(-500)
            .build()
            .unwrap(),
    );

    let streaming = {
        let mut enc = StreamingEncoder::new(&params).unwrap();
        for f in &frames {
            enc.push_frame(f).unwrap();
        }
        enc.finish().unwrap()
    };
    let batched = encode_sequence(&frames, &params).unwrap();
    assert_eq!(streaming.len(), batched.len());
    for i in 0..streaming.len() {
        assert_eq!(streaming[i], batched[i]);
    }
}

#[test]
fn test_streaming_previous_matches_batch() {
    let w = 32u16;
    let h = 24u16;
    let frames: Vec<ImageData> = (0..5).map(|i| make_frame(i * 2, w, h)).collect();
    let mut params = mk_lossy_params_q90();
    params.lossy = Some(
        LossyOptionsV2::builder_preset(9000)
            .reference_mode(ReferenceModeV2::Previous)
            .build()
            .unwrap(),
    );

    let streaming = {
        let mut enc = StreamingEncoder::new(&params).unwrap();
        for f in &frames {
            enc.push_frame(f).unwrap();
        }
        enc.finish().unwrap()
    };
    let batched = encode_sequence(&frames, &params).unwrap();

    assert_eq!(streaming.len(), batched.len());
    for i in 0..streaming.len() {
        assert_eq!(streaming[i], batched[i]);
    }

    let dec_streaming = decode_from_bytes(&streaming).unwrap();
    let dec_batched = decode_from_bytes(&batched).unwrap();
    for (fa, fb) in dec_streaming.frames.iter().zip(dec_batched.frames.iter()) {
        assert_eq!(fa.pixels, fb.pixels);
    }
}

#[test]
fn test_streaming_hybrid_matches_batch() {
    let w = 32u16;
    let h = 24u16;
    let frames: Vec<ImageData> = (0..5).map(|i| make_frame(i * 2, w, h)).collect();
    let mut params = mk_lossy_params_q90();
    params.lossy = Some(
        LossyOptionsV2::builder_preset(9000)
            .reference_mode(ReferenceModeV2::Hybrid)
            .build()
            .unwrap(),
    );

    let streaming = {
        let mut enc = StreamingEncoder::new(&params).unwrap();
        for f in &frames {
            enc.push_frame(f).unwrap();
        }
        enc.finish().unwrap()
    };
    let batched = encode_sequence(&frames, &params).unwrap();

    assert_eq!(streaming.len(), batched.len());
    for i in 0..streaming.len() {
        assert_eq!(streaming[i], batched[i]);
    }

    let dec_streaming = decode_from_bytes(&streaming).unwrap();
    let dec_batched = decode_from_bytes(&batched).unwrap();
    for (fa, fb) in dec_streaming.frames.iter().zip(dec_batched.frames.iter()) {
        assert_eq!(fa.pixels, fb.pixels);
    }
}

#[test]
fn test_streaming_previous_quality_offset_matches_batch() {
    let w = 32u16;
    let h = 24u16;
    let frames: Vec<ImageData> = (0..4).map(|i| make_frame(i, w, h)).collect();
    let mut params = mk_lossy_params_q90();
    params.lossy = Some(
        LossyOptionsV2::builder_preset(9000)
            .reference_mode(ReferenceModeV2::Previous)
            .first_frame_offset(-500)
            .build()
            .unwrap(),
    );

    let streaming = {
        let mut enc = StreamingEncoder::new(&params).unwrap();
        for f in &frames {
            enc.push_frame(f).unwrap();
        }
        enc.finish().unwrap()
    };
    let batched = encode_sequence(&frames, &params).unwrap();
    assert_eq!(streaming.len(), batched.len());
    for i in 0..streaming.len() {
        assert_eq!(streaming[i], batched[i]);
    }
}

#[test]
fn test_prev2_used_in_hybrid_roundtrip() {
    let w = 32u16;
    let h = 24u16;
    let frames: Vec<ImageData> = [0i32, 100, 200, 100, 50, 100]
        .iter()
        .map(|&shift| make_frame(shift, w, h))
        .collect();
    let mut params = mk_lossy_params_q90();
    let mut lossy = LossyOptionsV2::builder_preset(9000)
        .reference_mode(ReferenceModeV2::Hybrid)
        .build()
        .unwrap();

    lossy.temporal.scene_cut = SceneCutModeV2::Off;
    params.lossy = Some(lossy);

    let encoded = encode_sequence(&frames, &params).unwrap();
    let fcount = u16::from_le_bytes([encoded[8], encoded[9]]) as usize;
    let frames_start = HEADER_SIZE + fcount * 8;
    let mut off = frames_start;
    let mut ref_types = Vec::new();
    for _ in 0..fcount {
        let fs = u32::from_le_bytes(encoded[off..off + 4].try_into().unwrap()) as usize;
        ref_types.push(encoded[off + REFERENCE_TYPE_OFFSET]);
        off += FRAME_HEADER_SIZE + fs;
    }
    assert!(ref_types.iter().any(|&r| r == 2));

    let result = decode_from_bytes(&encoded).unwrap();
    let restored = DecodeSession::restore_temporal(&result);
    assert_eq!(restored.len(), frames.len());
    for (r, o) in restored.iter().zip(&frames) {
        let max_err = r
            .pixels
            .iter()
            .zip(&o.pixels)
            .map(|(a, b)| (a - b).unsigned_abs())
            .max()
            .unwrap_or(0);
        assert!(max_err < 128);
    }

    for (i, &rt) in ref_types.iter().enumerate() {
        assert_eq!(result.frame_prev2_refs[i], rt == 2);
    }
}

#[test]
fn test_streaming_prev2_matches_batch() {
    let w = 32u16;
    let h = 24u16;
    let frames: Vec<ImageData> = [0i32, 100, 0, 100, 0, 100, 0]
        .iter()
        .map(|&shift| make_frame(shift, w, h))
        .collect();
    let mut params = mk_lossy_params_q90();
    params.lossy = Some(
        LossyOptionsV2::builder_preset(9000)
            .reference_mode(ReferenceModeV2::Hybrid)
            .build()
            .unwrap(),
    );

    let streaming = {
        let mut enc = StreamingEncoder::new(&params).unwrap();
        for f in &frames {
            enc.push_frame(f).unwrap();
        }
        enc.finish().unwrap()
    };
    let batched = encode_sequence(&frames, &params).unwrap();

    assert_eq!(streaming.len(), batched.len());
    for i in 0..streaming.len() {
        assert_eq!(streaming[i], batched[i]);
    }
}

#[test]
fn test_prev2_not_used_in_previous_mode() {
    let w = 32u16;
    let h = 24u16;
    let frames: Vec<ImageData> = [0i32, 100, 0, 100, 0]
        .iter()
        .map(|&shift| make_frame(shift, w, h))
        .collect();
    let mut params = mk_lossy_params_q90();
    params.lossy = Some(
        LossyOptionsV2::builder_preset(9000)
            .reference_mode(ReferenceModeV2::Previous)
            .build()
            .unwrap(),
    );

    let encoded = encode_sequence(&frames, &params).unwrap();
    let fcount = u16::from_le_bytes([encoded[8], encoded[9]]) as usize;
    let frames_start = HEADER_SIZE + fcount * 8;
    let mut off = frames_start;
    for _ in 0..fcount {
        let fs = u32::from_le_bytes(encoded[off..off + 4].try_into().unwrap()) as usize;
        let rt = encoded[off + REFERENCE_TYPE_OFFSET];
        assert_ne!(rt, 2);
        off += FRAME_HEADER_SIZE + fs;
    }
}

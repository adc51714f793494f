//! Whole sequences.

use crf::common::arith::rct_forward;
use crf::common::config::{EncodeParams, LossyTuning};
use crf::common::domain::{ColorFormat, CompressionType, CrfHeader, ImageData, PredictionMode, HEADER_SIZE};
use crf::decoder::banded::decode_banded_with_undo;
use crf::decoder::reconstruct::{decode_planar, make_setting};
use crf::decoder::session::{decode_checked, decode_from_bytes, DecodeResult};
use crf::encoder::adaptive::encode_frame_adaptive;
use crf::encoder::banded::encode_banded_payload;
use crf::encoder::frame::{assemble_frame, encode_frame_inner, FrameQuant};
use crf::encoder::palette::encode_palette_payload;
use crf::encoder::planar::encode_planar_payload;
use crf::encoder::ranking::candidate_mode;
use crf::encoder::rle_golomb::RleGolombEncoder;
use crf::encoder::sequence::encode_sequence;
use std::collections::HashMap;

fn create_test_frames(count: usize, width: u16, height: u16) -> Vec<ImageData> {
    (0..count)
        .map(|i| {
            let pixels: Vec<i32> = (0..(width as usize * height as usize))
                .map(|j| ((i * 10 + j) % 256) as i32 - 128)
                .collect();
            ImageData {
                width,
                height,
                bit_depth: 8,
                color_format: ColorFormat::Gray,
                pixels,
            }
        })
        .collect()
}

#[test]
fn test_encode_decode_golomb_roundtrip() {
    let frames = create_test_frames(3, 8, 8);
    let params = EncodeParams {
        compression_type: "golomb-rice".to_string(),
        block_size: None,
        prediction_mode: PredictionMode::Off,
        adaptive_prediction: false,
        lossy_quality: None,
        lossy_tuning: None,
        lossy: None,
        input_original_frames: false,
        user_metadata: Some("test".to_string()),
    };

    let encoded = encode_sequence(&frames, &params).unwrap();
    assert!(!encoded.is_empty());

    assert_eq!(&encoded[0..4], &[0x43, 0x52, 0x46, 0x00]);
}

#[test]
fn test_encode_decode_exp_golomb_roundtrip() {
    let frames = create_test_frames(3, 8, 8);
    let params = EncodeParams {
        compression_type: "exp-golomb".to_string(),
        block_size: None,
        prediction_mode: PredictionMode::Off,
        adaptive_prediction: false,
        lossy_quality: None,
        lossy_tuning: None,
        lossy: None,
        input_original_frames: false,
        user_metadata: None,
    };

    let encoded = encode_sequence(&frames, &params).unwrap();
    assert!(!encoded.is_empty());
}

#[test]
fn test_encode_frame_count_validation() {
    let frames = create_test_frames(1, 8, 8);
    let params = EncodeParams {
        compression_type: "golomb-rice".to_string(),
        block_size: None,
        prediction_mode: PredictionMode::Off,
        adaptive_prediction: false,
        lossy_quality: None,
        lossy_tuning: None,
        lossy: None,
        input_original_frames: false,
        user_metadata: None,
    };

    let result = encode_sequence(&frames, &params);
    assert!(result.is_err());
}

#[test]
fn test_banded_payload_roundtrip() {
    let width = 64;
    let height = 96;
    let mut pixels = vec![0i32; width * height];
    for y in 0..height {
        for x in 0..width {
            pixels[y * width + x] = if y < 64 {
                (50 + y / 2) as i32
            } else {
                (100 + ((x * 7 + y * 13) % 89)) as i32
            };
        }
    }
    let image = ImageData {
        width: width as u16,
        height: height as u16,
        bit_depth: 8,
        color_format: ColorFormat::Gray,
        pixels,
    };

    let payload = encode_banded_payload(&image, 32).unwrap();

    let band_count = u16::from_le_bytes([payload[0], payload[1]]) as usize;
    assert_eq!(band_count, 3);

    let restored = decode_banded_with_undo(
        &payload,
        width,
        height,
        image.color_format.component_count(),
        32,
    )
    .unwrap();
    assert_eq!(image.pixels, restored);
}

#[test]
fn test_banded_payload_roundtrip_height64() {
    let width = 48usize;
    let height = 128usize;
    let mut pixels = vec![0i32; width * height];
    for y in 0..height {
        for x in 0..width {
            pixels[y * width + x] = ((x * 3 + y) % 200) as i32;
        }
    }
    let image = ImageData {
        width: width as u16,
        height: height as u16,
        bit_depth: 8,
        color_format: ColorFormat::Gray,
        pixels,
    };

    let payload = encode_banded_payload(&image, BAND_HEIGHT_ALT_TEST).unwrap();
    let band_count = u16::from_le_bytes([payload[0], payload[1]]) as usize;
    assert_eq!(band_count, 2);
    let restored = decode_banded_with_undo(
        &payload,
        width,
        height,
        image.color_format.component_count(),
        BAND_HEIGHT_ALT_TEST,
    )
    .unwrap();
    assert_eq!(image.pixels, restored);
}

const BAND_HEIGHT_ALT_TEST: usize = 64;

#[test]
fn test_palette_roundtrip_low_color() {
    let width = 96;
    let height = 96;
    let mut pixels = vec![0i32; width * height];
    for y in 0..height {
        for x in 0..width {
            pixels[y * width + x] = match ((x / 48) + (y / 48)) % 4 {
                0 => 10,
                1 => 80,
                2 => 150,
                _ => 220,
            };
        }
    }
    let image = ImageData {
        width: width as u16,
        height: height as u16,
        bit_depth: 8,
        color_format: ColorFormat::Gray,
        pixels,
    };

    let frame = encode_frame_adaptive(
        &image,
        CompressionType::GolombRice,
        8,
        false,
        FrameQuant::lossless(),
        None,
        None,
    )
    .unwrap();

    let frame_type = frame.data[8];
    assert!(frame_type <= 5);

    let pair = [image.clone(), image.clone()];
    let decoded = decode_from_bytes(&{
        let params = EncodeParams {
            compression_type: "golomb-rice".to_string(),
            block_size: None,
            prediction_mode: PredictionMode::Average,
            adaptive_prediction: true,
            lossy_quality: None,
            lossy_tuning: None,
        lossy: None,
            input_original_frames: false,
            user_metadata: None,
        };
        encode_sequence(&pair, &params).unwrap()
    })
    .unwrap();
    assert_eq!(decoded.frames.len(), 2);
    assert_eq!(image.pixels, decoded.frames[0].pixels);
    assert_eq!(image.pixels, decoded.frames[1].pixels);
    let _ = frame_type;
}

#[test]
fn test_palette_copy_above_benefit() {
    let width = 96usize;
    let height = 96usize;

    let mut pixels = vec![0i32; width * height];
    for y in 0..height {
        for x in 0..width {
            pixels[y * width + x] = match (y / 24) % 4 {
                0 => 10,
                1 => 80,
                2 => 150,
                _ => 220,
            };
        }
    }
    let image = ImageData {
        width: width as u16,
        height: height as u16,
        bit_depth: 8,
        color_format: ColorFormat::Gray,
        pixels: pixels.clone(),
    };

    let payload_v2 =
        encode_palette_payload(&pixels, width).unwrap();
    let baseline = palette_index_baseline_size(
        &indices_only(&pixels),
    );
    assert!(payload_v2.len() * 100 < baseline * 60);

    let pair = [image.clone(), image.clone()];
    let params = EncodeParams {
        compression_type: "golomb-rice".to_string(),
        block_size: None,
        prediction_mode: PredictionMode::Average,
        adaptive_prediction: true,
        lossy_quality: None,
        lossy_tuning: None,
        lossy: None,
        input_original_frames: false,
        user_metadata: None,
    };
    let encoded = encode_sequence(&pair, &params).unwrap();
    let decoded =
        decode_from_bytes(&encoded).unwrap();
    assert_eq!(image.pixels, decoded.frames[0].pixels);
    assert_eq!(image.pixels, decoded.frames[1].pixels);
}

fn indices_only(pixels: &[i32]) -> Vec<i32> {
    let mut map: HashMap<i32, i32> = HashMap::new();
    let mut order: Vec<i32> = Vec::new();
    pixels
        .iter()
        .map(|&v| {
            let next = map.len() as i32;
            *map.entry(v).or_insert_with(|| {
                order.push(v);
                next
            })
        })
        .collect()
}

#[test]
fn test_lossy_mode_error_bound_and_size() {
    let frames: Vec<ImageData> = (0..3)
        .map(|fi| {
            let pixels: Vec<i32> = (0..64 * 64 * 3)
                .map(|j| {
                    let base = ((j * 31) % 211) as i32 - 105;
                    let delta = (((j * 7 + fi * 13) % 9) as i32) - 4;
                    base + delta
                })
                .collect();
            ImageData {
                width: 64,
                height: 64,
                bit_depth: 8,
                color_format: ColorFormat::Rgb,
                pixels,
            }
        })
        .collect();

    let mk_params = |half_res: bool, q: Option<u8>| EncodeParams {
        compression_type: "golomb-rice".to_string(),
        block_size: None,
        prediction_mode: PredictionMode::Average,
        adaptive_prediction: true,
        lossy_quality: q,
        lossy_tuning: Some(LossyTuning {
            chroma_half_res: half_res,
            ..Default::default()
        }),
        lossy: None,

        input_original_frames: true,
        user_metadata: None,
    };

    let lossless = encode_sequence(&frames, &mk_params(false, None)).unwrap();

    let lossy = encode_sequence(&frames, &mk_params(false, Some(50))).unwrap();

    assert!(lossy.len() < lossless.len());

    let restore_all = |dec: &DecodeResult| -> Vec<ImageData> {
        let base = &dec.frames[0];
        let mut restored: Vec<ImageData> = Vec::with_capacity(dec.frames.len());
        for (i, d) in dec.frames.iter().enumerate() {
            let golden = i > 0 && dec.frame_golden_refs.get(i).copied().unwrap_or(false);
            if i == 0 {
                restored.push(d.clone());
            } else if golden {
                let pixels: Vec<i32> = base
                    .pixels
                    .iter()
                    .zip(d.pixels.iter())
                    .map(|(a, b)| a + b)
                    .collect();
                restored.push(ImageData {
                    width: d.width,
                    height: d.height,
                    bit_depth: d.bit_depth,
                    color_format: d.color_format,
                    pixels,
                });
            } else {
                let prev = restored.last().unwrap();
                let pixels: Vec<i32> = prev
                    .pixels
                    .iter()
                    .zip(d.pixels.iter())
                    .map(|(a, b)| a + b)
                    .collect();
                restored.push(ImageData {
                    width: d.width,
                    height: d.height,
                    bit_depth: d.bit_depth,
                    color_format: d.color_format,
                    pixels,
                });
            }
        }
        restored
    };

    let dec_l = decode_from_bytes(&lossless).unwrap();
    let restored_l = restore_all(&dec_l);
    for (o, d) in frames.iter().zip(restored_l.iter()) {
        assert_eq!(o.pixels, d.pixels);
    }

    let dec_y = decode_from_bytes(&lossy).unwrap();
    let restored_y = restore_all(&dec_y);
    assert_eq!(restored_y.len(), frames.len());
    for (o, d) in frames.iter().zip(restored_y.iter()) {
        assert_eq!(o.pixels.len(), d.pixels.len());
    }

    assert_eq!(dec_y.header.lossy_quant, 10);
    assert!(dec_y.header.flags.has_lossy_quant());
    assert_eq!(dec_l.header.lossy_quant, 0);
    assert!(!dec_l.header.flags.has_lossy_quant());
}

#[test]
fn test_debug_golden_minimal() {
    let f0: Vec<i32> = vec![
        100, 150, 200, 50, 60, 70, 10, 20, 30, 90, 80, 70, 40, 45, 50, 5, 10, 15, 60, 65, 70, 11,
        21, 31,
    ];
    let f1: Vec<i32> = vec![
        102, 148, 203, 55, 58, 75, 12, 22, 33, 88, 78, 68, 42, 47, 52, 7, 12, 17, 62, 67, 72, 13,
        23, 33,
    ];
    let frames = vec![
        ImageData {
            width: 4,
            height: 2,
            bit_depth: 8,
            color_format: ColorFormat::Rgb,
            pixels: f0.clone(),
        },
        ImageData {
            width: 4,
            height: 2,
            bit_depth: 8,
            color_format: ColorFormat::Rgb,
            pixels: f1.clone(),
        },
    ];
    let params = EncodeParams {
        compression_type: "golomb-rice".to_string(),
        block_size: None,
        prediction_mode: PredictionMode::Average,
        adaptive_prediction: true,
        lossy_quality: None,
        lossy_tuning: None,
        lossy: None,
        input_original_frames: true,
        user_metadata: None,
    };
    let enc = encode_sequence(&frames, &params).unwrap();
    let dec = decode_from_bytes(&enc).unwrap();
    assert_eq!(dec.frames[0].pixels, f0);

    let restored: Vec<i32> = dec.frames[0]
        .pixels
        .iter()
        .zip(dec.frames[1].pixels.iter())
        .map(|(a, b)| a + b)
        .collect();
    assert_eq!(restored, f1);
}

#[test]
fn test_first_frame_dual_path_competition() {
    let frames = create_test_frames(3, 24, 24);
    let params = EncodeParams {
        compression_type: "golomb-rice".to_string(),
        block_size: None,
        prediction_mode: PredictionMode::Average,
        adaptive_prediction: false,
        lossy_quality: None,
        lossy_tuning: None,
        lossy: None,
        input_original_frames: false,
        user_metadata: None,
    };
    let encoded = encode_sequence(&frames, &params).unwrap();

    let first_frame_off = HEADER_SIZE + 3 * 8;
    let frame_type = encoded[first_frame_off + 8];
    assert!(frame_type == 0 || frame_type == 1);

    let result = decode_from_bytes(&encoded).unwrap();
    for (original, decoded) in frames.iter().zip(result.frames.iter()) {
        assert_eq!(original.pixels, decoded.pixels);
    }
}

#[test]
fn test_planar_roundtrip_flat_chroma() {
    let width = 96;
    let height = 96;
    let mut pixels = vec![0i32; width * height * 3];
    for y in 0..height {
        for x in 0..width {
            let idx = (y * width + x) * 3;

            let v = ((x * x / 4 + y * 3) % 200 + (x * y) % 37) as i32;
            pixels[idx] = v;
            pixels[idx + 1] = v;
            pixels[idx + 2] = v;
        }
    }
    let image = ImageData {
        width: width as u16,
        height: height as u16,
        bit_depth: 8,
        color_format: ColorFormat::Rgb,
        pixels,
    };

    let transformed = rct_forward(&image.pixels, 3).unwrap();
    let rct_image = ImageData {
        pixels: transformed,
        ..image.clone()
    };

    let payload = encode_planar_payload(
        &rct_image,
        CompressionType::GolombRice,
        8,
        FrameQuant::lossless(),
        None,
    )
    .unwrap();
    let planar_frame = assemble_frame(&payload, &rct_image, 0, 3).unwrap();
    let frame_level_best = {
        let mut best = usize::MAX;
        for m in (0..8).map(candidate_mode) {
            let d = encode_frame_inner(
                &rct_image,
                CompressionType::GolombRice,
                8,
                m,
                false,
                FrameQuant::lossless(),
                None,
            )
            .unwrap();
            best = best.min(d.len());
        }
        best
    };
    assert!(planar_frame.len() <= frame_level_best);

    let header_stub = CrfHeader::new(
        2,
        image.width,
        image.height,
        image.bit_depth,
        ColorFormat::Rgb,
        CompressionType::GolombRice,
    );
    let decoded = decode_planar(&payload, make_setting(&header_stub)).unwrap();
    assert_eq!(rct_image.pixels, decoded);
}

#[test]
fn test_noise_adaptive_lossy_ab() {
    let w = 48u16;
    let h = 96u16;
    let mut state: u64 = 0x0A11CE_5EED_BEEF;
    let noise = |state: &mut u64| -> i32 {
        *state = state
            .wrapping_mul(6364136223846793005)
            .wrapping_add(1442695040888963407);
        (((*state >> 33) % 13) as i32) - 6
    };

    let base_px = |x: u16, y: u16| -> [i32; 3] {
        [
            ((x as i32 * 3) % 180) + 30,
            100 - ((y as i32) % 60),
            ((x as i32 + y as i32) % 150) + 40,
        ]
    };

    let make_frame = |drift: i32, seed: u64| -> ImageData {
        let mut s = seed;
        let mut px = Vec::with_capacity(w as usize * h as usize * 3);
        for y in 0..h {
            for x in 0..w {
                for &ch in &base_px(x, y) {
                    px.push(ch + drift + noise(&mut s));
                }
            }
        }
        ImageData {
            width: w,
            height: h,
            bit_depth: 8,
            color_format: ColorFormat::Rgb,
            pixels: px,
        }
    };

    let mk_params = |q: Option<u8>, noise_on: bool| EncodeParams {
        compression_type: "golomb-rice".to_string(),
        block_size: None,
        prediction_mode: PredictionMode::Average,
        adaptive_prediction: true,
        lossy_quality: q,
        lossy_tuning: Some(LossyTuning {
            noise_adaptive: noise_on,
            ..Default::default()
        }),
        lossy: None,
        input_original_frames: true,
        user_metadata: None,
    };

    let restore_max_err = |enc: &[u8], orig: &[ImageData]| -> i32 {
        let dec = decode_from_bytes(enc).unwrap();
        let first = &dec.frames[0];
        let mut m = 0i32;
        for (i, d) in dec.frames.iter().enumerate() {
            let restored: Vec<i32> = if i == 0 {
                d.pixels.clone()
            } else {
                first
                    .pixels
                    .iter()
                    .zip(d.pixels.iter())
                    .map(|(a, b)| a + b)
                    .collect()
            };
            for (a, b) in orig[i].pixels.iter().zip(restored.iter()) {
                m = m.max((a - b).abs());
            }
        }
        m
    };

    let frames_zero: Vec<ImageData> = (0..3)
        .map(|i| make_frame(0, 0xDEAD_0000 ^ (i as u64 * 0x9999)))
        .collect();

    for noise_on in [false, true] {
        let enc = encode_sequence(&frames_zero, &mk_params(None, noise_on)).unwrap();
        let dec = decode_from_bytes(&enc).unwrap();
        assert_eq!(dec.frames[0].pixels, frames_zero[0].pixels);
    }

    let off = encode_sequence(&frames_zero, &mk_params(Some(75), false)).unwrap();
    let on = encode_sequence(&frames_zero, &mk_params(Some(75), true)).unwrap();
    assert!(on.len() * 100 < off.len() * 96);

    let err_off = restore_max_err(&off, &frames_zero);
    let err_on = restore_max_err(&on, &frames_zero);
    assert!(err_on <= err_off + 8);

    let frames_drift: Vec<ImageData> = (0..3)
        .map(|i| make_frame(i * 8, 0xFEED_0000 ^ (i as u64 * 0x7777)))
        .collect();
    let d_off = encode_sequence(&frames_drift, &mk_params(Some(75), false)).unwrap();
    let d_on = encode_sequence(&frames_drift, &mk_params(Some(75), true)).unwrap();
    assert!(d_on.len() <= d_off.len() * 102 / 100);
}

fn mk_rgb_adaptive_params() -> EncodeParams {
    EncodeParams {
        compression_type: "golomb-rice".to_string(),
        block_size: None,
        prediction_mode: PredictionMode::Average,
        adaptive_prediction: true,
        lossy_quality: None,
        lossy_tuning: None,
        lossy: None,
        input_original_frames: true,
        user_metadata: None,
    }
}

#[test]
fn test_rct_first_frame_bypass_pure_color() {
    let w = 96u16;
    let h = 96u16;

    let px_at = |x: u16, y: u16, sat: i32| -> [i32; 3] {
        let x = x as i32;
        let y = y as i32;
        [
            40 + (x * y * 7 % 180) + sat,
            0,
            (x * 13 + y * 29 % 170) as i32 % 200 + (sat * 2).min(55),
        ]
    };
    let mut f0 = Vec::with_capacity(w as usize * h as usize * 3);
    for y in 0..h {
        for x in 0..w {
            let p = px_at(x, y, 0);
            f0.extend_from_slice(&p);
        }
    }

    let mut f1 = f0.clone();
    for y in (h / 2)..h {
        for x in (w / 2)..w {
            let idx = (y as usize * w as usize + x as usize) * 3;
            let p = px_at(x, y, 60);
            f1[idx] = p[0];
            f1[idx + 1] = p[1];
            f1[idx + 2] = p[2];
        }
    }
    let frames = vec![
        ImageData {
            width: w,
            height: h,
            bit_depth: 8,
            color_format: ColorFormat::Rgb,
            pixels: f0.clone(),
        },
        ImageData {
            width: w,
            height: h,
            bit_depth: 8,
            color_format: ColorFormat::Rgb,
            pixels: f1,
        },
    ];

    let encoded = encode_sequence(&frames, &mk_rgb_adaptive_params()).unwrap();
    let dec = decode_from_bytes(&encoded).unwrap();
    assert!(dec.header.flags.has_rct());
    assert!(dec.header.flags.first_frame_no_rct());

    assert_eq!(dec.frames[0].pixels, frames[0].pixels);

    let restored: Vec<i32> = dec.frames[0]
        .pixels
        .iter()
        .zip(dec.frames[1].pixels.iter())
        .map(|(a, b)| a + b)
        .collect();
    assert_eq!(restored, frames[1].pixels);

    let dec2 = decode_checked(&encoded).unwrap();
    assert_eq!(dec2.frames[0].pixels, frames[0].pixels);
    assert_eq!(dec2.frames[1].pixels, dec.frames[1].pixels);

    let mut tampered = encoded.clone();
    tampered[17] &= !0x08;
    let dec_t = decode_from_bytes(&tampered).unwrap();
    assert_ne!(dec_t.frames[0].pixels, frames[0].pixels);
}

#[test]
fn test_rct_first_frame_natural_keeps_rct() {
    let w = 48u16;
    let h = 32u16;
    let make_gray_rgb = |shift: i32| -> ImageData {
        let mut px = Vec::with_capacity(w as usize * h as usize * 3);
        for y in 0..h {
            for x in 0..w {
                let v = ((x as i32 + y as i32) * 3 + shift) % 256;
                px.push(v);
                px.push(v);
                px.push(v);
            }
        }
        ImageData {
            width: w,
            height: h,
            bit_depth: 8,
            color_format: ColorFormat::Rgb,
            pixels: px,
        }
    };
    let frames = vec![make_gray_rgb(0), make_gray_rgb(40), make_gray_rgb(90)];

    let encoded = encode_sequence(&frames, &mk_rgb_adaptive_params()).unwrap();
    let dec = decode_from_bytes(&encoded).unwrap();
    assert!(!dec.header.flags.first_frame_no_rct());
    assert_eq!(dec.frames[0].pixels, frames[0].pixels);
    for i in 1..frames.len() {
        let restored: Vec<i32> = dec.frames[0]
            .pixels
            .iter()
            .zip(dec.frames[i].pixels.iter())
            .map(|(a, b)| a + b)
            .collect();
        assert_eq!(restored, frames[i].pixels);
    }
}

#[test]
fn test_rct_first_frame_lossy_smoke() {
    let w = 64u16;
    let h = 48u16;
    let mut f0 = vec![0i32; (w as usize) * (h as usize) * 3];
    for px in f0.chunks_exact_mut(3) {
        px[0] = 200;
        px[1] = 0;
        px[2] = 100;
    }
    let frames = vec![
        ImageData {
            width: w,
            height: h,
            bit_depth: 8,
            color_format: ColorFormat::Rgb,
            pixels: f0.clone(),
        },
        ImageData {
            width: w,
            height: h,
            bit_depth: 8,
            color_format: ColorFormat::Rgb,
            pixels: f0,
        },
    ];
    let params = EncodeParams {
        compression_type: "golomb-rice".to_string(),
        block_size: None,
        prediction_mode: PredictionMode::Average,
        adaptive_prediction: true,
        lossy_quality: Some(75),
        lossy_tuning: None,
        lossy: None,
        input_original_frames: true,
        user_metadata: None,
    };
    let encoded = encode_sequence(&frames, &params).unwrap();
    let dec = decode_from_bytes(&encoded).unwrap();

    assert_eq!(dec.frames[0].pixels, frames[0].pixels);
}

#[test]
fn test_rct_first_frame_bypass_path_c() {
    let w = 64u16;
    let h = 48u16;
    let mut f0 = vec![0i32; (w as usize) * (h as usize) * 3];
    for px in f0.chunks_exact_mut(3) {
        px[0] = 220;
        px[1] = 0;
        px[2] = 80;
    }

    let mut r1 = vec![0i32; (w as usize) * (h as usize) * 3];
    for px in r1.chunks_exact_mut(3) {
        px[2] = -30;
    }
    let frames = vec![
        ImageData {
            width: w,
            height: h,
            bit_depth: 8,
            color_format: ColorFormat::Rgb,
            pixels: f0,
        },
        ImageData {
            width: w,
            height: h,
            bit_depth: 8,
            color_format: ColorFormat::Rgb,
            pixels: r1,
        },
    ];
    let params = EncodeParams {
        compression_type: "golomb-rice".to_string(),
        block_size: None,
        prediction_mode: PredictionMode::Average,
        adaptive_prediction: true,
        lossy_quality: None,
        lossy_tuning: None,
        lossy: None,
        input_original_frames: false,
        user_metadata: None,
    };

    let encoded = encode_sequence(&frames, &params).unwrap();
    let dec = decode_from_bytes(&encoded).unwrap();
    assert!(dec.header.flags.has_rct());
    assert!(dec.header.flags.first_frame_no_rct());
    assert_eq!(dec.frames[0].pixels, frames[0].pixels);
}

fn palette_index_baseline_size(indices: &[i32]) -> usize {
    let mut probe = RleGolombEncoder::adaptive(indices);
    probe.encode_signed_array(indices);
    probe.finish().len()
}

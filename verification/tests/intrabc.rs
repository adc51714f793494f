//! Blocks that repeat.

use crf::common::arith::rct_forward;
use crf::common::config::EncodeParams;
use crf::common::domain::{ColorFormat, ImageData, PredictionMode};
use crf::decoder::intrabc::decode_intrabc_payload;
use crf::decoder::rle_golomb::RleGolombDecoder;
use crf::decoder::session::decode_from_bytes;
use crf::encoder::intrabc::encode_intrabc_payload;
use crf::encoder::rle_golomb::encode_frame_rle_golomb_adaptive;
use crf::encoder::sequence::encode_sequence;

fn px_get(buf: &[i32], x: usize, y: usize, w: usize) -> i32 {
    if x >= w || y >= buf.len() / w {
        -9
    } else {
        buf[y * w + x]
    }
}

#[test]
fn test_intrabc_captures_repeated_pattern() {
    let w = 64usize;
    let h = 64usize;
    let mut px = vec![0i32; w * h];

    for y in 0..h {
        for x in 0..w / 2 {
            let v = ((x * 37 + y * 17) % 191) as i32;
            px[y * w + x] = v;
            px[y * w + (w - 1 - x)] = v;
        }
    }
    let payload = encode_intrabc_payload(&px, w, h, 1).unwrap();

    assert!(!payload.is_empty());

    let baseline =
        encode_frame_rle_golomb_adaptive(&px).unwrap();
    assert!(payload.len() + 11 < baseline.0.len());
}

#[test]
fn test_intrabc_noise_falls_back_to_all_pred() {
    let w = 32usize;
    let h = 32usize;
    let px: Vec<i32> = (0..w * h)
        .map(|i| ((i as u64).wrapping_mul(2654435761) % 97) as i32)
        .collect();
    let payload = encode_intrabc_payload(&px, w, h, 1).unwrap();

    let block_count = u32::from_le_bytes([payload[0], payload[1], payload[2], payload[3]]);
    assert_eq!(block_count, 16);
    assert!(payload.len() > 20);
}

#[test]
fn test_intrabc_interleaved_roundtrip() {
    let w = 48usize;
    let h = 32usize;
    let comp = 3usize;
    let mut px = vec![0i32; w * h * comp];
    for y in 0..h {
        for x in 0..w / 2 {
            let base_l = (y * w + x) * comp;
            let base_r = (y * w + (w - 1 - x)) * comp;
            for c in 0..comp {
                let v = ((x * 31 + y * 13 + c * 7) % 200) as i32 - 100;
                px[base_l + c] = v;
                px[base_r + c] = v;
            }
        }
    }
    let payload = encode_intrabc_payload(&px, w, h, comp).unwrap();
    let decoded =
        decode_intrabc_payload(&payload, w, h, comp).unwrap();
    assert_eq!(px, decoded);
}

#[test]
fn debug_minimal_all_pred_roundtrip() {
    let w = 17usize;
    let h = 19usize;
    let px: Vec<i32> = (0..w * h)
        .map(|i| ((i as u64).wrapping_mul(2654435761) % 251) as i32 - 125)
        .collect();
    let payload = encode_intrabc_payload(&px, w, h, 1).unwrap();
    let decoded =
        decode_intrabc_payload(&payload, w, h, 1).unwrap();
    assert_eq!(px, decoded);
}

#[test]
fn test_intrabc_differential_frame_roundtrip() {
    let w = 64usize;
    let h = 64usize;
    let mut px = vec![0i32; w * h * 3];
    for (ox, oy) in [(10usize, 10usize), (40usize, 40usize)] {
        for y in 0..12usize {
            for x in 0..12usize {
                for c in 0..3usize {
                    px[((oy + y) * w + ox + x) * 3 + c] =
                        ((x * 7 + y * 11 + c * 5) % 60) as i32 + 1;
                }
            }
        }
    }
    let payload = encode_intrabc_payload(&px, w, h, 3).unwrap();
    let dec = decode_intrabc_payload(&payload, w, h, 3).unwrap();
    assert_eq!(px, dec);
}

#[test]
fn debug_itbc_diff_frame_e2e() {
    let frames: Vec<ImageData> = (0..3)
        .map(|fi| {
            let pixels: Vec<i32> = (0..64 * 64 * 3)
                .map(|j| {
                    let base = ((j * 31) % 211) as i32 - 105;
                    let delta = (((j * 7 + fi * 13) % 9) as i32) - 4;
                    base + delta
                })
                .collect();
            ImageData {
                width: 64,
                height: 64,
                bit_depth: 8,
                color_format: ColorFormat::Rgb,
                pixels,
            }
        })
        .collect();
    let params = EncodeParams {
        compression_type: "golomb-rice".to_string(),
        block_size: None,
        prediction_mode: PredictionMode::Average,
        adaptive_prediction: true,
        lossy_quality: None,
        lossy_tuning: None,
        lossy: None,
        input_original_frames: true,
        user_metadata: None,
    };
    let data = encode_sequence(&frames, &params).unwrap();

    let diff_rgb = |fi: usize| -> Vec<i32> {
        frames[fi]
            .pixels
            .iter()
            .zip(frames[0].pixels.iter())
            .map(|(a, b)| a - b)
            .collect()
    };

    let ycocg = rct_forward(&diff_rgb(1), 3).unwrap();
    let itbc_payload = encode_intrabc_payload(&ycocg, 64, 64, 3).unwrap();
    let itbc_back = decode_intrabc_payload(&itbc_payload, 64, 64, 3).unwrap();
    assert_eq!(itbc_back, ycocg);

    let dec = decode_from_bytes(&data).unwrap();
    for (fi, d) in dec.frames.iter().enumerate().skip(1) {
        assert_eq!(d.pixels, diff_rgb(fi));
    }
}

#[test]
fn test_intrabc_gray_roundtrip_partial_blocks() {
    let w = 45usize;
    let h = 27usize;
    let mut px = vec![0i32; w * h];
    for y in 0..h {
        for x in 0..w / 2 {
            let v = ((x * 23 + y * 41) % 250) as i32;
            px[y * w + x] = v;
            px[y * w + (w - 1 - x)] = v;
        }
    }
    let payload = encode_intrabc_payload(&px, w, h, 1).unwrap();

    let block_count = u32::from_le_bytes([payload[0], payload[1], payload[2], payload[3]]);
    let k_dec = payload[5];
    let len_dec = u32::from_le_bytes([payload[7], payload[8], payload[9], payload[10]]) as usize;
    let dec_bytes = &payload[11..11 + len_dec];
    let decisions =
        RleGolombDecoder::new(dec_bytes, k_dec).decode_signed_array(block_count as usize);
    assert_eq!(decisions.len(), block_count as usize);
    let decoded = decode_intrabc_payload(&payload, w, h, 1).unwrap();
    for i in 0..px.len() {
        assert_eq!(px[i], decoded[i]);
    }
}

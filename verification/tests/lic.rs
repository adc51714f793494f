//! References adapted to changes of illumination.

use crf::common::config::EncodeParams;
use crf::common::domain::{
    ColorFormat, FrameHeader, ImageData, PredictionMode, FRAME_HEADER_SIZE, HEADER_SIZE,
    LIC_A_NUM_OFFSET, LIC_B_OFFSET,
};
use crf::decoder::session::{decode_from_bytes, DecodeSession};
use crf::encoder::sequence::encode_sequence;
use crf::encoder::streaming::StreamingEncoder;

fn make_shading_frames(count: usize, w: u16, h: u16) -> Vec<ImageData> {
    let golden: Vec<i32> = {
        let mut px = Vec::with_capacity(w as usize * h as usize * 3);
        for y in 0..h {
            for x in 0..w {
                let g: i32 = (x as i32 * 3 + y as i32 * 7) % 180 + 30;
                px.push(g);
                px.push(140 - (y as i32 % 90));
                px.push((x as i32 % 200) + 20);
            }
        }
        px
    };
    (0..count)
        .map(|k| {
            let a_num = 92 + (k as i32 % 7);
            let b = k as i32 * 3;
            let px = golden
                .iter()
                .enumerate()
                .map(|(i, &v)| {
                    let base = ((v * a_num) / 100) + b;

                    if i % 13 == 7 {
                        base + 5
                    } else {
                        base
                    }
                })
                .collect();
            ImageData {
                width: w,
                height: h,
                bit_depth: 8,
                color_format: ColorFormat::Rgb,
                pixels: px,
            }
        })
        .collect()
}

fn mk_params() -> EncodeParams {
    EncodeParams {
        compression_type: "golomb-rice".to_string(),
        block_size: None,
        prediction_mode: PredictionMode::Average,
        adaptive_prediction: true,
        lossy_quality: None,
        lossy_tuning: None,
        lossy: None,
        input_original_frames: true,
        user_metadata: None,
    }
}

fn frame_lic_fields(data: &[u8], frame_count: usize) -> Vec<(u8, u8)> {
    let frames_start = HEADER_SIZE + frame_count * 8;
    let mut out = Vec::new();
    let mut off = frames_start;
    for _ in 0..frame_count {
        let fs = u32::from_le_bytes(data[off..off + 4].try_into().unwrap()) as usize;
        out.push((data[off + LIC_A_NUM_OFFSET], data[off + LIC_B_OFFSET]));
        off += FRAME_HEADER_SIZE + fs;
    }
    out
}

#[test]
fn test_frame_header_lic_roundtrip() {
    let mut h = FrameHeader::with_type(1234, 5678, 3, 2);
    h.pred_mode = 5;
    h.reference_type = 0;
    h.lic_a_num = 96;
    h.lic_b = 40;
    assert!(h.lic_enabled());
    assert_eq!(h.lic_a(), 96);
    assert_eq!(h.lic_b(), 40);

    let mut buf = Vec::new();
    h.write_bytes(&mut buf).unwrap();
    assert_eq!(buf.len(), FRAME_HEADER_SIZE);
    let back = FrameHeader::from_bytes(&buf).unwrap();
    assert_eq!(back.frame_size, 1234);
    assert_eq!(back.pixel_count, 5678);
    assert_eq!(back.frame_type, 2);
    assert_eq!(back.coding_params, 3);
    assert_eq!(back.pred_mode, 5);
    assert_eq!(back.reference_type, 0);
    assert_eq!(back.lic_a_num, 96);
    assert_eq!(back.lic_b, 40);

    h.lic_b = (-24i8) as u8;
    let mut buf2 = Vec::new();
    h.write_bytes(&mut buf2).unwrap();
    let back2 = FrameHeader::from_bytes(&buf2).unwrap();
    assert_eq!(back2.lic_b(), -24);

    let d = FrameHeader::with_type(1, 1, 0, 0);
    assert!(!d.lic_enabled());
    assert_eq!(d.lic_a(), 0);
    assert_eq!(d.lic_b(), 0);
}

#[test]
fn test_lic_shading_sequence_roundtrip() {
    let frames = make_shading_frames(4, 32, 24);
    let encoded = encode_sequence(&frames, &mk_params()).unwrap();
    let dec = decode_from_bytes(&encoded).unwrap();

    let lic_fields = frame_lic_fields(&encoded, frames.len());
    let enabled_diff_frames = lic_fields.iter().skip(1).filter(|(a, _)| *a != 0).count();
    assert!(enabled_diff_frames >= 2);

    assert_eq!(lic_fields[0].0, 0);

    assert_eq!(dec.frame_lic, lic_fields);

    let restored = DecodeSession::restore_temporal(&dec);
    assert_eq!(restored.len(), frames.len());
    for (r, o) in restored.iter().zip(&frames) {
        assert_eq!(r.pixels, o.pixels);
    }
}

#[test]
fn test_lic_batch_streaming_identical() {
    let frames = make_shading_frames(5, 28, 20);
    let params = mk_params();

    let batched = encode_sequence(&frames, &params).unwrap();
    let streaming: Vec<u8> = {
        let mut enc = StreamingEncoder::new(&params).unwrap();
        for f in &frames {
            enc.push_frame(f).unwrap();
        }
        enc.finish().unwrap()
    };
    assert_eq!(streaming.len(), batched.len());
    for i in 0..streaming.len() {
        assert_eq!(streaming[i], batched[i]);
    }
}

#[test]
fn test_lic_no_benefit_content_no_lic_frames() {
    let w = 32u16;
    let h = 24u16;
    let golden: Vec<i32> = {
        let mut px = Vec::with_capacity(w as usize * h as usize * 3);
        for y in 0..h {
            for x in 0..w {
                px.push((x as i32 * 5 + y as i32 * 11) % 256);
                px.push((x as i32 * 7 + y as i32 * 3) % 256);
                px.push((x as i32 * 13 + y as i32 * 17) % 256);
            }
        }
        px
    };
    let frames: Vec<ImageData> = (0..4)
        .map(|k| {
            let mut px = golden.clone();

            for y in 8..16 {
                for x in 8..16 {
                    let p = (y * w as usize + x) * 3;
                    let shift = k * 5;
                    px[p] = (px[p] + 40 + shift) % 256;
                    px[p + 1] = (px[p + 1] + 30 + shift) % 256;
                    px[p + 2] = (px[p + 2] + 20 + shift) % 256;
                }
            }
            ImageData {
                width: w,
                height: h,
                bit_depth: 8,
                color_format: ColorFormat::Rgb,
                pixels: px,
            }
        })
        .collect();
    let encoded = encode_sequence(&frames, &mk_params()).unwrap();
    let lic_fields = frame_lic_fields(&encoded, frames.len());
    assert!(lic_fields.iter().skip(1).all(|(a, _)| *a == 0));

    let dec = decode_from_bytes(&encoded).unwrap();
    let restored = DecodeSession::restore_temporal(&dec);
    for (r, o) in restored.iter().zip(&frames) {
        assert_eq!(r.pixels, o.pixels);
    }
}

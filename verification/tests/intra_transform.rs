//! Predicted and transformed blocks.

use crf::common::domain::{ColorFormat, CompressionType, ImageData};
use crf::decoder::intra_transform::decode_intra_transform;
use crf::encoder::intra_transform::encode_intra_transform_payload;

fn make_frame(w: u16, h: u16, seed: u64) -> ImageData {
    let mut s = seed;
    let mut px = Vec::with_capacity(w as usize * h as usize * 3);
    for y in 0..h {
        for x in 0..w {
            s = s
                .wrapping_mul(6364136223846793005)
                .wrapping_add(1442695040888963407);
            let base = ((x as i32 * 7 + y as i32 * 13) % 200) + 28;
            let n = ((s >> 33) % 13) as i32 - 6;
            px.push((base + n).clamp(0, 255));
            px.push((base * 2 / 3 + 40 + n).clamp(0, 255));
            px.push((200 - base + n).clamp(0, 255));
        }
    }
    ImageData {
        width: w,
        height: h,
        bit_depth: 8,
        color_format: ColorFormat::Rgb,
        pixels: px,
    }
}

#[test]
fn frame_type8_lossless_roundtrip() {
    let img = make_frame(32, 24, 0xDEAD_BEEF_CAFE);
    let payload = encode_intra_transform_payload(
        &img,
        CompressionType::GolombRice,
        1,
        0,
        1,
        0,
    )
    .unwrap();

    let decoded = decode_intra_transform(
        &payload,
        img.width as usize,
        img.height as usize,
        3,
    )
    .unwrap();

    assert_eq!(decoded.len(), img.pixels.len());
    let max_err = decoded
        .iter()
        .zip(&img.pixels)
        .map(|(a, b)| (a - b).unsigned_abs())
        .max()
        .unwrap_or(0);
    assert!(max_err <= 1);
}

#[test]
fn frame_type8_lossy_reconstruction() {
    let img = make_frame(32, 24, 0xBADBEEF);
    let payload = encode_intra_transform_payload(&img, CompressionType::GolombRice, 5, 0, 5, 0)
        .unwrap();

    let decoded = decode_intra_transform(
        &payload,
        img.width as usize,
        img.height as usize,
        3,
    )
    .unwrap();

    let max_err = decoded
        .iter()
        .zip(&img.pixels)
        .map(|(a, b)| (a - b).unsigned_abs())
        .max()
        .unwrap_or(0);

    assert!(max_err < 100);
}

#[test]
fn frame_type8_rct_domain_roundtrip() {
    let w = 32u16;
    let h = 32u16;
    let mut px = Vec::with_capacity(w as usize * h as usize * 3);
    let mut s = 0x1234_5678_9ABC_DEF0u64;
    for _ in 0..(w as usize * h as usize) {
        s = s.wrapping_mul(6364136223846793005).wrapping_add(1442695040888963407);
        let y = ((s >> 33) as i32 % 256) - 128;
        let co = ((s >> 40) as i32 % 512) - 256;
        let cg = ((s >> 48) as i32 % 400) - 200;
        px.push(y);
        px.push(co);
        px.push(cg);
    }
    let img = ImageData {
        width: w,
        height: h,
        bit_depth: 8,
        color_format: ColorFormat::Rgb,
        pixels: px,
    };
    let payload = encode_intra_transform_payload(
        &img,
        CompressionType::GolombRice,
        1,
        0,
        1,
        0,
    )
    .unwrap();
    let decoded = decode_intra_transform(
        &payload,
        w as usize,
        h as usize,
        3,
    )
    .unwrap();
    let max_err = decoded
        .iter()
        .zip(&img.pixels)
        .map(|(a, b)| (a - b).unsigned_abs())
        .max()
        .unwrap_or(0);
    assert_eq!(max_err, 0);
}

#[test]
fn frame_type8_step_signaling_self_contained() {
    let img = make_frame(32, 24, 0x1357_2468);
    let payload = encode_intra_transform_payload(
        &img,
        CompressionType::GolombRice,
        2,
        0,
        3,
        0,
    )
    .unwrap();

    assert_eq!(payload[0] & 0b110, 0b110);
    assert_eq!(payload[1], 2);
    assert_eq!(payload[2], 3);

    let decoded = decode_intra_transform(
        &payload,
        img.width as usize,
        img.height as usize,
        3,
    )
    .unwrap();

    let max_err = decoded
        .iter()
        .zip(&img.pixels)
        .map(|(a, b)| (a - b).unsigned_abs())
        .max()
        .unwrap_or(0);
    assert!(max_err < 100);
}

#[test]
fn frame_type8_luma_chroma_equal_steps() {
    let img = make_frame(32, 24, 0x9753_1086);
    let payload = encode_intra_transform_payload(
        &img,
        CompressionType::GolombRice,
        4,
        0,
        4,
        0,
    )
    .unwrap();

    assert_eq!(payload[0] & 0b110, 0b110);
    assert_eq!(payload[1], 4);
    assert_eq!(payload[2], 4);

    let decoded = decode_intra_transform(
        &payload,
        img.width as usize,
        img.height as usize,
        3,
    )
    .unwrap();
    let max_err = decoded
        .iter()
        .zip(&img.pixels)
        .map(|(a, b)| (a - b).unsigned_abs())
        .max()
        .unwrap_or(0);
    assert!(max_err < 100);
}

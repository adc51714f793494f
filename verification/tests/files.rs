//! Files written and read.

use crf::common::config::EncodeParams;
use crf::common::crc::crc32;
use crf::common::domain::{
    ColorFormat, CompressionType, CrfHeader, ImageData, PredictionMode, HEADER_SIZE,
};
use crf::decoder::reconstruct::reconstruct_frame;
use crf::decoder::session::{decode_from_bytes, DecodeSession};
use crf::encoder::dct_path::dct_quantize_interleaved;
use crf::encoder::frame::assemble_frame;
use crf::encoder::intra_transform::encode_intra_transform_payload;
use crf::encoder::rle_cabac::encode_frame_rle_cabac_adaptive;
use crf::encoder::sequence::encode_sequence;

const FOOTER_MAGIC: [u8; 4] = [0x43, 0x52, 0x46, 0x45];

fn create_test_frames(count: usize, width: u16, height: u16) -> Vec<ImageData> {
    (0..count)
        .map(|i| {
            let pixels: Vec<i32> = (0..(width as usize * height as usize))
                .map(|j| ((i * 10 + j) % 256) as i32 - 128)
                .collect();
            ImageData {
                width,
                height,
                bit_depth: 8,
                color_format: ColorFormat::Gray,
                pixels,
            }
        })
        .collect()
}

#[test]
fn test_decode_golomb_roundtrip() {
    let frames = create_test_frames(3, 8, 8);
    let params = EncodeParams {
        compression_type: "golomb-rice".to_string(),
        block_size: None,
        prediction_mode: PredictionMode::Off,
        adaptive_prediction: false,
        lossy_quality: None,
        lossy_tuning: None,
        lossy: None,
        input_original_frames: false,
        user_metadata: None,
    };

    let encoded = encode_sequence(&frames, &params).unwrap();
    let result = decode_from_bytes(&encoded).unwrap();

    assert_eq!(result.frames.len(), frames.len());
    for (original, decoded) in frames.iter().zip(result.frames.iter()) {
        assert_eq!(original.pixels, decoded.pixels);
    }
}

#[test]
fn test_decode_exp_golomb_roundtrip() {
    let frames = create_test_frames(3, 8, 8);
    let params = EncodeParams {
        compression_type: "exp-golomb".to_string(),
        block_size: None,
        prediction_mode: PredictionMode::Off,
        adaptive_prediction: false,
        lossy_quality: None,
        lossy_tuning: None,
        lossy: None,
        input_original_frames: false,
        user_metadata: None,
    };

    let encoded = encode_sequence(&frames, &params).unwrap();
    let result = decode_from_bytes(&encoded).unwrap();

    assert_eq!(result.frames.len(), frames.len());
    for (original, decoded) in frames.iter().zip(result.frames.iter()) {
        assert_eq!(original.pixels, decoded.pixels);
    }
}

#[test]
fn test_lossy_dct_frame6_symmetry() {

    let w = 32usize;
    let h = 32usize;

    let mut px = Vec::with_capacity(w * h * 3);
    for y in 0..h {
        for x in 0..w {
            px.push(((x * 4 + y * 2) % 256) as i32);
            px.push(80i32 - x as i32);
            px.push(y as i32 - 60);
        }
    }

    let q_step = 5u8;
    let quant = dct_quantize_interleaved(&px, w, h, 3, q_step);

    let (payload, k) =
        encode_frame_rle_cabac_adaptive(&quant, None).unwrap();
    let mut full_payload = Vec::with_capacity(payload.len() + 1);
    full_payload.push(k);
    full_payload.extend_from_slice(&payload);
    let frame_buf = assemble_frame(
        &full_payload,
        &ImageData {
            width: w as u16,
            height: h as u16,
            bit_depth: 8,
            color_format: ColorFormat::Rgb,
            pixels: px.clone(),
        },
        k,
        6,
    )
    .unwrap();

    let mut header = CrfHeader::new(
        2,
        w as u16,
        h as u16,
        8,
        ColorFormat::Rgb,
        CompressionType::GolombRice,
    );
    header.prediction_mode = PredictionMode::Average;

    let decoded = reconstruct_frame(&frame_buf, &header).unwrap();
    assert_eq!(decoded.pixels.len(), px.len());

    let mut max_err: i32 = 0;
    let mut sq_sum = 0.0f64;
    for (a, b) in px.iter().zip(decoded.pixels.iter()) {
        let d = (a - b).abs();
        max_err = max_err.max(d);
        sq_sum += (d * d) as f64;
    }
    let mse = sq_sum / px.len() as f64;
    let psnr = if mse > 0.0 {
        10.0 * (255.0f64 * 255.0 / mse).log10()
    } else {
        f64::INFINITY
    };
    assert!(psnr > 30.0 && max_err <= 16);
}

#[test]
fn test_lossy_golden_sequence_roundtrip() {
    let w = 16u16;
    let h = 16u16;

    let make_frame = |shift: i32| -> ImageData {
        let mut px = Vec::with_capacity(w as usize * h as usize * 3);
        for y in 0..h {
            for x in 0..w {
                px.push(((x as i32 + shift * 3) % 200) + 40);
                px.push(120 - ((y as i32 + shift) % 80));
                px.push(((x as i32 * 2 + y as i32 + shift * 5) % 180) + 30);
            }
        }
        ImageData {
            width: w,
            height: h,
            bit_depth: 8,
            color_format: ColorFormat::Rgb,
            pixels: px,
        }
    };
    let frames: Vec<ImageData> = (0..4).map(make_frame).collect();

    let params = EncodeParams {
        compression_type: "golomb-rice".to_string(),
        block_size: None,
        prediction_mode: PredictionMode::Average,
        adaptive_prediction: true,
        lossy_quality: None,
        lossy_tuning: None,
        lossy: None,
        input_original_frames: true,
        user_metadata: None,
    };

    let encoded = encode_sequence(&frames, &params).unwrap();
    let result = decode_from_bytes(&encoded).unwrap();
    assert_eq!(result.frames.len(), frames.len());

    let restored_all = DecodeSession::restore_temporal(&result);
    let mut max_err_all: i32 = 0;
    for (i, (orig, restored)) in frames.iter().zip(restored_all.iter()).enumerate() {
        if i == 0 {
            assert_eq!(orig.pixels, restored.pixels);
        } else {
            let frame_max = orig
                .pixels
                .iter()
                .zip(restored.pixels.iter())
                .map(|(a, b)| (a - b).abs())
                .max()
                .unwrap_or(0);
            max_err_all = max_err_all.max(frame_max);
        }
    }
    assert!(max_err_all <= 24);
}

#[test]
fn test_lossy_frame_type8_file_roundtrip() {

    let w = 32u16;
    let h = 24u16;
    let make_img = |shift: i32| -> ImageData {
        let mut px = Vec::with_capacity(w as usize * h as usize * 3);
        for y in 0..h {
            for x in 0..w {
                px.push((((x as i32 * 5 + y as i32 * 3 + shift) % 200) + 28) as i32);
                px.push(((x as i32 * 7 - y as i32 * 2 + shift).rem_euclid(180) + 40) as i32);
                px.push(((x as i32 * 3 + y as i32 * 11) % 220 + 20) as i32);
            }
        }
        ImageData {
            width: w,
            height: h,
            bit_depth: 8,
            color_format: ColorFormat::Rgb,
            pixels: px,
        }
    };
    let img0 = make_img(0);
    let img1 = make_img(17);

    let frame0_payload =
        encode_intra_transform_payload(&img0, CompressionType::GolombRice, 1, 0, 1, 0)
            .unwrap();
    let frame0_buf = assemble_frame(&frame0_payload, &img0, 0, 8).unwrap();

    let diff: Vec<i32> = img1
        .pixels
        .iter()
        .zip(&img0.pixels)
        .map(|(a, b)| a - b)
        .collect();
    let diff_img = ImageData {
        width: w,
        height: h,
        bit_depth: 8,
        color_format: ColorFormat::Rgb,
        pixels: diff,
    };
    let frame1_payload =
        encode_intra_transform_payload(&diff_img, CompressionType::GolombRice, 2, 0, 3, 0)
            .unwrap();
    let frame1_buf = assemble_frame(&frame1_payload, &diff_img, 0, 8).unwrap();

    let mut header = CrfHeader::new(2, w, h, 8, ColorFormat::Rgb, CompressionType::GolombRice);
    header.flags.has_index = true;
    header.flags.has_rct = false;
    header.lossy_quant = 2;

    let frames_start = HEADER_SIZE + 2 * 8;
    let mut out = Vec::new();
    header.write_bytes(&mut out).unwrap();
    out.extend_from_slice(&(frames_start as u32).to_le_bytes());
    out.extend_from_slice(&(frame0_buf.len() as u32).to_le_bytes());
    out.extend_from_slice(&((frames_start + frame0_buf.len()) as u32).to_le_bytes());
    out.extend_from_slice(&(frame1_buf.len() as u32).to_le_bytes());
    out.extend_from_slice(&frame0_buf);
    out.extend_from_slice(&frame1_buf);
    let crc = crc32(&out);
    out.extend_from_slice(&crc.to_le_bytes());
    out.extend_from_slice(&FOOTER_MAGIC);

    let result = decode_from_bytes(&out).unwrap();
    assert_eq!(result.frames.len(), 2);
    let restored = DecodeSession::restore_temporal(&result);

    assert_eq!(restored[0].pixels, img0.pixels);

    let max_err = restored[1]
        .pixels
        .iter()
        .zip(&img1.pixels)
        .map(|(a, b)| (a - b).unsigned_abs())
        .max()
        .unwrap_or(0);
    assert!(max_err < 100);

    assert_eq!(frame1_payload[0] & 0b110, 0b110);
    assert_eq!(frame1_payload[1], 2);
    assert_eq!(frame1_payload[2], 3);
}

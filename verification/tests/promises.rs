//! What the library promises as a whole, on examples.

use std::cell::RefCell;

use crf::common::arith::{add_i32, apply_lic_weighted, rct_forward, rct_inverse, sub_i32};
use crf::common::config::{
    resolve_setup, EncodeParams, LossyOptionsV2, RateOptions, ReferenceModeV2, Setup, Switches,
};
use crf::common::domain::{
    ColorFormat, CompressionType, CrfHeader, FrameHeader, ImageData, PredictionMode,
    FRAME_HEADER_SIZE, HEADER_SIZE,
};
use crf::common::error::{CrfError, CrfResult};
use crf::common::plane::{dct_plane_forward_bs, dct_plane_inverse_bs};
use crf::common::predict::{apply_prediction, undo_prediction};
use crf::common::zigzag::{zigzag_inverse, zigzag_scan};
use crf::decoder::footer::verify_crc;
use crf::decoder::intrabc::decode_intrabc_payload;
use crf::decoder::palette::decode_palette_payload;
use crf::decoder::reconstruct::{decode_planar, Setting};
use crf::decoder::session::{decode_checked, decode_from_bytes, DecodeSession};
use crf::encoder::adaptive::encode_frame_adaptive;
use crf::encoder::banded::encode_banded_payload;
use crf::encoder::frame::{assemble_frame, encode_frame, FrameQuant};
use crf::encoder::intrabc::encode_intrabc_payload;
use crf::encoder::palette::encode_palette_payload;
use crf::encoder::planar::encode_planar_payload;
use crf::encoder::rle_cabac::{
    encode_frame_rle_cabac_adaptive, encode_frame_rle_cabac_adaptive_limited,
};
use crf::encoder::rle_golomb::{best_k_by_histogram, encode_frame_rle_golomb};
use crf::encoder::sequence::{encode_sequence, encode_sequence_resolved, encode_sequence_with};
use crf::encoder::sequence_batched::{encode_sequence_batched, BatchBudget};
use crf::encoder::session::EncodeSession;
use crf::encoder::streaming::StreamingEncoder;

fn scene(seed: i32, width: u16, height: u16) -> ImageData {
    let mut pixels = Vec::new();
    for y in 0..height as i32 {
        for x in 0..width as i32 {
            pixels.push((x * 7 + y * 3 + seed * 5) % 256);
            pixels.push((x * x + y * 11 + seed) % 256);
            pixels.push(if (x / 4 + y / 4) % 2 == 0 { 20 + seed } else { 200 });
        }
    }
    ImageData {
        width,
        height,
        bit_depth: 8,
        color_format: ColorFormat::Rgb,
        pixels,
    }
}

fn params(kind: &str) -> EncodeParams {
    EncodeParams {
        compression_type: kind.to_string(),
        block_size: None,
        prediction_mode: PredictionMode::Med,
        adaptive_prediction: true,
        lossy_quality: None,
        lossy_tuning: None,
        lossy: None,
        input_original_frames: true,
        user_metadata: None,
    }
}

fn lossy(quality_x100: u16, mode: ReferenceModeV2) -> EncodeParams {
    EncodeParams {
        lossy: Some(
            LossyOptionsV2::builder_preset(quality_x100)
                .reference_mode(mode)
                .build()
                .unwrap(),
        ),
        ..params("golomb-rice")
    }
}

fn setup(p: &EncodeParams) -> Setup {
    resolve_setup(p, Switches::all()).unwrap()
}

fn restored(data: &[u8]) -> Vec<Vec<i32>> {
    let decoded = decode_checked(data).unwrap();
    DecodeSession::restore_temporal(&decoded)
        .into_iter()
        .map(|f| f.pixels)
        .collect()
}

fn streamed_out(data: &[u8]) -> Vec<Vec<i32>> {
    let out: RefCell<Vec<Vec<i32>>> = RefCell::new(Vec::new());
    DecodeSession::decode_bytes_streaming(data, |i: usize, f: &ImageData| {
        assert_eq!(i, out.borrow().len());
        out.borrow_mut().push(f.pixels.clone());
        Ok(())
    })
    .unwrap();
    out.into_inner()
}

#[test]
fn sequences_come_back_exactly_with_each_kind_of_code() {
    let frames: Vec<ImageData> = (0..4).map(|i| scene(i, 19, 13)).collect();
    for kind in ["golomb", "golomb-rice", "exp-golomb", "exp_golomb", "egc", "transform", "dct"] {
        for adaptive_prediction in [true, false] {
            let p = EncodeParams {
                adaptive_prediction,
                ..params(kind)
            };
            let data = encode_sequence(&frames, &p).unwrap();
            let back = restored(&data);
            assert_eq!(back.len(), 4);
            for (a, b) in frames.iter().zip(back.iter()) {
                assert_eq!(&a.pixels, b, "{}", kind);
            }
        }
    }
}

#[test]
fn sequences_come_back_exactly_in_each_colour_format() {
    for (format, count) in [
        (ColorFormat::Gray, 1usize),
        (ColorFormat::Rgb, 3),
        (ColorFormat::Rgba, 4),
    ] {
        let frames: Vec<ImageData> = (0..3)
            .map(|k: i32| ImageData {
                width: 9,
                height: 33,
                bit_depth: 16,
                color_format: format,
                pixels: (0..9 * 33 * count)
                    .map(|j| ((j as i32 * 7919 + k * 131) % 65536) - if k == 1 { 30000 } else { 0 })
                    .collect(),
            })
            .collect();
        let data = encode_sequence(&frames, &params("golomb")).unwrap();
        let back = restored(&data);
        for (a, b) in frames.iter().zip(back.iter()) {
            assert_eq!(&a.pixels, b);
        }
    }
}

#[test]
fn a_frame_and_differences_come_back_as_they_are() {
    let first = scene(0, 16, 8);
    let second = scene(3, 16, 8);
    let change = ImageData {
        pixels: sub_i32(&second.pixels, &first.pixels),
        ..second.clone()
    };
    let p = EncodeParams {
        input_original_frames: false,
        ..params("golomb")
    };
    let data = encode_sequence(&[first.clone(), change.clone()], &p).unwrap();
    let decoded = decode_from_bytes(&data).unwrap();
    assert_eq!(decoded.frames[0].pixels, first.pixels);
    assert_eq!(decoded.frames[1].pixels, change.pixels);
    assert_eq!(
        add_i32(&decoded.frames[0].pixels, &decoded.frames[1].pixels),
        second.pixels
    );
}

#[test]
fn pushing_frames_gives_the_file_of_all_of_them() {
    let frames: Vec<ImageData> = (0..5).map(|i| scene(i * 2, 24, 17)).collect();
    for p in [
        params("golomb"),
        lossy(9500, ReferenceModeV2::Hybrid),
        lossy(9000, ReferenceModeV2::Golden),
        lossy(8000, ReferenceModeV2::Previous),
    ] {
        let together = encode_sequence(&frames, &p).unwrap();
        let mut e = StreamingEncoder::new(&p).unwrap();
        for f in &frames {
            e.push_frame(f).unwrap();
        }
        assert_eq!(e.finish().unwrap(), together);
        assert_eq!(EncodeSession::encode_sequence(&frames, &p).unwrap(), together);
        assert_eq!(
            encode_sequence_resolved(&frames, &setup(&p), true).unwrap(),
            together
        );
    }
}

#[test]
fn batches_give_one_file_whatever_their_size() {
    let frames: Vec<ImageData> = (0..7).map(|i| scene(i, 12, 12)).collect();
    let p = lossy(9200, ReferenceModeV2::Golden);
    let together = encode_sequence(&frames, &p).unwrap();
    let asked: RefCell<Vec<usize>> = RefCell::new(Vec::new());
    for wanted in [Some(1), Some(3), Some(100), None] {
        let budget = BatchBudget {
            mem_limit: 1 << 30,
            frames: wanted,
            cores: 4,
        };
        asked.borrow_mut().clear();
        let load = |i: usize| -> CrfResult<ImageData> {
            asked.borrow_mut().push(i);
            Ok(frames[i].clone())
        };
        let data = encode_sequence_batched(7, load, &setup(&p), budget).unwrap();
        assert_eq!(data, together);
        assert_eq!(*asked.borrow(), vec![0, 1, 2, 3, 4, 5, 6]);
    }
}

#[test]
fn a_load_that_fails_is_told_with_its_own_error() {
    let frames: Vec<ImageData> = (0..5).map(|i| scene(i, 12, 10)).collect();
    for bad in 0..5 {
        for batch in [1, 2, 4] {
            let budget = BatchBudget { mem_limit: 1 << 30, frames: Some(batch), cores: 4 };
            let load = |i: usize| -> CrfResult<ImageData> {
                if i == bad {
                    Err(CrfError::FrameCountOutOfRange(1000 + i as u16))
                } else {
                    Ok(frames[i].clone())
                }
            };
            let r = encode_sequence_batched(5, load, &setup(&params("golomb")), budget);
            assert!(matches!(r, Err(CrfError::FrameCountOutOfRange(n)) if n == 1000 + bad as u16));
        }
    }
}

#[test]
fn a_loaded_frame_of_another_size_is_told() {
    let budget = BatchBudget { mem_limit: 1 << 30, frames: Some(2), cores: 2 };
    let load = |i: usize| -> CrfResult<ImageData> {
        Ok(if i == 3 { scene(i as i32, 10, 12) } else { scene(i as i32, 12, 10) })
    };
    let r = encode_sequence_batched(5, load, &setup(&params("golomb")), budget);
    assert!(matches!(
        r,
        Err(CrfError::ImageDimensionsMismatch { expected: (12, 10), actual: (10, 12) })
    ));
    let none = |_i: usize| -> CrfResult<ImageData> { Ok(scene(0, 12, 10)) };
    let r = encode_sequence_batched(1, none, &setup(&params("golomb")), budget);
    assert!(matches!(r, Err(CrfError::FrameCountOutOfRange(1))));
}

#[test]
fn frames_are_handed_out_with_their_size_until_one_is_refused() {
    let frames: Vec<ImageData> = (0..5).map(|i| scene(i, 11, 9)).collect();
    let data = encode_sequence(&frames, &params("golomb")).unwrap();
    for last in 0..5 {
        let seen: RefCell<Vec<usize>> = RefCell::new(Vec::new());
        let r = DecodeSession::decode_bytes_streaming(&data, |i: usize, f: &ImageData| {
            assert_eq!((f.width, f.height, f.bit_depth), (11, 9, 8));
            assert!(matches!(f.color_format, ColorFormat::Rgb));
            assert_eq!(f.pixels, frames[i].pixels);
            seen.borrow_mut().push(i);
            if i == last {
                Err(CrfError::FrameCountOutOfRange(77))
            } else {
                Ok(())
            }
        });
        assert!(matches!(r, Err(CrfError::FrameCountOutOfRange(77))));
        assert_eq!(*seen.borrow(), (0..=last).collect::<Vec<usize>>());
    }
    let seen: RefCell<usize> = RefCell::new(0);
    let cut = &data[..data.len() - 40];
    let r = DecodeSession::decode_bytes_streaming(cut, |_i: usize, _f: &ImageData| {
        *seen.borrow_mut() += 1;
        Ok(())
    });
    assert!(r.is_err());
    assert!(*seen.borrow() < 5);
}

#[test]
fn no_parameter_codes_runs_shorter() {
    for seed in 1..20i32 {
        let px: Vec<i32> = (0..90)
            .map(|i| if (i / 5 + seed) % 3 == 0 { 0 } else { (i * i * seed) % (4 * seed) - 2 * seed })
            .collect();
        let k = best_k_by_histogram(&px);
        let (best, _k) = encode_frame_rle_golomb(&px, k).unwrap();
        for j in 0..7 {
            let (other, _j) = encode_frame_rle_golomb(&px, j).unwrap();
            assert!(best.len() <= other.len(), "{} {}", seed, j);
        }
    }
}

#[test]
fn the_frame_that_wins_is_no_longer_than_bands_or_planes() {
    for seed in 0..4 {
        let image = scene(seed, 40, 36);
        let fq = FrameQuant::lossless();
        let ct = CompressionType::GolombRice;
        let won = encode_frame_adaptive(&image, ct, 8, true, fq, None, None).unwrap();
        let bands = encode_banded_payload(&image, 32).unwrap();
        let framed = assemble_frame(&bands, &image, 32, 2).unwrap();
        assert!(won.data.len() <= framed.len());
        let planes = encode_planar_payload(&image, ct, 8, fq, None).unwrap();
        let framed = assemble_frame(&planes, &image, 0, 3).unwrap();
        assert!(won.data.len() <= framed.len());
    }
}

#[test]
fn planes_come_back() {
    for seed in 0..4 {
        let mut image = scene(seed, 23, 17);
        for (i, v) in image.pixels.iter_mut().enumerate() {
            *v = (*v - 100) * (1 + i as i32 % 3) * 97;
        }
        let ct = CompressionType::GolombRice;
        let planes = encode_planar_payload(&image, ct, 8, FrameQuant::lossless(), None).unwrap();
        let x = Setting {
            ct,
            width: 23,
            height: 17,
            components: 3,
            mode: PredictionMode::Med,
        };
        assert_eq!(decode_planar(&planes, x).unwrap(), image.pixels);
    }
}

#[test]
fn the_first_byte_tells_the_context_model() {
    for seed in 1..12i32 {
        let px: Vec<i32> = (0..200).map(|i| (i * seed) % (3 * seed) - seed).collect();
        let (plain, _k) = encode_frame_rle_cabac_adaptive(&px, None).unwrap();
        assert_eq!(plain[0], 0);
        let (rows, k) = encode_frame_rle_cabac_adaptive(&px, Some(20)).unwrap();
        assert!(rows[0] <= 2);
        let n = rows.len();
        let at = encode_frame_rle_cabac_adaptive_limited(&px, Some(20), n).unwrap();
        assert!(at.is_none());
        let above = encode_frame_rle_cabac_adaptive_limited(&px, Some(20), n + 1).unwrap();
        assert_eq!(above, Some((rows, k)));
    }
}

#[test]
fn decoding_one_by_one_gives_what_decoding_all_gives() {
    let frames: Vec<ImageData> = (0..6).map(|i| scene(i * 3, 20, 14)).collect();
    for p in [
        params("golomb"),
        lossy(9500, ReferenceModeV2::Hybrid),
        lossy(7000, ReferenceModeV2::Previous),
    ] {
        let data = encode_sequence(&frames, &p).unwrap();
        assert_eq!(streamed_out(&data), restored(&data));
    }
}

#[test]
fn errors_do_not_add_up_along_the_sequence() {
    let frames: Vec<ImageData> = (0..9).map(|i| scene(i, 16, 16)).collect();
    let worst = |p: &EncodeParams| -> Vec<i32> {
        let data = encode_sequence(&frames, p).unwrap();
        restored(&data)
            .iter()
            .zip(frames.iter())
            .map(|(a, b)| {
                a.iter()
                    .zip(b.pixels.iter())
                    .map(|(x, y)| (x - y).abs())
                    .max()
                    .unwrap()
            })
            .collect()
    };
    let p = lossy(9000, ReferenceModeV2::Golden);
    let full = EncodeParams {
        lossy: Some(LossyOptionsV2 {
            chroma_half_res: false,
            ..p.lossy.unwrap()
        }),
        ..p
    };
    let errors = worst(&full);
    assert!(errors.iter().all(|e| *e <= 12), "{:?}", errors);
    assert_eq!(worst(&params("golomb")), vec![0; 9]);
}

#[test]
fn a_file_passes_its_own_checksum_and_no_other() {
    let frames: Vec<ImageData> = (0..2).map(|i| scene(i, 8, 8)).collect();
    let mut data = encode_sequence(&frames, &params("golomb")).unwrap();
    assert!(verify_crc(&data).is_ok());
    let at = HEADER_SIZE + 16 + FRAME_HEADER_SIZE + 1;
    data[at] ^= 0x10;
    match verify_crc(&data) {
        Err(CrfError::CrcChecksumFailed { expected, actual }) => assert_ne!(expected, actual),
        other => panic!("{:?}", other),
    }
    assert!(matches!(
        decode_checked(&data),
        Err(CrfError::CrcChecksumFailed { .. })
    ));
}

#[test]
fn headers_read_back() {
    let mut h = CrfHeader::new(7, 320, 200, 10, ColorFormat::Rgb, CompressionType::ExpGolomb);
    h.flags.has_index = true;
    h.flags.first_frame_no_rct = true;
    h.block_size = 0x1234;
    h.prediction_mode = PredictionMode::Paeth;
    h.lossy_quant = 9;
    let mut bytes = vec![];
    h.write_bytes(&mut bytes).unwrap();
    assert_eq!(bytes.len(), HEADER_SIZE);
    assert_eq!(&bytes[0..4], &[0x43, 0x52, 0x46, 0x00]);
    assert_eq!(&bytes[8..14], &[7, 0, 0x40, 0x01, 200, 0]);
    assert_eq!(bytes[14], 10);
    assert_eq!(&bytes[18..20], &[0x34, 0x12]);
    assert_eq!(bytes[21], 9);
    let back = CrfHeader::from_bytes(&bytes).unwrap();
    assert_eq!(format!("{:?}", back), format!("{:?}", h));

    let f = FrameHeader::with_type(77, 1234, 5, 3);
    let mut bytes = vec![];
    f.write_bytes(&mut bytes).unwrap();
    assert_eq!(bytes.len(), FRAME_HEADER_SIZE);
    assert_eq!(&bytes[0..10], &[77, 0, 0, 0, 0xd2, 0x04, 0, 0, 3, 5]);
    let back = FrameHeader::from_bytes(&bytes).unwrap();
    assert_eq!(format!("{:?}", back), format!("{:?}", f));
}

#[test]
fn arithmetic_comes_back_at_the_extremes() {
    let a = vec![i32::MIN, i32::MAX, 0, -1, 5, 77];
    let b = vec![i32::MAX, i32::MIN, i32::MIN, 1, -5, 12];
    assert_eq!(add_i32(&b, &sub_i32(&a, &b)), a);
    let mixed = rct_forward(&a, 3).unwrap();
    assert_eq!(rct_inverse(&mixed, 3).unwrap(), a);
    for mode in [
        PredictionMode::Off,
        PredictionMode::Horizontal,
        PredictionMode::Vertical,
        PredictionMode::Average,
        PredictionMode::DC,
        PredictionMode::Med,
        PredictionMode::Paeth,
        PredictionMode::TopRight,
        PredictionMode::Diagonal,
    ] {
        let res = apply_prediction(&a, 3, 1, mode);
        assert_eq!(undo_prediction(&res, 3, 1, mode), a);
    }
    let px: Vec<i32> = (0..70).map(|i| i * i - 900).collect();
    let t = dct_plane_forward_bs(&px, 10, 7, 8, 4);
    assert_ne!(t, px);
    assert_eq!(dct_plane_inverse_bs(&t, 10, 7, 8, 4), px);
    let block: Vec<i32> = (0..16).collect();
    let z = zigzag_scan(&block, 4);
    assert_eq!(z, vec![0, 1, 4, 8, 5, 2, 3, 6, 9, 12, 13, 10, 7, 11, 14, 15]);
    assert_eq!(zigzag_inverse(&z, 4), block);
}

#[test]
fn few_colours_and_repeated_blocks_come_back() {
    let px: Vec<i32> = (0..300).map(|i| [5, -7, 900, 12][(i / 3) % 4]).collect();
    let body = encode_palette_payload(&px, 20).unwrap();
    assert_eq!(decode_palette_payload(&body, 300, 1, 20).unwrap(), px);
    let many: Vec<i32> = (0..5000).collect();
    assert!(encode_palette_payload(&many, 50).is_none());

    let tiled: Vec<i32> = (0..32 * 32 * 3)
        .map(|i| ((i / 3 % 8) * 17 + (i / 96 % 8) * 5 + i % 3) as i32)
        .collect();
    let body = encode_intrabc_payload(&tiled, 32, 32, 3).unwrap();
    assert!(body.len() < tiled.len() / 4);
    assert_eq!(decode_intrabc_payload(&body, 32, 32, 3).unwrap(), tiled);
}

#[test]
fn the_winner_is_no_longer_than_any_plain_frame_of_the_leading_modes() {
    let image = scene(4, 24, 24);
    let fq = FrameQuant::lossless();
    let best =
        encode_frame_adaptive(&image, CompressionType::GolombRice, 8, true, fq, None, None)
            .unwrap();
    let shortest = [
        PredictionMode::Horizontal,
        PredictionMode::Vertical,
        PredictionMode::Med,
        PredictionMode::Paeth,
    ]
    .iter()
    .map(|m| {
        encode_frame(&image, CompressionType::GolombRice, 8, *m, true, fq, None)
            .unwrap()
            .len()
    })
    .max()
    .unwrap();
    assert!(best.data.len() <= shortest);
}

#[test]
fn switches_leave_ways_of_coding_out() {
    let first = ImageData {
        width: 64,
        height: 48,
        bit_depth: 8,
        color_format: ColorFormat::Gray,
        pixels: (0..64 * 48).map(|i: i32| 60 + (i * 37 % 91)).collect(),
    };
    let brighter = ImageData {
        pixels: first.pixels.iter().map(|v| v * 115 / 100 + 9).collect(),
        ..first.clone()
    };
    let frames = [first, brighter];
    let with = encode_sequence_with(&frames, &params("golomb"), Switches::all()).unwrap();
    let without = encode_sequence_with(
        &frames,
        &params("golomb"),
        Switches {
            lic: false,
            copies: false,
        },
    )
    .unwrap();
    assert!(with.len() < without.len());
    for data in [&with, &without] {
        let back = restored(data);
        assert_eq!(back[0], frames[0].pixels);
        assert_eq!(back[1], frames[1].pixels);
    }
    assert_eq!(decode_from_bytes(&with).unwrap().frame_lic[1], (115, 9));
    assert_eq!(decode_from_bytes(&without).unwrap().frame_lic[1], (0, 0));
}

#[test]
fn illumination_is_a_factor_in_hundredths_and_an_offset() {
    let px = vec![0, 10, 100, 255];
    assert_eq!(apply_lic_weighted(&px, 0, 9), px);
    assert_eq!(apply_lic_weighted(&px, 100, 0), px);
    assert_eq!(apply_lic_weighted(&px, 150, 4), vec![4, 19, 154, 386]);
    assert_eq!(apply_lic_weighted(&px, 100, 0xff), vec![-1, 9, 99, 254]);
}

#[test]
fn rates_are_kept_or_refused() {
    let frames: Vec<ImageData> = (0..3).map(|i| scene(i, 16, 16)).collect();
    let p = lossy(9000, ReferenceModeV2::Golden);
    let data = encode_sequence(&frames, &p).unwrap();
    let with = |rate: RateOptions| EncodeParams {
        lossy: Some(LossyOptionsV2 {
            rate,
            ..p.lossy.unwrap()
        }),
        ..p.clone()
    };
    let size = data.len() as u64;
    let exact = with(RateOptions {
        max_bytes: Some(size),
        target_bytes: None,
    });
    assert_eq!(encode_sequence(&frames, &exact).unwrap(), data);
    let below = with(RateOptions {
        max_bytes: Some(size - 1),
        target_bytes: None,
    });
    assert!(matches!(
        encode_sequence(&frames, &below),
        Err(CrfError::InvalidCodingParams(_))
    ));
    let near = with(RateOptions {
        max_bytes: None,
        target_bytes: Some(size),
    });
    assert_eq!(encode_sequence(&frames, &near).unwrap(), data);
    let far = with(RateOptions {
        max_bytes: None,
        target_bytes: Some(size / 2),
    });
    assert!(matches!(
        encode_sequence(&frames, &far),
        Err(CrfError::InvalidCodingParams(_))
    ));
}

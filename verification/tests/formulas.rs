//! Formulas and errors on chosen values.

use crf::common::choose_k::{adaptive_k, best_k_exec, floor_log2};
use crf::common::codes::{zigzag_decode, zigzag_encode};
use crf::common::config::{
    parse_compression_type, resolve_setup, step_of_quality_exec, EncodeParams, KernelLossyConfig,
    LossyOptionsV2, ReferenceModeV2, Switches,
};
use crf::common::crc::crc32;
use crf::common::dct::{perceptual_qm, step_for_exec};
use crf::common::domain::{
    ColorFormat, CompressionType, CrfHeader, ImageData, PredictionMode, HEADER_SIZE,
};
use crf::common::error::CrfError;
use crf::common::lic::search_lic;
use crf::common::noise::{
    estimate_band_activity_steps, estimate_band_quant_steps,
    estimate_interleaved_band_thresholds, soft_threshold_interleaved, Masking,
};
use crf::common::quant::{dequant_exec, quant_level_exec, quant_scalar, quantize_residuals};
use crf::decoder::footer::verify_crc;
use crf::decoder::image_export::{encode_bmp, encode_image, encode_png};
use crf::decoder::packet::ByteRange;
use crf::decoder::planar::upsample_2x_bilinear;
use crf::decoder::reader::{BoundedReader, BoundedSlice};
use crf::decoder::session::{decode_from_bytes, DecodeSession};
use crf::encoder::batch::{fq_for_chain_index, fq_for_index};
use crf::encoder::sequence::encode_sequence;
use crf::encoder::sequence_batched::{encode_sequence_batched, plan_batch, BatchBudget};
use crf::encoder::sequence_tools::{
    allocate_quant_steps, apply_change_mask, change_mask, search_integer_motion,
    sparsify_residual,
};
use crf::encoder::streaming::StreamingEncoder;

fn gray(width: u16, height: u16, pixels: Vec<i32>) -> ImageData {
    ImageData {
        width,
        height,
        bit_depth: 8,
        color_format: ColorFormat::Gray,
        pixels,
    }
}

fn params() -> EncodeParams {
    EncodeParams {
        compression_type: "golomb-rice".to_string(),
        block_size: None,
        prediction_mode: PredictionMode::Med,
        adaptive_prediction: true,
        lossy_quality: None,
        lossy_tuning: None,
        lossy: None,
        input_original_frames: true,
        user_metadata: None,
    }
}

#[test]
fn checksum_of_digits() {
    assert_eq!(crc32(b"123456789"), 0xcbf4_3926);
    assert_eq!(crc32(b""), 0);
}

#[test]
fn signs_are_folded() {
    assert_eq!(
        [0, -1, 1, -2, 2, i32::MAX, i32::MIN].map(zigzag_encode),
        [0, 1, 2, 3, 4, u32::MAX - 1, u32::MAX]
    );
    assert_eq!(zigzag_decode(u32::MAX), i32::MIN);
}

#[test]
fn code_parameters() {
    assert_eq!(floor_log2(1), 0);
    assert_eq!(floor_log2(255), 7);
    assert_eq!(adaptive_k(&[]), 0);
    assert_eq!(adaptive_k(&[8, 8, 8, 15]), 3);
    assert_eq!(adaptive_k(&[u32::MAX]), 15);
    assert_eq!(best_k_exec(&[0, 1, 0, 1]), 0);
    assert_eq!(best_k_exec(&[1000, 2000]), 6);
}

#[test]
fn qualities_and_steps() {
    assert_eq!(
        [10000, 9600, 9500, 9000, 5000, 0, -3].map(step_of_quality_exec),
        [0, 0, 1, 2, 10, 20, 20]
    );
    assert_eq!(
        parse_compression_type(&"egc".to_string()).map(|t| t.to_u8()),
        Some(CompressionType::ExpGolomb.to_u8())
    );
    assert!(parse_compression_type(&"zip".to_string()).is_none());
    assert!(LossyOptionsV2::builder_preset(10001).build().is_err());
}

#[test]
fn steps_of_frames() {
    let options = LossyOptionsV2::builder_preset(9000)
        .reference_mode(ReferenceModeV2::Golden)
        .build()
        .unwrap();
    let kernel = KernelLossyConfig::from_options(Some(options)).unwrap();
    assert_eq!(kernel.global_step, 2);
    let first = fq_for_index(0, Some(2), &kernel, 3, 12, false);
    assert_eq!(first.step, kernel.first_frame_step);
    let later = fq_for_index(1, Some(2), &kernel, 3, 12, true);
    assert_eq!((later.step, later.bias), (2, 3));
    assert_eq!(later.chroma_step, kernel.chroma_step(2));
    assert!(later.q1_matrix_scale);
    let anchor = fq_for_index(24, Some(2), &kernel, 3, 12, false);
    assert_eq!(anchor.step, kernel.anchor_step);
    assert!(!fq_for_index(5, None, &kernel, 3, 12, false).is_lossy());
    assert!(!fq_for_index(5, Some(0), &kernel, 3, 12, false).is_lossy());
    assert!(!fq_for_chain_index(3, None, &kernel, 0).is_lossy());
    assert_eq!(kernel.chroma_step(10), 13);
}

#[test]
fn quantisation() {
    assert_eq!(quant_scalar(0, 5), 0);
    for v in -300..300 {
        for q in [1u8, 2, 5, 16] {
            let back = dequant_exec(quant_level_exec(v, q, 0), q);
            assert!((back - v).abs() <= q as i32, "{} {} {}", v, q, back);
            assert_eq!(back % q as i32, 0);
        }
    }
    assert_eq!(quantize_residuals(&[7, -3], 0), vec![7, -3]);
    assert_eq!(step_for_exec(4, 64, false), 4);
    assert_eq!(step_for_exec(4, 16, false), 1);
    assert_eq!(perceptual_qm(4, 4).len(), 16);
}

#[test]
fn changes_of_illumination() {
    let g: Vec<i32> = (0..70).map(|i| 40 + i).collect();
    let f: Vec<i32> = g.iter().map(|v| v * 120 / 100 - 5).collect();
    let fit = search_lic(&g, &f).unwrap();
    assert_eq!((fit.a_num, fit.b, fit.cost, fit.count), (120, -5, 0, 10));
    assert!(fit.worthwhile());
    let same = search_lic(&g, &g).unwrap();
    assert_eq!((same.a_num, same.b, same.base_cost), (100, 0, 0));
    assert!(!same.worthwhile());
    assert!(search_lic(&g, &f[1..]).is_none());
    assert!(search_lic(&[], &[]).is_none());
}

#[test]
fn noise_is_drawn_to_zero() {
    let px = vec![2, -2, 2, -2, 6, -6];
    assert_eq!(
        estimate_interleaved_band_thresholds(&px, 2, 1, 3, 100),
        vec![3]
    );
    assert_eq!(
        soft_threshold_interleaved(&px, 2, 1, 3, &vec![3]),
        vec![0, 0, 0, 0, 3, -3]
    );
    assert_eq!(
        estimate_interleaved_band_thresholds(&[5, 5, 5], 1, 1, 3, 100),
        vec![0]
    );
    assert_eq!(estimate_band_quant_steps(&px, 2, 1, 3, 8, 100), vec![10]);
    assert_eq!(estimate_band_quant_steps(&px, 2, 1, 3, 2, 100), vec![2]);
}

#[test]
fn steps_follow_texture() {
    let m = Masking {
        texture_x100: 150,
        flat_x100: 50,
        edge_x100: 75,
    };
    assert_eq!(
        estimate_band_activity_steps(&[7; 12], 4, 1, 3, 4, m),
        vec![2]
    );
    let edge = vec![0, 0, 0, 100, 100, 100];
    assert_eq!(estimate_band_activity_steps(&edge, 2, 1, 3, 4, m), vec![3]);
    let texture = vec![0, 0, 0, 30, 30, 30, 0, 0, 0, 30, 30, 30];
    assert_eq!(
        estimate_band_activity_steps(&texture, 4, 1, 3, 4, m),
        vec![6]
    );
    let faint = vec![0, 0, 0, 1, 1, 1];
    assert_eq!(estimate_band_activity_steps(&faint, 2, 1, 3, 4, m), vec![4]);
    assert_eq!(estimate_band_activity_steps(&edge, 2, 1, 3, 0, m), vec![0]);
}

#[test]
fn masks_and_motion() {
    let a = vec![0; 16];
    let mut b = vec![0; 16];
    b[5] = 3;
    b[10] = 2;
    let mask = change_mask(&b, &a, 4, 4, 1, 2, 2);
    assert_eq!(mask, vec![true, false, false, false]);
    let mut d = b.clone();
    apply_change_mask(&mut d, &mask, 4, 4, 1, 2);
    assert_eq!((d[5], d[10]), (3, 0));
    assert_eq!(change_mask(&b, &a[1..], 4, 4, 1, 2, 0), Vec::<bool>::new());

    let reference: Vec<i32> = (0..36).map(|i| (i * i) % 97).collect();
    assert_eq!(
        search_integer_motion(&reference, &reference, 6, 6, 1, 1),
        (0, 0, 0)
    );
    let still = vec![0i32; 4];
    assert_eq!(search_integer_motion(&still, &still, 2, 2, 1, 1), (-1, -1, 0));
}

#[test]
fn sparse_residuals_and_shared_steps() {
    let mut r = vec![1, -1, 4, 0, -9, i32::MIN];
    assert_eq!(sparsify_residual(&mut r, 3), 3);
    assert_eq!(r, vec![0, 0, 4, 0, -9, i32::MIN]);
    assert_eq!(allocate_quant_steps(&[0, 100, 50], 10, 1, 30), vec![14, 5, 10]);
    assert_eq!(allocate_quant_steps(&[7, 7], 10, 1, 30), vec![10, 10]);
    assert_eq!(allocate_quant_steps(&[0, 100], 10, 8, 12), vec![12, 8]);
    assert!(allocate_quant_steps(&[], 10, 1, 30).is_empty());
}

#[test]
fn batches_are_planned() {
    let budget = |mem_limit, frames, cores| BatchBudget {
        mem_limit,
        frames,
        cores,
    };
    assert_eq!(plan_batch(budget(1000, None, 8), 100, 50), 8);
    assert_eq!(plan_batch(budget(300, None, 8), 100, 50), 3);
    assert_eq!(plan_batch(budget(10, None, 8), 100, 50), 1);
    assert_eq!(plan_batch(budget(10, Some(5), 8), 100, 50), 5);
    assert_eq!(plan_batch(budget(10, Some(5), 8), 100, 3), 3);
    assert_eq!(plan_batch(budget(10, Some(0), 0), 0, 3), 1);
}

#[test]
fn small_planes_grow() {
    let up = upsample_2x_bilinear(&[8; 4], 2, 2, 4, 4);
    assert_eq!(up, vec![8; 16]);
}

#[test]
fn image_files() {
    let image = gray(2, 1, vec![-5, 300]);
    let png = encode_png(&image).unwrap();
    assert_eq!(&png[0..8], &[137, 80, 78, 71, 13, 10, 26, 10]);
    assert_eq!(&png[8..16], &[0, 0, 0, 13, 73, 72, 68, 82]);
    assert_eq!(&png[16..29], &[0, 0, 0, 2, 0, 0, 0, 1, 8, 0, 0, 0, 0]);
    assert_eq!(&png[29..33], &crc32(&png[12..29]).to_be_bytes());
    assert_eq!(
        &png[33..49],
        &[0, 0, 0, 8, 73, 68, 65, 84, 1, 3, 0, 0xfc, 0xff, 0, 0, 255]
    );
    let bmp = encode_bmp(&image).unwrap();
    assert_eq!(&bmp[0..2], b"BM");
    assert_eq!(&bmp[10..14], &[0x36, 0x04, 0, 0]);
    assert_eq!(&bmp[54..62], &[0, 0, 0, 0, 1, 1, 1, 0]);
    assert_eq!(&bmp[1078..1080], &[0, 255]);
    assert_eq!(encode_image(&image, &"png".to_string()).unwrap(), png);
    assert_eq!(encode_image(&image, &"bmp".to_string()).unwrap(), bmp);
    assert!(matches!(
        encode_image(&image, &"gif".to_string()),
        Err(CrfError::InvalidCodingParams(_))
    ));
}

#[test]
fn bounded_parts() {
    let data = [1u8, 2, 3, 4, 5];
    let part = BoundedSlice::new(&data, 1, 3).unwrap();
    assert_eq!(part.as_slice(), &[2, 3, 4]);
    assert_eq!((part.remaining(), part.is_empty()), (3, false));
    assert!(matches!(
        BoundedSlice::new(&data, 3, 3),
        Err(CrfError::InsufficientData {
            expected: 6,
            actual: 5
        })
    ));
    assert!(matches!(
        BoundedSlice::new(&data, usize::MAX, 2),
        Err(CrfError::InvalidCodingParams(_))
    ));
    let mut reader = BoundedReader::new(&data, 1, 3).unwrap();
    assert_eq!(reader.read_bytes(2).unwrap(), &[2, 3]);
    assert!(reader.read_bytes(2).is_err());
    assert_eq!(reader.read_bytes(1).unwrap(), &[4]);
    let range = ByteRange::new(7, 9);
    assert_eq!((range.offset, range.len), (7, 9));
}

#[test]
fn errors_of_decoding() {
    assert!(matches!(
        decode_from_bytes(&[1, 2, 3]),
        Err(CrfError::InsufficientData {
            expected: HEADER_SIZE,
            actual: 3
        })
    ));
    assert!(matches!(
        decode_from_bytes(&[9; 100]),
        Err(CrfError::InvalidMagic)
    ));
    assert!(matches!(
        verify_crc(&[0; 3]),
        Err(CrfError::InsufficientData {
            expected: 8,
            actual: 3
        })
    ));
    let mut bytes = vec![];
    CrfHeader::new(0, 4, 4, 8, ColorFormat::Gray, CompressionType::GolombRice)
        .write_bytes(&mut bytes)
        .unwrap();
    assert!(matches!(
        decode_from_bytes(&bytes),
        Err(CrfError::FrameCountOutOfRange(0))
    ));
    bytes[8] = 1;
    bytes[14] = 17;
    assert!(matches!(
        decode_from_bytes(&bytes),
        Err(CrfError::InvalidCodingParams(_))
    ));
    bytes[14] = 8;
    assert!(matches!(
        decode_from_bytes(&bytes),
        Err(CrfError::InsufficientData { .. })
    ));
    assert!(matches!(
        DecodeSession::decode_bytes_streaming(&bytes, |_i: usize, _f: &ImageData| Ok(())),
        Err(CrfError::InsufficientData { .. })
    ));
}

#[test]
fn a_frame_handler_can_stop_decoding() {
    let frames = [gray(4, 4, vec![1; 16]), gray(4, 4, vec![2; 16])];
    let data = encode_sequence(&frames, &params()).unwrap();
    let r = DecodeSession::decode_bytes_streaming(&data, |i: usize, _f: &ImageData| {
        if i == 1 {
            Err(CrfError::FrameCountOutOfRange(7))
        } else {
            Ok(())
        }
    });
    assert!(matches!(r, Err(CrfError::FrameCountOutOfRange(7))));
}

#[test]
fn errors_of_encoding() {
    let a = gray(4, 4, vec![1; 16]);
    let many: Vec<ImageData> = (0..51).map(|_| a.clone()).collect();
    assert!(matches!(
        encode_sequence(&many, &params()),
        Err(CrfError::FrameCountOutOfRange(51))
    ));
    assert!(matches!(
        encode_sequence(&[], &params()),
        Err(CrfError::FrameCountOutOfRange(0))
    ));
    let wide = gray(8, 2, vec![1; 16]);
    assert!(matches!(
        encode_sequence(&[a.clone(), wide.clone()], &params()),
        Err(CrfError::ImageDimensionsMismatch {
            expected: (4, 4),
            actual: (8, 2)
        })
    ));
    let deep = ImageData {
        bit_depth: 10,
        ..a.clone()
    };
    assert!(matches!(
        encode_sequence(&[a.clone(), deep], &params()),
        Err(CrfError::InvalidCodingParams(_))
    ));
    let unknown = EncodeParams {
        compression_type: "zip".to_string(),
        ..params()
    };
    assert!(matches!(
        encode_sequence(&[a.clone(), a.clone()], &unknown),
        Err(CrfError::InvalidCodingParams(_))
    ));
    assert!(matches!(
        StreamingEncoder::new(&unknown),
        Err(CrfError::InvalidCodingParams(_))
    ));
    let mut e = StreamingEncoder::new(&params()).unwrap();
    e.push_frame(&a).unwrap();
    assert!(matches!(
        e.push_frame(&wide),
        Err(CrfError::ImageDimensionsMismatch { .. })
    ));
    e.push_frame(&a).unwrap();
    let data = e.finish().unwrap();
    assert_eq!(data, encode_sequence(&[a.clone(), a.clone()], &params()).unwrap());
    let mut one = StreamingEncoder::new(&params()).unwrap();
    one.push_frame(&a).unwrap();
    assert!(matches!(
        one.finish(),
        Err(CrfError::FrameCountOutOfRange(1))
    ));
    assert!(matches!(
        StreamingEncoder::new(&params()).unwrap().finish(),
        Err(CrfError::FrameCountOutOfRange(0))
    ));
}

#[test]
fn errors_of_loading() {
    let setup = resolve_setup(&params(), Switches::all()).unwrap();
    let budget = BatchBudget {
        mem_limit: 1 << 20,
        frames: None,
        cores: 2,
    };
    let load = |i: usize| {
        if i == 2 {
            Err(CrfError::InvalidMagic)
        } else {
            Ok(gray(4, 4, vec![i as i32; 16]))
        }
    };
    assert!(matches!(
        encode_sequence_batched(4, load, &setup, budget),
        Err(CrfError::InvalidMagic)
    ));
    assert!(matches!(
        encode_sequence_batched(1, load, &setup, budget),
        Err(CrfError::FrameCountOutOfRange(1))
    ));
    let data = encode_sequence_batched(2, load, &setup, budget).unwrap();
    assert_eq!(decode_from_bytes(&data).unwrap().frames.len(), 2);
}

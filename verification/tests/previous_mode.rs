//! Frames that refer to the one before.

use crf::common::config::{EncodeParams, LossyOptionsV2, ReferenceModeV2};
use crf::common::domain::{ColorFormat, ImageData, PredictionMode};
use crf::encoder::sequence::encode_sequence;
use crf::encoder::streaming::StreamingEncoder;

fn make_frame(shift: i32, width: u16, height: u16) -> ImageData {
    let mut px = Vec::with_capacity(width as usize * height as usize * 3);
    for y in 0..height {
        for x in 0..width {
            px.push(((x as i32 + shift * 3) % 200) + 30);
            px.push((100 - ((y as i32 + shift) % 70)) + 20);
            px.push(((x as i32 + y as i32 + shift) % 150) + 50);
        }
    }
    ImageData {
        width,
        height,
        bit_depth: 8,
        color_format: ColorFormat::Rgb,
        pixels: px,
    }
}

fn mk_lossy_params_q90() -> EncodeParams {
    EncodeParams {
        compression_type: "golomb-rice".to_string(),
        block_size: None,
        prediction_mode: PredictionMode::Average,
        adaptive_prediction: true,
        lossy_quality: None,
        lossy_tuning: None,
        lossy: Some(
            LossyOptionsV2::builder_preset(9000)
                .build()
                .unwrap(),
        ),
        input_original_frames: true,
        user_metadata: None,
    }
}

#[test]
fn debug_previous_mode() {
    let w = 32u16;
    let h = 24u16;
    let frames: Vec<ImageData> = (0..5).map(|i| make_frame(i * 2, w, h)).collect();
    let mut params = mk_lossy_params_q90();
    params.lossy = Some(
        LossyOptionsV2::builder_preset(9000)
            .reference_mode(ReferenceModeV2::Previous)
            .build()
            .unwrap(),
    );

    let streaming = {
        let mut enc = StreamingEncoder::new(&params).unwrap();
        for f in &frames {
            enc.push_frame(f).unwrap();
        }
        enc.finish().unwrap()
    };
    let batched = encode_sequence(&frames, &params).unwrap();

    assert_eq!(streaming.len(), batched.len());
    for i in 0..64 {
        assert_eq!(streaming[i], batched[i]);
    }
    let header_size = 64;
    let frame_count = 5usize;
    let index_size = frame_count * 8;
    for i in 0..index_size {
        assert_eq!(streaming[header_size + i], batched[header_size + i]);
    }
    assert_eq!(streaming, batched);
}

//! The shortest of all ways to code a frame.

use vstd::prelude::*;
use crate::common::domain::{CompressionType, ImageData, PredictionMode};
use crate::common::error::{CrfResult, Fault};
use crate::common::quant;
use crate::encoder::candidate;
use crate::encoder::candidate::{run_contest, AdaptiveOutput, Entry};
use crate::encoder::frame;
use crate::encoder::frame::{FrameQuant, Pic};
use crate::encoder::planar;
use crate::encoder::planar::encode_planar_payload;

verus! {

/// The frame that wins. `copies` tells whether blocks that may repeat compete.
pub open spec fn adaptive(
    p: Pic,
    ct: CompressionType,
    block_size: u16,
    first: bool,
    fq: FrameQuant,
    preferred: Option<PredictionMode>,
    bands: Option<Seq<u8>>,
    copies: bool,
) -> Result<Entry, Fault> {
    if ct == CompressionType::GolombRice && p.c == 3 {
        match planar::planar_payload(p, ct, block_size, fq, bands) {
            Err(f) => Err(f),
            Ok(body) => candidate::contest(
                p,
                ct,
                block_size,
                first,
                fq,
                preferred,
                bands,
                Some(body),
                copies,
            ),
        }
    } else {
        candidate::contest(p, ct, block_size, first, fq, preferred, bands, None, copies)
    }
}

/// Codes a frame in the way that makes it shortest. `enable_itbc` tells whether blocks that may
/// repeat compete.
pub fn encode_frame_adaptive_with(
    image: &ImageData,
    compression_type: CompressionType,
    block_size: u16,
    is_first_frame: bool,
    fq: FrameQuant,
    preferred_mode: Option<PredictionMode>,
    band_steps: Option<&Vec<u8>>,
    enable_itbc: bool,
) -> (r: CrfResult<AdaptiveOutput>)
    requires
        frame::codable(image),
    ensures
        candidate::agrees_entry(
            r,
            adaptive(
                frame::pic(image),
                compression_type,
                block_size,
                is_first_frame,
                fq,
                preferred_mode,
                quant::bands_view(band_steps),
                enable_itbc,
            ),
        ),
{
    let golomb: bool = match compression_type {
        CompressionType::GolombRice => true,
        _ => false,
    };
    let planar: Option<Vec<u8>> = if golomb && image.color_format.component_count() == 3 {
        match encode_planar_payload(image, compression_type, block_size, fq, band_steps) {
            Ok(body) => Some(body),
            Err(e) => {
                return Err(e);
            },
        }
    } else {
        None
    };
    run_contest(
        image,
        compression_type,
        block_size,
        is_first_frame,
        fq,
        preferred_mode,
        band_steps,
        planar,
        enable_itbc,
    )
}

/// Codes a frame in the way that makes it shortest.
pub fn encode_frame_adaptive(
    image: &ImageData,
    compression_type: CompressionType,
    block_size: u16,
    is_first_frame: bool,
    fq: FrameQuant,
    preferred_mode: Option<PredictionMode>,
    band_steps: Option<&Vec<u8>>,
) -> (r: CrfResult<AdaptiveOutput>)
    requires
        frame::codable(image),
    ensures
        candidate::agrees_entry(
            r,
            adaptive(
                frame::pic(image),
                compression_type,
                block_size,
                is_first_frame,
                fq,
                preferred_mode,
                quant::bands_view(band_steps),
                true,
            ),
        ),
{
    encode_frame_adaptive_with(
        image,
        compression_type,
        block_size,
        is_first_frame,
        fq,
        preferred_mode,
        band_steps,
        true,
    )
}

} // verus!

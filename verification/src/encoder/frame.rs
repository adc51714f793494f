//! Single frames: residuals by one prediction mode, coded behind a frame header.

use vstd::prelude::*;
use crate::common::bits;
use crate::common::blocks;
use crate::common::codes;
use crate::common::domain;
use crate::common::domain::{
    CompressionType,
    FrameHeader,
    ImageData,
    PredictionMode,
    FRAME_HEADER_SIZE,
    MAX_SAMPLES,
};
use crate::common::error;
use crate::common::error::{invalid, CrfResult, Fault};
use crate::common::le::put_bytes;
use crate::common::predict;
use crate::common::predict::apply_prediction;
use crate::common::quant;
use crate::common::quant::closed_loop_predict_quant_banded;
use crate::encoder::exp_golomb::encode_frame_exp_golomb;
use crate::encoder::golomb;
use crate::encoder::golomb::encode_frame_golomb_block_adaptive;
use crate::encoder::rle_golomb;
use crate::encoder::rle_golomb::{
    encode_frame_rle_golomb_adaptive,
    encode_frame_rle_golomb_adaptive_limited,
};
use crate::encoder::transform;
use crate::encoder::transform::encode_frame_transform;

verus! {

/// How a frame is quantised.
#[derive(Clone, Copy, PartialEq, Eq, Debug, Structural)]
pub struct FrameQuant {
    /// Step, zero for no loss.
    pub step: u8,
    /// Bias of the dead zone.
    pub bias: i8,
    /// Step of the chroma planes, zero for that of the luma plane.
    pub chroma_step: u8,
    /// Bias of the chroma planes.
    pub chroma_bias: i8,
    /// Whether chroma planes are halved in both directions.
    pub chroma_half_res: bool,
    /// Whether weights apply to a step of one.
    pub q1_matrix_scale: bool,
}

impl FrameQuant {
    /// Whether anything may be lost.
    pub open spec fn spec_lossy(self) -> bool {
        self.step > 0 || self.q1_matrix_scale
    }

    pub open spec fn spec_lossless() -> FrameQuant {
        FrameQuant {
            step: 0,
            bias: 0,
            chroma_step: 0,
            chroma_bias: 0,
            chroma_half_res: false,
            q1_matrix_scale: false,
        }
    }

    /// Nothing is lost.
    pub fn lossless() -> (q: FrameQuant)
        ensures
            q == FrameQuant::spec_lossless(),
            !q.spec_lossy(),
    {
        FrameQuant {
            step: 0,
            bias: 0,
            chroma_step: 0,
            chroma_bias: 0,
            chroma_half_res: false,
            q1_matrix_scale: false,
        }
    }

    /// Whether anything may be lost.
    pub fn is_lossy(&self) -> (b: bool)
        ensures
            b == self.spec_lossy(),
    {
        self.step > 0 || self.q1_matrix_scale
    }
}

/// The size and samples of an image.
pub struct Pic {
    pub w: int,
    pub h: int,
    pub c: int,
    pub px: Seq<i32>,
}

impl Pic {
    pub open spec fn ok(self) -> bool {
        &&& predict::geometry_ok(self.w, self.c)
        &&& 1 <= self.h <= 0xffff
        &&& self.px.len() == self.h * (self.w * self.c)
        &&& self.px.len() <= MAX_SAMPLES
    }
}

/// The size and samples of an image.
pub open spec fn pic(image: &ImageData) -> Pic {
    Pic {
        w: image.width as int,
        h: image.height as int,
        c: image.color_format.spec_count() as int,
        px: image.pixels@,
    }
}

/// An image that can be coded.
pub open spec fn codable(image: &ImageData) -> bool {
    image.wf() && image.width >= 1 && image.height >= 1
}

/// Ways to count the samples of an image.
pub proof fn lemma_counts(w: int, h: int, c: int)
    ensures
        h * (w * c) == w * h * c,
        h * (w * c) == (w * c) * h,
        w * c * h == h * (w * c),
{
    assert(h * (w * c) == w * h * c && h * (w * c) == (w * c) * h) by (nonlinear_arith);
}

pub proof fn lemma_codable(image: &ImageData)
    requires
        codable(image),
    ensures
        pic(image).ok(),
        image.pixels@.len() == image.width * image.height * image.color_format.spec_count(),
        image.width * image.color_format.spec_count() <= 0xffff * 4,
        image.width * image.height <= image.pixels@.len(),
{
    let (w, h, c) = (
        image.width as int,
        image.height as int,
        image.color_format.spec_count() as int,
    );
    lemma_counts(w, h, c);
    domain::lemma_samples_bound(image.shape());
    assert(w * c <= 0xffff * 4) by (nonlinear_arith)
        requires
            0 <= w <= 0xffff,
            0 <= c <= 4,
    ;
}

/// The residuals of an image: exact, or quantised in a loop with the prediction.
pub open spec fn frame_residuals(
    p: Pic,
    mode: PredictionMode,
    fq: FrameQuant,
    bands: Option<Seq<u8>>,
) -> Seq<i32> {
    if fq.spec_lossy() {
        quant::loop_residuals(
            p.px,
            quant::LoopParams { w: p.w, c: p.c, mode, step: fq.step, bias: fq.bias, bands },
            p.px.len(),
        )
    } else {
        predict::residuals(p.px, p.w, p.c, mode, 0, p.px.len() as int)
    }
}

/// The code of residuals, its parameter and the type of frame.
pub struct Coded {
    pub body: Seq<u8>,
    pub param: u8,
    pub kind: u8,
}

/// Residuals coded with zero runs.
pub open spec fn rle_coded(res: Seq<i32>) -> Coded {
    Coded {
        body: rle_golomb::rle_bytes(res, rle_golomb::best_k(res)),
        param: rle_golomb::best_k(res) as u8,
        kind: 1,
    }
}

/// Residuals coded by blocks.
pub open spec fn block_coded(res: Seq<i32>, w: int, h: int, c: int) -> Coded {
    Coded {
        body: golomb::block_payload(blocks::tiles(res, golomb::block_grid(w, h, c))),
        param: 0xff,
        kind: 0,
    }
}

/// Whether Exp-Golomb codes can hold the residuals.
pub open spec fn exp_fits(res: Seq<i32>) -> bool {
    forall|i: int| 0 <= i < res.len() ==> #[trigger] res[i] > i32::MIN
}

/// How the residuals `res` are coded. With Golomb-Rice codes, the first frame takes the shorter of
/// two codes.
pub open spec fn coded(
    p: Pic,
    res: Seq<i32>,
    ct: CompressionType,
    block_size: u16,
    first: bool,
) -> Result<Coded, Fault> {
    match ct {
        CompressionType::GolombRice => {
            let r = rle_coded(res);
            let b = block_coded(res, p.w, p.h, p.c);
            if first && r.body.len() >= b.body.len() {
                Ok(b)
            } else {
                Ok(r)
            }
        },
        CompressionType::ExpGolomb => if exp_fits(res) {
            Ok(Coded { body: bits::pack(codes::exp_bits(codes::zigzags(res))), param: 0, kind: 0 })
        } else {
            Err(Fault::Invalid)
        },
        CompressionType::Transform => if 1 <= block_size <= 255 {
            Ok(
                Coded {
                    body: transform::transform_bytes(res, p.w * p.c, p.h, block_size as int),
                    param: 0,
                    kind: 0,
                },
            )
        } else {
            Err(Fault::Invalid)
        },
    }
}

/// A frame: its header and its code.
pub open spec fn frame_bytes(p: Pic, c: Coded, pred_mode: u8) -> Seq<u8> {
    (FrameHeader {
        pred_mode,
        ..FrameHeader::spec_with_type(c.body.len() as u32, p.px.len() as u32, c.param, c.kind)
    }).bytes() + c.body
}

/// The frame of an image predicted by one mode.
pub open spec fn plain_frame(
    p: Pic,
    ct: CompressionType,
    block_size: u16,
    mode: PredictionMode,
    first: bool,
    fq: FrameQuant,
    bands: Option<Seq<u8>>,
) -> Result<Seq<u8>, Fault> {
    match coded(p, frame_residuals(p, mode, fq, bands), ct, block_size, first) {
        Ok(c) => Ok(frame_bytes(p, c, mode.code())),
        Err(f) => Err(f),
    }
}

pub proof fn lemma_frame_len(p: Pic, c: Coded, pred_mode: u8)
    ensures
        frame_bytes(p, c, pred_mode).len() == FRAME_HEADER_SIZE + c.body.len(),
{
}

/// Residuals are as many as samples.
pub proof fn lemma_frame_residuals_len(
    p: Pic,
    mode: PredictionMode,
    fq: FrameQuant,
    bands: Option<Seq<u8>>,
)
    ensures
        frame_residuals(p, mode, fq, bands).len() == p.px.len(),
{
    quant::lemma_loop_len(
        p.px,
        quant::LoopParams { w: p.w, c: p.c, mode, step: fq.step, bias: fq.bias, bands },
        p.px.len(),
    );
}

/// Puts a frame together.
pub fn write_frame(
    body: &Vec<u8>,
    image: &ImageData,
    coding_params: u8,
    frame_type: u8,
    pred_mode: u8,
) -> (out: Vec<u8>)
    ensures
        out@ == frame_bytes(
            pic(image),
            (Coded { body: body@, param: coding_params, kind: frame_type }),
            pred_mode,
        ),
        out@.len() == FRAME_HEADER_SIZE + body@.len(),
{
    let mut header = FrameHeader::with_type(
        body.len() as u32,
        image.pixels.len() as u32,
        coding_params,
        frame_type,
    );
    header.pred_mode = pred_mode;
    let mut out: Vec<u8> = Vec::new();
    let _ = header.write_bytes(&mut out);
    put_bytes(&mut out, body);
    assert(out@ =~= frame_bytes(
        pic(image),
        Coded { body: body@, param: coding_params, kind: frame_type },
        pred_mode,
    ));
    out
}

/// Puts a frame together whose header names no prediction mode.
pub fn assemble_frame(
    encoded_data: &Vec<u8>,
    image: &ImageData,
    coding_params: u8,
    frame_type: u8,
) -> (r: CrfResult<Vec<u8>>)
    ensures
        r is Ok,
        r->Ok_0@ == frame_bytes(
            pic(image),
            (Coded { body: encoded_data@, param: coding_params, kind: frame_type }),
            domain::PRED_MODE_UNSET,
        ),
        r->Ok_0@.len() == FRAME_HEADER_SIZE + encoded_data@.len(),
{
    Ok(write_frame(encoded_data, image, coding_params, frame_type, domain::PRED_MODE_UNSET))
}

fn check_exp_fits(res: &Vec<i32>) -> (b: bool)
    ensures
        b == exp_fits(res@),
{
    let mut i: usize = 0;
    while i < res.len()
        invariant
            i <= res@.len(),
            forall|j: int| 0 <= j < i ==> #[trigger] res@[j] > i32::MIN,
        decreases res@.len() - i,
    {
        if res[i] == i32::MIN {
            assert(!(res@[i as int] > i32::MIN));
            return false;
        }
        i = i + 1;
    }
    true
}

/// The residuals of an image.
pub fn residuals_of(
    image: &ImageData,
    mode: PredictionMode,
    fq: FrameQuant,
    band_steps: Option<&Vec<u8>>,
) -> (res: Vec<i32>)
    requires
        codable(image),
    ensures
        res@ == frame_residuals(pic(image), mode, fq, quant::bands_view(band_steps)),
        res@.len() == image.pixels@.len(),
{
    proof {
        lemma_codable(image);
        lemma_frame_residuals_len(pic(image), mode, fq, quant::bands_view(band_steps));
    }
    let width: usize = image.width as usize;
    let components: usize = image.color_format.component_count();
    if fq.is_lossy() {
        closed_loop_predict_quant_banded(
            &image.pixels,
            width,
            components,
            mode,
            fq.step,
            fq.bias,
            band_steps,
        ).0
    } else {
        apply_prediction(&image.pixels, width, components, mode)
    }
}

/// Codes an image predicted by one mode, unless with zero runs it takes more bytes than `limit`.
fn encode_within(
    image: &ImageData,
    compression_type: CompressionType,
    block_size: u16,
    prediction_mode: PredictionMode,
    is_first_frame: bool,
    fq: FrameQuant,
    band_steps: Option<&Vec<u8>>,
    limit: Option<usize>,
) -> (r: CrfResult<Option<Vec<u8>>>)
    requires
        codable(image),
    ensures
        ({
            let f = plain_frame(
                pic(image),
                compression_type,
                block_size,
                prediction_mode,
                is_first_frame,
                fq,
                quant::bands_view(band_steps),
            );
            match r {
                Ok(Some(v)) => f == Ok::<Seq<u8>, Fault>(v@),
                Ok(None) => f is Ok && limit is Some && f->Ok_0.len() > limit->0 && compression_type
                    == CompressionType::GolombRice && !is_first_frame,
                Err(e) => f == Err::<Seq<u8>, Fault>(error::fault(e)),
            }
        }),
        r is Ok && r->Ok_0 is Some && compression_type == CompressionType::GolombRice
            && !is_first_frame && limit is Some && limit->0 >= FRAME_HEADER_SIZE
            ==> r->Ok_0->Some_0@.len() <= limit->0,
{
    let ghost p = pic(image);
    proof {
        lemma_codable(image);
        lemma_counts(p.w, p.h, p.c);
    }
    let width: usize = image.width as usize;
    let height: usize = image.height as usize;
    let components: usize = image.color_format.component_count();
    let res: Vec<i32> = residuals_of(image, prediction_mode, fq, band_steps);
    let (body, param, kind): (Vec<u8>, u8, u8) = match compression_type {
        CompressionType::GolombRice => {
            if is_first_frame {
                match (
                    encode_frame_golomb_block_adaptive(&res, width, height, components),
                    encode_frame_rle_golomb_adaptive(&res),
                ) {
                    (Ok(b), Ok(r)) => {
                        if r.0.len() < b.0.len() {
                            (r.0, r.1, 1)
                        } else {
                            (b.0, b.1, 0)
                        }
                    },
                    _ => {
                        return Ok(None);
                    },
                }
            } else {
                match limit {
                    Some(byte_limit) => {
                        let rest: usize = if byte_limit < FRAME_HEADER_SIZE {
                            0
                        } else {
                            byte_limit - FRAME_HEADER_SIZE
                        };
                        match encode_frame_rle_golomb_adaptive_limited(&res, rest) {
                            Ok(Some((data, k))) => (data, k, 1),
                            _ => {
                                proof {
                                    lemma_frame_len(p, rle_coded(res@), prediction_mode.code());
                                }
                                return Ok(None);
                            },
                        }
                    },
                    None => match encode_frame_rle_golomb_adaptive(&res) {
                        Ok((data, k)) => (data, k, 1),
                        Err(e) => {
                            return Err(e);
                        },
                    },
                }
            }
        },
        CompressionType::ExpGolomb => {
            if !check_exp_fits(&res) {
                return Err(invalid("residual out of range"));
            }
            match encode_frame_exp_golomb(&res) {
                Ok(data) => (data, 0, 0),
                Err(e) => {
                    return Err(e);
                },
            }
        },
        CompressionType::Transform => {
            match encode_frame_transform(&res, width * components, height, block_size as usize) {
                Ok(data) => (data, 0, 0),
                Err(e) => {
                    return Err(e);
                },
            }
        },
    };
    let out: Vec<u8> = write_frame(&body, image, param, kind, prediction_mode.to_u8());
    Ok(Some(out))
}

/// Codes an image predicted by one mode, unless with zero runs it takes more than `byte_limit`
/// bytes.
pub fn encode_frame_inner_limited(
    image: &ImageData,
    compression_type: CompressionType,
    block_size: u16,
    prediction_mode: PredictionMode,
    is_first_frame: bool,
    fq: FrameQuant,
    band_steps: Option<&Vec<u8>>,
    byte_limit: usize,
) -> (r: CrfResult<Option<Vec<u8>>>)
    requires
        codable(image),
    ensures
        ({
            let f = plain_frame(
                pic(image),
                compression_type,
                block_size,
                prediction_mode,
                is_first_frame,
                fq,
                quant::bands_view(band_steps),
            );
            match r {
                Ok(Some(v)) => f == Ok::<Seq<u8>, Fault>(v@),
                Ok(None) => f is Ok && f->Ok_0.len() > byte_limit && compression_type
                    == CompressionType::GolombRice && !is_first_frame,
                Err(e) => f == Err::<Seq<u8>, Fault>(error::fault(e)),
            }
        }),
        r is Ok && r->Ok_0 is Some && compression_type == CompressionType::GolombRice
            && !is_first_frame && byte_limit >= FRAME_HEADER_SIZE ==> r->Ok_0->Some_0@.len()
            <= byte_limit,
{
    encode_within(
        image,
        compression_type,
        block_size,
        prediction_mode,
        is_first_frame,
        fq,
        band_steps,
        Some(byte_limit),
    )
}

/// Codes an image predicted by one mode.
pub fn encode_frame_inner(
    image: &ImageData,
    compression_type: CompressionType,
    block_size: u16,
    prediction_mode: PredictionMode,
    is_first_frame: bool,
    fq: FrameQuant,
    band_steps: Option<&Vec<u8>>,
) -> (r: CrfResult<Vec<u8>>)
    requires
        codable(image),
    ensures
        agrees_bytes(
            r,
            plain_frame(
                pic(image),
                compression_type,
                block_size,
                prediction_mode,
                is_first_frame,
                fq,
                quant::bands_view(band_steps),
            ),
        ),
{
    let r: CrfResult<Option<Vec<u8>>> = encode_within(
        image,
        compression_type,
        block_size,
        prediction_mode,
        is_first_frame,
        fq,
        band_steps,
        None,
    );
    match r {
        Ok(Some(v)) => Ok(v),
        Ok(None) => Err(invalid("frame too long")),
        Err(e) => Err(e),
    }
}

/// Codes an image predicted by one mode.
pub fn encode_frame(
    image: &ImageData,
    compression_type: CompressionType,
    block_size: u16,
    prediction_mode: PredictionMode,
    is_first_frame: bool,
    fq: FrameQuant,
    band_steps: Option<&Vec<u8>>,
) -> (r: CrfResult<Vec<u8>>)
    requires
        codable(image),
    ensures
        agrees_bytes(
            r,
            plain_frame(
                pic(image),
                compression_type,
                block_size,
                prediction_mode,
                is_first_frame,
                fq,
                quant::bands_view(band_steps),
            ),
        ),
{
    encode_frame_inner(
        image,
        compression_type,
        block_size,
        prediction_mode,
        is_first_frame,
        fq,
        band_steps,
    )
}

/// The result is the one that `s` says.
pub open spec fn agrees_bytes(r: CrfResult<Vec<u8>>, s: Result<Seq<u8>, Fault>) -> bool {
    match r {
        Ok(v) => s == Ok::<Seq<u8>, Fault>(v@),
        Err(e) => s == Err::<Seq<u8>, Fault>(error::fault(e)),
    }
}

} // verus!

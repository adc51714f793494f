//! Frames decoded to images.

use vstd::prelude::*;
use crate::common::bits;
use crate::common::blocks;
use crate::common::blocks::div_up;
use crate::common::codes;
use crate::common::dct;
use crate::common::dct::dct_dequantize_inverse_interleaved_bs;
use crate::common::domain::{
    CompressionType,
    CrfHeader,
    FrameHeader,
    ImageData,
    PredictionMode,
    FRAME_HEADER_SIZE,
    MAX_SAMPLES,
    PRED_MODE_UNSET,
};
use crate::common::error;
use crate::common::error::{invalid, short, CrfError, CrfResult, Fault};
use crate::common::framing;
use crate::common::framing::get_part;
use crate::common::plane;
use crate::common::plane::interleave;
use crate::common::predict;
use crate::common::predict::undo_prediction;
use crate::decoder::banded;
use crate::decoder::banded::decode_banded_with_undo;
use crate::decoder::exp_golomb;
use crate::decoder::exp_golomb::decode_frame_exp_golomb;
use crate::decoder::golomb;
use crate::decoder::golomb::decode_frame_golomb;
use crate::decoder::intra_transform;
use crate::decoder::intra_transform::decode_intra_transform;
use crate::decoder::intrabc;
use crate::decoder::intrabc::decode_intrabc_payload;
use crate::decoder::palette;
use crate::decoder::palette::decode_palette_payload;
use crate::decoder::planar;
use crate::decoder::planar::{cfl_luma_add, upsample_2x_bilinear};
use crate::decoder::rle_cabac;
use crate::decoder::rle_cabac::{check_body, decode_frame_rle_cabac};
use crate::decoder::rle_golomb;
use crate::decoder::rle_golomb::decode_frame_rle_golomb;
use crate::decoder::transform;
use crate::decoder::transform::decode_frame_transform;
use crate::encoder::frame;

verus! {

/// What a frame is decoded with: how residuals are coded, the size of the image, and the mode of
/// frames that name none.
#[derive(Clone, Copy)]
pub struct Setting {
    pub ct: CompressionType,
    pub width: usize,
    pub height: usize,
    pub components: usize,
    pub mode: PredictionMode,
}

impl Setting {
    pub open spec fn w(self) -> int {
        self.width as int
    }

    pub open spec fn h(self) -> int {
        self.height as int
    }

    pub open spec fn c(self) -> int {
        self.components as int
    }

    /// Samples in the image.
    pub open spec fn n(self) -> int {
        self.h() * (self.w() * self.c())
    }

    pub open spec fn ok(self) -> bool {
        &&& predict::geometry_ok(self.w(), self.c())
        &&& 1 <= self.height <= 0xffff
        &&& self.n() <= MAX_SAMPLES
    }

    /// Whether residuals are Golomb-Rice coded, which other kinds of frame go with.
    pub open spec fn golomb(self) -> bool {
        self.ct == CompressionType::GolombRice
    }
}

/// A file header of a sensible size.
pub open spec fn sizes_ok(h: &CrfHeader) -> bool {
    h.width >= 1 && h.height >= 1 && h.shape().samples() <= MAX_SAMPLES
}

/// What the frames of a file are decoded with.
pub open spec fn setting_of(h: &CrfHeader) -> Setting {
    Setting {
        ct: h.compression_type,
        width: h.width as usize,
        height: h.height as usize,
        components: h.color_format.spec_count() as usize,
        mode: h.prediction_mode,
    }
}

/// The residuals that a frame's code stands for, or its samples where it holds transformed blocks.
pub open spec fn residuals_result(body: Seq<u8>, fh: FrameHeader, x: Setting) -> Result<
    Seq<i32>,
    Fault,
> {
    let n = x.n() as nat;
    match x.ct {
        CompressionType::GolombRice => if fh.frame_type == 1 {
            Ok(rle_golomb::rle_frame(body, (fh.coding_params % 128) as nat, n))
        } else if fh.frame_type == 5 {
            if body.len() == 0 {
                Err(Fault::Short { expected: 1, actual: 0 })
            } else if !rle_cabac::body_ok(body.skip(1)) {
                Err(Fault::Invalid)
            } else {
                Ok(
                    rle_cabac::cabac_frame(
                        body.skip(1),
                        body[0] as nat,
                        n,
                        Some((x.w() * x.c()) as usize),
                    ),
                )
            }
        } else if fh.frame_type == 6 {
            if body.len() < 2 {
                Err(Fault::Short { expected: 2, actual: 0 })
            } else if !rle_cabac::body_ok(body.skip(1)) {
                Err(Fault::Invalid)
            } else {
                Ok(
                    dct::inverse_interleaved(
                        rle_cabac::cabac_frame(body.skip(1), (body[0] % 16) as nat, n, None),
                        x.w(),
                        x.h(),
                        x.c(),
                        if (body[0] / 32) % 2 == 1 {
                            8
                        } else {
                            4
                        },
                        if body[0] / 128 == 1 {
                            8
                        } else {
                            4
                        },
                    ),
                )
            }
        } else {
            Ok(golomb::golomb_frame(body, fh.coding_params, n, x.w(), x.h(), x.c()))
        },
        CompressionType::ExpGolomb => Ok(exp_golomb::exp_frame(body, n)),
        CompressionType::Transform => if transform::side(body) < 1 {
            Err(Fault::Invalid)
        } else {
            Ok(transform::transform_frame(body, x.w() * x.c(), x.h()))
        },
    }
}

/// The prediction mode of a frame.
pub open spec fn mode_of(fh: FrameHeader, x: Setting) -> PredictionMode {
    if fh.pred_mode != PRED_MODE_UNSET {
        PredictionMode::of_code(fh.pred_mode)
    } else {
        x.mode
    }
}

/// The image that a frame stands for that is not one of three planes.
#[verifier::opaque]
pub open spec fn flat_result(data: Seq<u8>, x: Setting) -> Result<Seq<i32>, Fault> {
    if data.len() < FRAME_HEADER_SIZE {
        Err(Fault::Short { expected: FRAME_HEADER_SIZE as int, actual: data.len() as int })
    } else {
        let fh = FrameHeader::parsed(data);
        let body = data.skip(FRAME_HEADER_SIZE as int);
        if x.golomb() && fh.frame_type == 2 {
            let bh = (fh.coding_params % 128) as int;
            if bh == 32 || bh == 64 {
                banded::banded_result(body, x.w(), x.h(), x.c(), bh)
            } else {
                Err(Fault::Invalid)
            }
        } else if x.golomb() && fh.frame_type == 3 {
            Err(Fault::Invalid)
        } else if x.golomb() && fh.frame_type == 4 {
            palette::palette_result(body, x.n() as nat, fh.coding_params, x.w() as nat)
        } else if x.golomb() && fh.frame_type == 7 {
            intrabc::intrabc_result(body, x.w(), x.h(), x.c())
        } else if x.golomb() && fh.frame_type == 8 {
            intra_transform::intra_result(body, x.w(), x.h(), x.c())
        } else {
            match residuals_result(body, fh, x) {
                Err(f) => Err(f),
                Ok(res) => if x.golomb() && fh.frame_type == 6 {
                    Ok(res)
                } else {
                    Ok(predict::undo_from(Seq::empty(), res, x.w(), x.c(), mode_of(fh, x)))
                },
            }
        }
    }
}

/// The setting for one of three planes.
pub open spec fn plane_setting(x: Setting, small: bool) -> Setting {
    Setting {
        ct: x.ct,
        width: if small {
            blocks::tiles_along(x.w(), 2) as usize
        } else {
            x.width
        },
        height: if small {
            blocks::tiles_along(x.h(), 2) as usize
        } else {
            x.height
        },
        components: 1,
        mode: x.mode,
    }
}

/// The plane at `off` in a payload, and the offset behind it.
pub open spec fn plane_at(data: Seq<u8>, off: int, x: Setting) -> Result<(Seq<i32>, int), Fault> {
    match framing::part_at(data, off) {
        Err(_) => Err(Fault::Invalid),
        Ok((sub, end)) => match flat_result(sub, x) {
            Err(f) => Err(f),
            Ok(px) => Ok((px, end)),
        },
    }
}

/// A chroma plane at full size with its share of luma added.
pub open spec fn chroma_back(y: Seq<i32>, ch: Seq<i32>, x: Setting, half: bool, a: int) -> Seq<i32> {
    let full = if half {
        planar::upsampled(
            ch,
            blocks::tiles_along(x.w(), 2),
            blocks::tiles_along(x.h(), 2),
            x.w(),
            x.h(),
        )
    } else {
        ch
    };
    planar::plus_share(y, full, a)
}

/// The image that a payload of three planes stands for.
pub open spec fn planar_result(data: Seq<u8>, x: Setting) -> Result<Seq<i32>, Fault> {
    if x.c() != 3 {
        Err(Fault::Invalid)
    } else if data.len() < 2 {
        Err(Fault::Short { expected: 2, actual: data.len() as int })
    } else {
        let half = data[1] % 2 == 1;
        match plane_at(data, 2, plane_setting(x, false)) {
            Err(f) => Err(f),
            Ok((y, p)) => match plane_at(data, p, plane_setting(x, half)) {
                Err(f) => Err(f),
                Ok((a, q)) => match plane_at(data, q, plane_setting(x, half)) {
                    Err(f) => Err(f),
                    Ok((b, _)) => Ok(
                        plane::interleaved(
                            seq![
                                y,
                                chroma_back(y, a, x, half, data[0] as int / 16 - 8),
                                chroma_back(y, b, x, half, data[0] as int % 16 - 8),
                            ],
                            (x.w() * x.h()) as nat,
                        ),
                    ),
                },
            },
        }
    }
}

/// The image that a frame stands for.
pub open spec fn frame_result(data: Seq<u8>, x: Setting) -> Result<Seq<i32>, Fault> {
    if data.len() >= FRAME_HEADER_SIZE && x.golomb() && FrameHeader::parsed(data).frame_type == 3 {
        planar_result(data.skip(FRAME_HEADER_SIZE as int), x)
    } else {
        flat_result(data, x)
    }
}

/// Bounds on the sizes of an image.
pub proof fn lemma_setting(x: Setting)
    requires
        x.ok(),
    ensures
        1 <= x.w() * x.c() <= 0xffff * 4,
        x.n() == x.w() * x.h() * x.c(),
        x.n() == (x.w() * x.c()) * x.h(),
        x.n() == x.w() * x.c() * x.h(),
        1 <= x.w() * x.h() <= x.n(),
        x.w() * x.h() == x.h() * x.w(),
        x.w() * x.c() <= x.n(),
{
    frame::lemma_counts(x.w(), x.h(), x.c());
    let (w, h, c) = (x.w(), x.h(), x.c());
    assert(1 <= w * c <= 0xffff * 4) by (nonlinear_arith)
        requires
            1 <= w <= 0xffff,
            1 <= c <= 4,
    ;
    assert(1 <= w * h && w * h <= w * h * c && w * h == h * w) by (nonlinear_arith)
        requires
            w >= 1,
            h >= 1,
            c >= 1,
    ;
    assert(w * c <= h * (w * c)) by (nonlinear_arith)
        requires
            h >= 1,
            w * c >= 1,
    ;
}

fn decode_residuals(body: &[u8], fh: FrameHeader, x: Setting) -> (r: CrfResult<Vec<i32>>)
    requires
        x.ok(),
    ensures
        error::agrees(r, residuals_result(body@, fh, x)),
        r is Ok ==> r->Ok_0@.len() == x.n(),
{
    proof {
        lemma_setting(x);
    }
    let stride: usize = x.width * x.components;
    let n: usize = x.height * stride;
    let len: usize = body.len();
    match x.ct {
        CompressionType::GolombRice => {
            if fh.frame_type == 1 {
                proof {
                    rle_golomb::lemma_rle_len(
                        bits::bits_of(body@),
                        0,
                        (fh.coding_params % 128) as nat,
                        n as nat,
                    );
                }
                Ok(decode_frame_rle_golomb(body, fh.golomb_k(), n))
            } else if fh.frame_type == 5 || fh.frame_type == 6 {
                if fh.frame_type == 5 && len == 0 {
                    return Err(CrfError::InsufficientData { expected: 1, actual: 0 });
                }
                if fh.frame_type == 6 && len < 2 {
                    return Err(CrfError::InsufficientData { expected: 2, actual: 0 });
                }
                let rest: &[u8] = vstd::slice::slice_subrange(body, 1, len);
                assert(rest@ =~= body@.skip(1));
                if !check_body(rest) {
                    return Err(invalid("damaged context tree"));
                }
                if fh.frame_type == 5 {
                    proof {
                        rle_cabac::lemma_cabac_len(
                            rest@,
                            body@[0] as nat,
                            n as nat,
                            Some(stride),
                        );
                    }
                    Ok(decode_frame_rle_cabac(rest, body[0], n, Some(stride)))
                } else {
                    let flags: u8 = body[0];
                    proof {
                        rle_cabac::lemma_cabac_len(rest@, (flags % 16) as nat, n as nat, None);
                    }
                    let levels: Vec<i32> = decode_frame_rle_cabac(rest, flags % 16, n, None);
                    let bw: usize = if (flags / 32) % 2 == 1 {
                        8
                    } else {
                        4
                    };
                    let bh: usize = if flags / 128 == 1 {
                        8
                    } else {
                        4
                    };
                    Ok(
                        dct_dequantize_inverse_interleaved_bs(
                            &levels,
                            x.width,
                            x.height,
                            x.components,
                            bw,
                            bh,
                        ),
                    )
                }
            } else {
                proof {
                    golomb::lemma_golomb_len(
                        body@,
                        fh.coding_params,
                        n as nat,
                        x.w(),
                        x.h(),
                        x.c(),
                    );
                }
                Ok(decode_frame_golomb(body, fh.coding_params, n, x.width, x.height, x.components))
            }
        },
        CompressionType::ExpGolomb => {
            proof {
                codes::lemma_exps_len(
                    bits::bits_of(body@),
                    0,
                    exp_golomb::EXP_CAP as nat,
                    n as nat,
                );
            }
            Ok(decode_frame_exp_golomb(body, n))
        },
        CompressionType::Transform => {
            if len > 0 && body[0] == 0 {
                return Err(invalid("block size"));
            }
            Ok(decode_frame_transform(body, stride, x.height))
        },
    }
}

/// Decodes a frame that is not one of three planes.
fn decode_flat(data: &[u8], x: Setting) -> (r: CrfResult<Vec<i32>>)
    requires
        x.ok(),
    ensures
        error::agrees(r, flat_result(data@, x)),
        r is Ok ==> r->Ok_0@.len() == x.n(),
{
    proof {
        lemma_setting(x);
        reveal(flat_result);
    }
    let fh: FrameHeader = match FrameHeader::from_bytes(data) {
        Ok(h) => h,
        Err(e) => {
            return Err(e);
        },
    };
    let body: &[u8] = vstd::slice::slice_subrange(data, FRAME_HEADER_SIZE, data.len());
    assert(body@ =~= data@.skip(FRAME_HEADER_SIZE as int));
    let golomb: bool = match x.ct {
        CompressionType::GolombRice => true,
        _ => false,
    };
    let n: usize = x.height * (x.width * x.components);
    if golomb && fh.frame_type == 2 {
        let bh: usize = fh.golomb_k() as usize;
        if bh != 32 && bh != 64 {
            return Err(invalid("band height"));
        }
        return decode_banded_with_undo(body, x.width, x.height, x.components, bh);
    }
    if golomb && fh.frame_type == 3 {
        return Err(invalid("planes within a plane"));
    }
    if golomb && fh.frame_type == 4 {
        return decode_palette_payload(body, n, fh.coding_params, x.width);
    }
    if golomb && fh.frame_type == 7 {
        return decode_intrabc_payload(body, x.width, x.height, x.components);
    }
    if golomb && fh.frame_type == 8 {
        if x.components != 3 {
            return Err(invalid("components"));
        }
        return decode_intra_transform(body, x.width, x.height, x.components);
    }
    let res: Vec<i32> = match decode_residuals(body, fh, x) {
        Ok(v) => v,
        Err(e) => {
            return Err(e);
        },
    };
    if golomb && fh.frame_type == 6 {
        return Ok(res);
    }
    let mode: PredictionMode = if fh.pred_mode != PRED_MODE_UNSET {
        PredictionMode::from_u8(fh.pred_mode)
    } else {
        x.mode
    };
    Ok(undo_prediction(&res, x.width, x.components, mode))
}

fn decode_plane_at(data: &[u8], off: usize, x: Setting) -> (r: CrfResult<(Vec<i32>, usize)>)
    requires
        x.ok(),
        off <= data@.len(),
    ensures
        match r {
            Ok((v, p)) => plane_at(data@, off as int, x) == Ok::<(Seq<i32>, int), Fault>(
                (v@, p as int),
            ) && p <= data@.len() && v@.len() == x.n(),
            Err(e) => plane_at(data@, off as int, x) == Err::<(Seq<i32>, int), Fault>(
                error::fault(e),
            ),
        },
{
    match get_part(data, off) {
        Err(_) => Err(invalid("plane out of bounds")),
        Ok((a, b)) => {
            let sub: &[u8] = vstd::slice::slice_subrange(data, a, b);
            match decode_flat(sub, x) {
                Ok(v) => Ok((v, b)),
                Err(e) => Err(e),
            }
        },
    }
}

/// Half sizes.
pub proof fn lemma_plane_setting(x: Setting, small: bool)
    requires
        x.ok(),
    ensures
        plane_setting(x, small).ok(),
        plane_setting(x, false).n() == x.w() * x.h(),
        plane_setting(x, true).n() == blocks::tiles_along(x.h(), 2) * blocks::tiles_along(x.w(), 2),
        1 <= blocks::tiles_along(x.w(), 2) <= x.w(),
        1 <= blocks::tiles_along(x.h(), 2) <= x.h(),
        x.w() <= 2 * blocks::tiles_along(x.w(), 2),
        x.h() <= 2 * blocks::tiles_along(x.h(), 2),
{
    lemma_setting(x);
    let (cw, ch) = (blocks::tiles_along(x.w(), 2), blocks::tiles_along(x.h(), 2));
    assert(ch * (cw * 1) <= x.h() * x.w() && ch * (cw * 1) == ch * cw) by (nonlinear_arith)
        requires
            0 <= ch <= x.h(),
            0 <= cw <= x.w(),
    ;
    assert(x.h() * (x.w() * 1) == x.w() * x.h()) by (nonlinear_arith);
}

fn full_chroma(y: &Vec<i32>, ch: &Vec<i32>, x: Setting, half: bool, a: i32) -> (r: Vec<i32>)
    requires
        x.ok(),
        y@.len() == x.w() * x.h(),
        ch@.len() == plane_setting(x, half).n(),
        -8 <= a <= 7,
    ensures
        r@ == chroma_back(y@, ch@, x, half, a as int),
        r@.len() == x.w() * x.h(),
{
    proof {
        lemma_setting(x);
        lemma_plane_setting(x, half);
    }
    if half {
        let up: Vec<i32> = upsample_2x_bilinear(
            ch,
            div_up(x.width, 2),
            div_up(x.height, 2),
            x.width,
            x.height,
        );
        cfl_luma_add(&up, y, a)
    } else {
        cfl_luma_add(ch, y, a)
    }
}

fn join_planes(y: Vec<i32>, a: Vec<i32>, b: Vec<i32>, x: Setting) -> (r: Vec<i32>)
    requires
        x.ok(),
        x.components == 3,
        y@.len() == x.w() * x.h(),
        a@.len() == x.w() * x.h(),
        b@.len() == x.w() * x.h(),
    ensures
        r@ == plane::interleaved(seq![y@, a@, b@], (x.w() * x.h()) as nat),
        r@.len() == x.n(),
{
    proof {
        lemma_setting(x);
    }
    let ghost want = seq![y@, a@, b@];
    let mut planes: Vec<Vec<i32>> = Vec::new();
    planes.push(y);
    planes.push(a);
    planes.push(b);
    assert(blocks::views(planes@) =~= want);
    proof {
        plane::lemma_deinterleave(want, (x.w() * x.h()) as nat);
        assert((x.w() * x.h()) * 3 == x.n()) by (nonlinear_arith)
            requires
                x.n() == x.w() * x.h() * x.c(),
                x.c() == 3,
        ;
    }
    interleave(&planes, x.width * x.height)
}

/// Decodes a payload of three planes.
pub fn decode_planar(data: &[u8], x: Setting) -> (r: CrfResult<Vec<i32>>)
    requires
        x.ok(),
    ensures
        error::agrees(r, planar_result(data@, x)),
        r is Ok ==> r->Ok_0@.len() == x.n(),
{
    if x.components != 3 {
        return Err(invalid("planes of an image without three components"));
    }
    let len: usize = data.len();
    if len < 2 {
        return Err(short(0, 2, len));
    }
    let half: bool = data[1] % 2 == 1;
    let a: i32 = data[0] as i32 / 16 - 8;
    let b: i32 = data[0] as i32 % 16 - 8;
    proof {
        lemma_setting(x);
        lemma_plane_setting(x, half);
        lemma_plane_setting(x, false);
    }
    let xf = Setting { ct: x.ct, width: x.width, height: x.height, components: 1, mode: x.mode };
    let xs = if half {
        Setting {
            ct: x.ct,
            width: div_up(x.width, 2),
            height: div_up(x.height, 2),
            components: 1,
            mode: x.mode,
        }
    } else {
        xf
    };
    let (y, p): (Vec<i32>, usize) = match decode_plane_at(data, 2, xf) {
        Ok(v) => v,
        Err(e) => {
            return Err(e);
        },
    };
    let (co, q): (Vec<i32>, usize) = match decode_plane_at(data, p, xs) {
        Ok(v) => v,
        Err(e) => {
            return Err(e);
        },
    };
    let (cg, _end): (Vec<i32>, usize) = match decode_plane_at(data, q, xs) {
        Ok(v) => v,
        Err(e) => {
            return Err(e);
        },
    };
    let co2: Vec<i32> = full_chroma(&y, &co, x, half, a);
    let cg2: Vec<i32> = full_chroma(&y, &cg, x, half, b);
    Ok(join_planes(y, co2, cg2, x))
}

/// Decodes a frame with the given setting.
pub fn decode_frame(data: &[u8], x: Setting) -> (r: CrfResult<Vec<i32>>)
    requires
        x.ok(),
    ensures
        error::agrees(r, frame_result(data@, x)),
        r is Ok ==> r->Ok_0@.len() == x.n(),
{
    let len: usize = data.len();
    if len >= FRAME_HEADER_SIZE {
        let golomb: bool = match x.ct {
            CompressionType::GolombRice => true,
            _ => false,
        };
        if golomb && data[8] == 3 {
            let body: &[u8] = vstd::slice::slice_subrange(data, FRAME_HEADER_SIZE, len);
            assert(body@ =~= data@.skip(FRAME_HEADER_SIZE as int));
            return decode_planar(body, x);
        }
    }
    decode_flat(data, x)
}

pub proof fn lemma_sizes(h: &CrfHeader)
    requires
        sizes_ok(h),
    ensures
        setting_of(h).ok(),
        setting_of(h).n() == h.shape().samples(),
{
    frame::lemma_counts(
        h.width as int,
        h.height as int,
        h.color_format.spec_count() as int,
    );
}

/// What the frames of a file are decoded with.
pub fn make_setting(header: &CrfHeader) -> (x: Setting)
    ensures
        x == setting_of(header),
{
    Setting {
        ct: header.compression_type,
        width: header.width as usize,
        height: header.height as usize,
        components: header.color_format.component_count(),
        mode: header.prediction_mode,
    }
}

/// What decoding a frame to an image gives.
pub open spec fn agrees_image(
    r: CrfResult<ImageData>,
    s: Result<Seq<i32>, Fault>,
    h: &CrfHeader,
) -> bool {
    match r {
        Ok(v) => s == Ok::<Seq<i32>, Fault>(v.pixels@) && v.shape() == h.shape() && v.wf(),
        Err(e) => s == Err::<Seq<i32>, Fault>(error::fault(e)),
    }
}

/// Decodes a frame of a file.
pub fn reconstruct_frame(data: &[u8], header: &CrfHeader) -> (r: CrfResult<ImageData>)
    requires
        sizes_ok(header),
    ensures
        agrees_image(r, frame_result(data@, setting_of(header)), header),
{
    proof {
        lemma_sizes(header);
    }
    let x: Setting = make_setting(header);
    match decode_frame(data, x) {
        Ok(pixels) => Ok(
            ImageData {
                width: header.width,
                height: header.height,
                bit_depth: header.bit_depth,
                color_format: header.color_format,
                pixels,
            },
        ),
        Err(e) => Err(e),
    }
}

/// A frame that is not one of three planes gives as many samples as the image has.
proof fn lemma_flat_samples(data: Seq<u8>, x: Setting)
    requires
        x.ok(),
        x.golomb(),
    ensures
        flat_result(data, x) is Ok ==> flat_result(data, x)->Ok_0.len() == x.n(),
{
    reveal(flat_result);
    lemma_setting(x);
    if data.len() >= FRAME_HEADER_SIZE {
        let fh = FrameHeader::parsed(data);
        let body = data.skip(FRAME_HEADER_SIZE as int);
        let n = x.n() as nat;
        palette::lemma_palette_len(body, n, fh.coding_params, x.w() as nat);
        intrabc::lemma_intrabc_len(body, x.w(), x.h(), x.c());
        intra_transform::lemma_intra_len(body, x.w(), x.h(), x.c());
        rle_golomb::lemma_rle_len(bits::bits_of(body), 0, (fh.coding_params % 128) as nat, n);
        rle_cabac::lemma_cabac_len(
            body.skip(1),
            body[0] as nat,
            n,
            Some((x.w() * x.c()) as usize),
        );
        golomb::lemma_golomb_len(body, fh.coding_params, n, x.w(), x.h(), x.c());
        if residuals_result(body, fh, x) is Ok {
            predict::lemma_undo_len(
                Seq::empty(),
                residuals_result(body, fh, x)->Ok_0,
                x.w(),
                x.c(),
                mode_of(fh, x),
            );
        }
    }
}

/// A frame gives as many samples as the image has.
pub proof fn lemma_frame_samples(data: Seq<u8>, x: Setting)
    requires
        x.ok(),
        x.golomb(),
    ensures
        frame_result(data, x) is Ok ==> frame_result(data, x)->Ok_0.len() == x.n(),
{
    lemma_flat_samples(data, x);
    lemma_setting(x);
}

} // verus!

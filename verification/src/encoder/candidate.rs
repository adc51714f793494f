//! Ways to code a frame that compete: the shortest wins, the first of equals.

use vstd::prelude::*;
use crate::common::choose_k;
use crate::common::dct;
use crate::common::dct::perceptual_qm;
use crate::common::domain;
use crate::common::domain::{
    CompressionType,
    ImageData,
    PredictionMode,
    BAND_HEIGHT,
    FRAME_HEADER_SIZE,
};
use crate::common::error;
use crate::common::error::{CrfResult, Fault};
use crate::common::le::put_bytes;
use crate::common::par::par_map;
use crate::common::plane;
use crate::common::quant;
use crate::encoder::banded;
use crate::encoder::banded::encode_banded_payload;
use crate::encoder::cost;
use crate::encoder::cost::{residual_activity_for_mode_sampled, satd_for_mode_sampled};
use crate::encoder::dct_path;
use crate::encoder::dct_path::dct_quantize_interleaved_bs;
use crate::encoder::frame;
use crate::encoder::frame::{
    assemble_frame,
    encode_frame_inner,
    encode_frame_inner_limited,
    residuals_of,
    write_frame,
    Coded,
    FrameQuant,
    Pic,
};
use crate::encoder::intra_transform;
use crate::encoder::intra_transform::encode_intra_transform_payload;
use crate::encoder::intrabc;
use crate::encoder::intrabc::encode_intrabc_payload;
use crate::encoder::palette;
use crate::encoder::palette::{encode_palette_payload, palette_plausible};
use crate::encoder::ranking;
use crate::encoder::ranking::{candidate_mode, least_exec, CANDIDATES};
use crate::encoder::rdoq;
use crate::encoder::rdoq::trellis_quantize_interleaved;
use crate::encoder::rle_cabac;
use crate::encoder::rle_cabac::{
    encode_frame_rle_cabac_adaptive,
    encode_frame_rle_cabac_adaptive_limited,
};

verus! {

/// Rows of a tall band.
pub const BAND_HEIGHT_ALT: usize = 64;

/// Height from which on tall bands compete.
pub const TALL_BANDS_FROM: usize = 128;

/// A frame that competes, and its mode if it has one.
pub struct Entry {
    pub data: Seq<u8>,
    pub mode: Option<PredictionMode>,
}

/// A coded frame and its prediction mode, if it has one for the whole frame.
#[derive(Debug)]
pub struct AdaptiveOutput {
    pub data: Vec<u8>,
    pub pred_mode: Option<PredictionMode>,
}

impl AdaptiveOutput {
    pub open spec fn view(&self) -> Entry {
        Entry { data: self.data@, mode: self.pred_mode }
    }
}

/// The shorter of two frames, the first if they are equally long.
pub open spec fn shorter(a: Entry, b: Entry) -> Entry {
    if b.data.len() < a.data.len() {
        b
    } else {
        a
    }
}

/// The estimates for the modes that compete.
pub open spec fn costs(p: Pic) -> Seq<int> {
    Seq::new(
        CANDIDATES as nat,
        |i: int| cost::satd(p.px, p.w, p.h, p.c, ranking::candidate(i)),
    )
}

/// The number of a mode among those that compete, if it is one.
pub open spec fn number_of(m: PredictionMode) -> int {
    match m {
        PredictionMode::Off => -1,
        PredictionMode::Horizontal => 0,
        PredictionMode::Vertical => 1,
        PredictionMode::Average => 2,
        PredictionMode::DC => 3,
        PredictionMode::Med => 4,
        PredictionMode::Paeth => 5,
        PredictionMode::TopRight => 6,
        PredictionMode::Diagonal => 7,
    }
}

/// The mode that leads: the preferred one if it competes, else the one with the best estimate.
pub open spec fn lead(p: Pic, preferred: Option<PredictionMode>) -> int {
    match preferred {
        Some(m) => if number_of(m) >= 0 {
            number_of(m)
        } else {
            ranking::least(costs(p), -1, CANDIDATES as nat)
        },
        None => ranking::least(costs(p), -1, CANDIDATES as nat),
    }
}

/// The mode that leads.
pub open spec fn lead_mode(p: Pic, preferred: Option<PredictionMode>) -> PredictionMode {
    ranking::candidate(lead(p, preferred))
}

/// The best of the other modes.
pub open spec fn next_mode(p: Pic, preferred: Option<PredictionMode>) -> PredictionMode {
    ranking::candidate(ranking::least(costs(p), lead(p, preferred), CANDIDATES as nat))
}

/// The shorter of the frames of the two best modes.
pub open spec fn opening(
    p: Pic,
    ct: CompressionType,
    block_size: u16,
    first: bool,
    fq: FrameQuant,
    preferred: Option<PredictionMode>,
    bands: Option<Seq<u8>>,
) -> Result<Entry, Fault> {
    let (a, b) = (lead_mode(p, preferred), next_mode(p, preferred));
    match frame::plain_frame(p, ct, block_size, a, first, fq, bands) {
        Err(f) => Err(f),
        Ok(d) => match frame::plain_frame(p, ct, block_size, b, first, fq, bands) {
            Err(f) => Err(f),
            Ok(e) => Ok(
                shorter(Entry { data: d, mode: Some(a) }, Entry { data: e, mode: Some(b) }),
            ),
        },
    }
}

/// A frame without a mode of its own.
pub open spec fn entry(p: Pic, body: Seq<u8>, param: u8, kind: u8) -> Entry {
    Entry {
        data: frame::frame_bytes(p, Coded { body, param, kind }, domain::PRED_MODE_UNSET),
        mode: None,
    }
}

/// With the frame of three planes competing, where there is one.
pub open spec fn with_planar(best: Entry, p: Pic, planar: Option<Seq<u8>>) -> Entry {
    match planar {
        Some(body) => shorter(best, entry(p, body, 0, 3)),
        None => best,
    }
}

/// The payload of bands, and their height.
pub open spec fn bands_of(p: Pic) -> (Seq<u8>, u8) {
    let a = banded::banded_payload(p.px, p.w, p.h, p.c, BAND_HEIGHT as int);
    let b = banded::banded_payload(p.px, p.w, p.h, p.c, BAND_HEIGHT_ALT as int);
    if p.h >= TALL_BANDS_FROM && b.len() < a.len() {
        (b, BAND_HEIGHT_ALT as u8)
    } else {
        (a, BAND_HEIGHT as u8)
    }
}

/// With the frame of bands competing.
pub open spec fn with_banded(best: Entry, p: Pic) -> Entry {
    shorter(best, entry(p, bands_of(p).0, bands_of(p).1, 2))
}

/// With the frame of palette places competing, where there are few values.
pub open spec fn with_palette(best: Entry, p: Pic) -> Entry {
    if palette::plausible(p.px, p.c as nat) {
        match palette::palette_payload(p.px, p.w as nat) {
            Some(body) => shorter(best, entry(p, body, 1, 4)),
            None => best,
        }
    } else {
        best
    }
}

/// The payload of blocks that may repeat.
pub open spec fn copies_of(p: Pic) -> Seq<u8> {
    intrabc::intrabc_payload(intrabc::Sheet { px: p.px, w: p.w, h: p.h, c: p.c })
}

/// With the frame of blocks that may repeat competing, for the first frame if it has colours.
pub open spec fn with_copies(best: Entry, p: Pic, first: bool, enabled: bool) -> Entry {
    if enabled && first && p.c > 1 {
        shorter(best, entry(p, copies_of(p), 0, 7))
    } else {
        best
    }
}

/// Sum and number of the magnitudes by which the leading mode is judged.
pub open spec fn activity(p: Pic, preferred: Option<PredictionMode>) -> (int, int) {
    (
        cost::sampled_sad(p.px, p.w, p.c, lead_mode(p, preferred), p.h as nat),
        cost::sampled_count(p.w, p.c, p.h),
    )
}

/// Whether magnitudes are one half on average.
pub open spec fn cabac_worth(p: Pic, preferred: Option<PredictionMode>) -> bool {
    let (s, n) = activity(p, preferred);
    2 * s >= n
}

/// Whether magnitudes are a tenth of the step on average.
pub open spec fn dct_worth(p: Pic, preferred: Option<PredictionMode>, fq: FrameQuant) -> bool {
    let (s, n) = activity(p, preferred);
    10 * s >= quant::at_least_one(fq.step) * n
}

/// Residuals coded on top of the range coder.
pub open spec fn cabac_coded(res: Seq<i32>, stride: usize) -> Coded {
    let k = rle_cabac::cabac_k(res) as u8;
    Coded { body: seq![k] + rle_cabac::cabac_body(res, Some(stride)), param: k, kind: 5 }
}

/// With the leading mode's frame on top of the range coder competing.
pub open spec fn with_cabac(
    best: Entry,
    p: Pic,
    fq: FrameQuant,
    preferred: Option<PredictionMode>,
    bands: Option<Seq<u8>>,
) -> Entry {
    if cabac_worth(p, preferred) {
        let m = lead_mode(p, preferred);
        let c = cabac_coded(
            frame::frame_residuals(p, m, fq, bands),
            (p.w * p.c) as usize,
        );
        shorter(best, Entry { data: frame::frame_bytes(p, c, m.code()), mode: Some(m) })
    } else {
        best
    }
}

/// The shape of transformed blocks, and whether steps are weighted.
#[derive(Clone, Copy, PartialEq, Eq, Debug, Structural)]
pub struct Variant {
    pub bw: usize,
    pub bh: usize,
    pub weighted: bool,
}

/// The shapes and weights that compete.
pub open spec fn variants(fq: FrameQuant) -> Seq<Variant> {
    if fq.spec_lossy() && !fq.q1_matrix_scale {
        seq![
            Variant { bw: 4, bh: 4, weighted: false },
            Variant { bw: 8, bh: 8, weighted: false },
            Variant { bw: 4, bh: 4, weighted: true },
            Variant { bw: 8, bh: 8, weighted: true },
            Variant { bw: 8, bh: 4, weighted: true },
            Variant { bw: 4, bh: 8, weighted: true },
        ]
    } else {
        let weighted = fq.spec_lossy();
        seq![
            Variant { bw: 4, bh: 4, weighted },
            Variant { bw: 8, bh: 8, weighted },
            Variant { bw: 8, bh: 4, weighted },
            Variant { bw: 4, bh: 8, weighted },
        ]
    }
}

/// The first byte of a payload of transformed blocks.
pub open spec fn flag_byte(k: nat, v: Variant, searched: bool) -> u8 {
    (k + (if searched {
        0x10int
    } else {
        0
    }) + (if v.bw == 8 {
        0x20int
    } else {
        0
    }) + (if v.weighted {
        0x40int
    } else {
        0
    }) + (if v.bh == 8 {
        0x80int
    } else {
        0
    })) as u8
}

/// A payload of transformed blocks.
pub open spec fn levels_body(levels: Seq<i32>, v: Variant, searched: bool) -> Seq<u8> {
    seq![flag_byte(rle_cabac::cabac_k(levels), v, searched)] + rle_cabac::cabac_body(levels, None)
}

/// The levels of an image for one shape.
pub open spec fn levels_of(p: Pic, fq: FrameQuant, v: Variant) -> Seq<i32> {
    dct_path::quant_interleaved(
        p.px,
        p.w,
        p.h,
        p.c,
        if fq.spec_lossy() {
            quant::at_least_one(fq.step) as u8
        } else {
            1
        },
        v.bw as int,
        v.bh as int,
        v.weighted,
        fq.q1_matrix_scale && v.weighted,
    )
}

/// The payload of an image for one shape.
#[verifier::opaque]
pub open spec fn dct_body(p: Pic, fq: FrameQuant, v: Variant) -> Seq<u8> {
    levels_body(levels_of(p, fq, v), v, false)
}

/// The best of the first `n` shapes.
pub open spec fn best_variant(p: Pic, fq: FrameQuant, n: nat) -> int
    decreases n,
{
    if n <= 1 {
        0
    } else {
        let b = best_variant(p, fq, (n - 1) as nat);
        if dct_body(p, fq, variants(fq)[n - 1]).len() < dct_body(p, fq, variants(fq)[b]).len() {
            n - 1
        } else {
            b
        }
    }
}

/// The payload for one shape with levels that were searched for.
#[verifier::opaque]
pub open spec fn searched_body(p: Pic, fq: FrameQuant, v: Variant) -> Seq<u8> {
    levels_body(
        rdoq::trellis_interleaved(
            p.px,
            p.w,
            p.h,
            p.c,
            fq.step,
            v.bw as int,
            v.bh as int,
            dct::qm_table(v.bw as int, v.bh as int),
        ),
        v,
        true,
    )
}

/// The shortest payload of transformed blocks.
pub open spec fn best_dct_body(p: Pic, fq: FrameQuant) -> Seq<u8> {
    let v = variants(fq)[best_variant(p, fq, variants(fq).len())];
    let plain = dct_body(p, fq, v);
    if fq.spec_lossy() && !fq.q1_matrix_scale && v.weighted {
        let s = searched_body(p, fq, v);
        if s.len() < plain.len() {
            s
        } else {
            plain
        }
    } else {
        plain
    }
}

/// With the frame of transformed blocks competing.
pub open spec fn with_dct(best: Entry, p: Pic, fq: FrameQuant) -> Entry {
    let body = best_dct_body(p, fq);
    shorter(best, entry(p, body, body[0] % 16, 6))
}

/// With the frame of predicted and transformed blocks competing, for three components.
pub open spec fn with_intra(best: Entry, p: Pic, fq: FrameQuant) -> Entry {
    if p.c == 3 {
        shorter(
            best,
            entry(
                p,
                intra_transform::intra_payload(
                    p.px,
                    p.w,
                    p.h,
                    fq.step,
                    fq.bias,
                    fq.chroma_step,
                    fq.chroma_bias,
                ),
                0,
                8,
            ),
        )
    } else {
        best
    }
}

/// With the frames competing that lose nothing.
pub open spec fn with_exact(best: Entry, p: Pic, first: bool, copies: bool) -> Entry {
    with_copies(with_palette(with_banded(best, p), p), p, first, copies)
}

/// With the transformed frames competing, where they may be worth it.
pub open spec fn with_transformed(
    best: Entry,
    p: Pic,
    fq: FrameQuant,
    preferred: Option<PredictionMode>,
) -> Entry {
    if dct_worth(p, preferred, fq) && !(p.c == 1 && !fq.spec_lossy()) {
        with_intra(with_dct(best, p, fq), p, fq)
    } else {
        best
    }
}

/// The frame that wins among all but those of three planes.
pub open spec fn contest(
    p: Pic,
    ct: CompressionType,
    block_size: u16,
    first: bool,
    fq: FrameQuant,
    preferred: Option<PredictionMode>,
    bands: Option<Seq<u8>>,
    planar: Option<Seq<u8>>,
    copies: bool,
) -> Result<Entry, Fault> {
    match opening(p, ct, block_size, first, fq, preferred, bands) {
        Err(f) => Err(f),
        Ok(e) => if ct == CompressionType::GolombRice {
            let a = with_planar(e, p, planar);
            let b = if fq.spec_lossy() {
                a
            } else {
                with_exact(a, p, first, copies)
            };
            Ok(with_transformed(with_cabac(b, p, fq, preferred, bands), p, fq, preferred))
        } else {
            Ok(e)
        },
    }
}

/// What a contest gives.
pub open spec fn agrees_entry(r: CrfResult<AdaptiveOutput>, s: Result<Entry, Fault>) -> bool {
    match r {
        Ok(v) => s == Ok::<Entry, Fault>(v@),
        Err(e) => s == Err::<Entry, Fault>(error::fault(e)),
    }
}

fn keep_shorter(best: AdaptiveOutput, data: Vec<u8>, pred_mode: Option<PredictionMode>) -> (r:
    AdaptiveOutput)
    ensures
        r@ == shorter(best@, (Entry { data: data@, mode: pred_mode })),
{
    if data.len() < best.data.len() {
        AdaptiveOutput { data, pred_mode }
    } else {
        best
    }
}

fn number_of_exec(m: PredictionMode) -> (n: Option<usize>)
    ensures
        match n {
            Some(k) => k == number_of(m) && k < CANDIDATES,
            None => number_of(m) < 0,
        },
{
    match m {
        PredictionMode::Off => None,
        PredictionMode::Horizontal => Some(0),
        PredictionMode::Vertical => Some(1),
        PredictionMode::Average => Some(2),
        PredictionMode::DC => Some(3),
        PredictionMode::Med => Some(4),
        PredictionMode::Paeth => Some(5),
        PredictionMode::TopRight => Some(6),
        PredictionMode::Diagonal => Some(7),
    }
}

/// The estimate of a mode is `s`.
pub open spec fn is_cost(p: Pic, m: PredictionMode, s: u128) -> bool {
    s == cost::satd(p.px, p.w, p.h, p.c, m)
}

fn judge_mode(image: &ImageData, m: PredictionMode) -> (s: u128)
    requires
        frame::codable(image),
    ensures
        is_cost(frame::pic(image), m, s),
{
    proof {
        frame::lemma_codable(image);
    }
    satd_for_mode_sampled(
        &image.pixels,
        image.width as usize,
        image.height as usize,
        image.color_format.component_count(),
        m,
    )
}

/// The two best modes.
fn rank(image: &ImageData, preferred: Option<PredictionMode>) -> (r: (PredictionMode, PredictionMode))
    requires
        frame::codable(image),
    ensures
        r.0 == lead_mode(frame::pic(image), preferred),
        r.1 == next_mode(frame::pic(image), preferred),
{
    let ghost p = frame::pic(image);
    proof {
        frame::lemma_codable(image);
    }
    let mut modes: Vec<PredictionMode> = Vec::new();
    let mut i: usize = 0;
    while i < CANDIDATES
        invariant
            i <= CANDIDATES,
            modes@.len() == i,
            forall|j: int| 0 <= j < i ==> #[trigger] modes@[j] == ranking::candidate(j),
        decreases CANDIDATES - i,
    {
        modes.push(candidate_mode(i));
        i = i + 1;
    }
    let judge = |m: &PredictionMode| -> (s: u128)
        requires
            frame::codable(image),
        ensures
            is_cost(frame::pic(image), *m, s),
        {
            judge_mode(image, *m)
        };
    let all: Vec<u128> = par_map(&modes, judge);
    proof {
        assert forall|j: int| 0 <= j < CANDIDATES implies ranking::as_ints(all@)[j] == costs(p)[j] by {
            assert(is_cost(p, modes@[j], all@[j]));
        }
        assert(ranking::as_ints(all@) =~= costs(p));
        ranking::lemma_least(costs(p), -1, CANDIDATES as nat);
    }
    let named: Option<usize> = match preferred {
        Some(m) => number_of_exec(m),
        None => None,
    };
    let a: usize = match named {
        Some(k) => k,
        None => least_exec(&all, CANDIDATES),
    };
    proof {
        ranking::lemma_least(costs(p), a as int, CANDIDATES as nat);
    }
    let b: usize = least_exec(&all, a);
    (candidate_mode(a), candidate_mode(b))
}

fn run_opening(
    image: &ImageData,
    ct: CompressionType,
    block_size: u16,
    first: bool,
    fq: FrameQuant,
    modes: (PredictionMode, PredictionMode),
    bands: Option<&Vec<u8>>,
    Ghost(preferred): Ghost<Option<PredictionMode>>,
) -> (r: CrfResult<AdaptiveOutput>)
    requires
        frame::codable(image),
        modes.0 == lead_mode(frame::pic(image), preferred),
        modes.1 == next_mode(frame::pic(image), preferred),
    ensures
        agrees_entry(
            r,
            opening(
                frame::pic(image),
                ct,
                block_size,
                first,
                fq,
                preferred,
                quant::bands_view(bands),
            ),
        ),
{
    let data: Vec<u8> = match encode_frame_inner(image, ct, block_size, modes.0, first, fq, bands) {
        Ok(d) => d,
        Err(e) => {
            return Err(e);
        },
    };
    let best = AdaptiveOutput { data, pred_mode: Some(modes.0) };
    match encode_frame_inner_limited(
        image,
        ct,
        block_size,
        modes.1,
        first,
        fq,
        bands,
        best.data.len(),
    ) {
        Err(e) => Err(e),
        Ok(None) => Ok(best),
        Ok(Some(d)) => Ok(keep_shorter(best, d, Some(modes.1))),
    }
}

fn run_planar(image: &ImageData, best: AdaptiveOutput, planar: Option<Vec<u8>>) -> (r: AdaptiveOutput)
    ensures
        r@ == with_planar(
            best@,
            frame::pic(image),
            match planar {
                Some(v) => Some(v@),
                None => None,
            },
        ),
{
    match planar {
        Some(body) => match assemble_frame(&body, image, 0, 3) {
            Ok(d) => keep_shorter(best, d, None),
            Err(_) => best,
        },
        None => best,
    }
}

fn run_banded(image: &ImageData, best: AdaptiveOutput) -> (r: AdaptiveOutput)
    requires
        frame::codable(image),
    ensures
        r@ == with_banded(best@, frame::pic(image)),
{
    let mut height: usize = BAND_HEIGHT;
    match encode_banded_payload(image, BAND_HEIGHT) {
        Ok(a) => {
            let mut body: Vec<u8> = a;
            if image.height as usize >= TALL_BANDS_FROM {
                match encode_banded_payload(image, BAND_HEIGHT_ALT) {
                    Ok(b) => {
                        if b.len() < body.len() {
                            body = b;
                            height = BAND_HEIGHT_ALT;
                        }
                    },
                    Err(_) => {},
                }
            }
            match assemble_frame(&body, image, height as u8, 2) {
                Ok(d) => keep_shorter(best, d, None),
                Err(_) => best,
            }
        },
        Err(_) => best,
    }
}

fn run_palette(image: &ImageData, best: AdaptiveOutput) -> (r: AdaptiveOutput)
    requires
        frame::codable(image),
    ensures
        r@ == with_palette(best@, frame::pic(image)),
{
    if palette_plausible(&image.pixels, image.color_format.component_count()) {
        match encode_palette_payload(&image.pixels, image.width as usize) {
            Some(body) => match assemble_frame(&body, image, 1, 4) {
                Ok(d) => {
                    return keep_shorter(best, d, None);
                },
                Err(_) => {},
            },
            None => {},
        }
    }
    best
}

fn run_copies(image: &ImageData, best: AdaptiveOutput, first: bool, enabled: bool) -> (r:
    AdaptiveOutput)
    requires
        frame::codable(image),
    ensures
        r@ == with_copies(best@, frame::pic(image), first, enabled),
{
    proof {
        frame::lemma_codable(image);
    }
    let components: usize = image.color_format.component_count();
    if enabled && first && components > 1 {
        match encode_intrabc_payload(
            &image.pixels,
            image.width as usize,
            image.height as usize,
            components,
        ) {
            Ok(body) => match assemble_frame(&body, image, 0, 7) {
                Ok(d) => {
                    return keep_shorter(best, d, None);
                },
                Err(_) => {},
            },
            Err(_) => {},
        }
    }
    best
}

fn run_cabac(
    image: &ImageData,
    best: AdaptiveOutput,
    fq: FrameQuant,
    mode: PredictionMode,
    bands: Option<&Vec<u8>>,
    sums: (u64, u64),
    Ghost(preferred): Ghost<Option<PredictionMode>>,
) -> (r: AdaptiveOutput)
    requires
        frame::codable(image),
        mode == lead_mode(frame::pic(image), preferred),
        sums.0 == activity(frame::pic(image), preferred).0,
        sums.1 == activity(frame::pic(image), preferred).1,
    ensures
        r@ == with_cabac(best@, frame::pic(image), fq, preferred, quant::bands_view(bands)),
{
    let ghost p = frame::pic(image);
    if 2 * (sums.0 as u128) < sums.1 as u128 {
        return best;
    }
    proof {
        frame::lemma_codable(image);
    }
    let res: Vec<i32> = residuals_of(image, mode, fq, bands);
    let stride: usize = image.width as usize * image.color_format.component_count();
    let limit: usize = if best.data.len() < FRAME_HEADER_SIZE + 1 {
        0
    } else {
        best.data.len() - (FRAME_HEADER_SIZE + 1)
    };
    let ghost c = cabac_coded(res@, stride);
    proof {
        choose_k::lemma_best_k(rle_cabac::mags(res@));
        frame::lemma_frame_len(p, c, mode.code());
    }
    match encode_frame_rle_cabac_adaptive_limited(&res, Some(stride), limit) {
        Ok(Some((payload, k))) => {
            let mut body: Vec<u8> = Vec::new();
            body.push(k);
            put_bytes(&mut body, &payload);
            assert(body@ =~= c.body);
            let d: Vec<u8> = write_frame(&body, image, k, 5, mode.to_u8());
            keep_shorter(best, d, Some(mode))
        },
        _ => best,
    }
}

/// The shapes and weights that compete.
fn variants_exec(fq: FrameQuant) -> (v: Vec<Variant>)
    ensures
        v@ == variants(fq),
{
    let mut v: Vec<Variant> = Vec::new();
    if fq.is_lossy() && !fq.q1_matrix_scale {
        v.push(Variant { bw: 4, bh: 4, weighted: false });
        v.push(Variant { bw: 8, bh: 8, weighted: false });
        v.push(Variant { bw: 4, bh: 4, weighted: true });
        v.push(Variant { bw: 8, bh: 8, weighted: true });
        v.push(Variant { bw: 8, bh: 4, weighted: true });
        v.push(Variant { bw: 4, bh: 8, weighted: true });
    } else {
        let weighted: bool = fq.is_lossy();
        v.push(Variant { bw: 4, bh: 4, weighted });
        v.push(Variant { bw: 8, bh: 8, weighted });
        v.push(Variant { bw: 8, bh: 4, weighted });
        v.push(Variant { bw: 4, bh: 8, weighted });
    }
    assert(v@ =~= variants(fq));
    v
}

/// A shape of blocks that can be transformed.
pub open spec fn variant_ok(v: Variant) -> bool {
    plane::valid_rect(v.bw as int, v.bh as int)
}

pub proof fn lemma_variants(fq: FrameQuant, i: int)
    requires
        0 <= i < variants(fq).len(),
    ensures
        variant_ok(variants(fq)[i]),
        !fq.spec_lossy() ==> !variants(fq)[i].weighted,
{
}

fn write_levels(levels: &Vec<i32>, v: Variant, searched: bool) -> (body: Vec<u8>)
    requires
        levels@.len() < u32::MAX,
    ensures
        body@ == levels_body(levels@, v, searched),
        body@.len() >= 1,
{
    let mut body: Vec<u8> = Vec::new();
    match encode_frame_rle_cabac_adaptive(levels, None) {
        Ok((payload, k)) => {
            let mut b: u8 = k;
            if searched {
                b = b + 0x10;
            }
            if v.bw == 8 {
                b = b + 0x20;
            }
            if v.weighted {
                b = b + 0x40;
            }
            if v.bh == 8 {
                b = b + 0x80;
            }
            body.push(b);
            put_bytes(&mut body, &payload);
            assert(body@ =~= levels_body(levels@, v, searched));
        },
        Err(_) => {},
    }
    body
}

/// The payload of an image for one shape is `b`.
pub open spec fn is_dct_body(p: Pic, fq: FrameQuant, v: Variant, b: Vec<u8>) -> bool {
    b@ == dct_body(p, fq, v) && b@.len() >= 1
}

fn one_dct(image: &ImageData, fq: FrameQuant, v: Variant) -> (body: Vec<u8>)
    requires
        frame::codable(image),
        variant_ok(v),
    ensures
        is_dct_body(frame::pic(image), fq, v, body),
{
    proof {
        frame::lemma_codable(image);
        reveal(dct_body);
    }
    let q: u8 = if fq.is_lossy() {
        if fq.step < 1 {
            1
        } else {
            fq.step
        }
    } else {
        1
    };
    let levels: Vec<i32> = dct_quantize_interleaved_bs(
        &image.pixels,
        image.width as usize,
        image.height as usize,
        image.color_format.component_count(),
        q,
        v.bw,
        v.bh,
        v.weighted,
        fq.q1_matrix_scale && v.weighted,
    );
    write_levels(&levels, v, false)
}

fn searched_dct(image: &ImageData, fq: FrameQuant, v: Variant) -> (body: Vec<u8>)
    requires
        frame::codable(image),
        variant_ok(v),
    ensures
        body@ == searched_body(frame::pic(image), fq, v),
        body@.len() >= 1,
{
    proof {
        frame::lemma_codable(image);
        reveal(searched_body);
    }
    let table: Vec<u32> = perceptual_qm(v.bw, v.bh);
    let levels: Vec<i32> = trellis_quantize_interleaved(
        &image.pixels,
        image.width as usize,
        image.height as usize,
        image.color_format.component_count(),
        fq.step,
        v.bw,
        v.bh,
        &table,
    );
    write_levels(&levels, v, true)
}

pub proof fn lemma_best_variant(p: Pic, fq: FrameQuant, n: nat)
    ensures
        0 <= best_variant(p, fq, n),
        n >= 1 ==> best_variant(p, fq, n) < n,
    decreases n,
{
    if n > 1 {
        lemma_best_variant(p, fq, (n - 1) as nat);
    }
}

fn run_dct(image: &ImageData, best: AdaptiveOutput, fq: FrameQuant) -> (r: AdaptiveOutput)
    requires
        frame::codable(image),
    ensures
        r@ == with_dct(best@, frame::pic(image), fq),
{
    let ghost p = frame::pic(image);
    let vs: Vec<Variant> = variants_exec(fq);
    let code = |v: &Variant| -> (b: Vec<u8>)
        requires
            frame::codable(image) && variant_ok(*v),
        ensures
            is_dct_body(frame::pic(image), fq, *v, b),
        {
            one_dct(image, fq, *v)
        };
    proof {
        assert forall|i: int| 0 <= i < vs@.len() implies call_requires(
            code,
            (&#[trigger] vs@[i],),
        ) by {
            lemma_variants(fq, i);
        }
    }
    let mut bodies: Vec<Vec<u8>> = par_map(&vs, code);
    let n: usize = bodies.len();
    let mut b: usize = 0;
    let mut i: usize = 1;
    assert(best_variant(p, fq, 1) == 0);
    proof {
        assert forall|j: int| 0 <= j < n implies is_dct_body(
            p,
            fq,
            variants(fq)[j],
            #[trigger] bodies@[j],
        ) by {
            assert(is_dct_body(p, fq, vs@[j], bodies@[j]));
        }
    }
    while i < n
        invariant
            n == bodies@.len(),
            n == variants(fq).len(),
            1 <= i <= n,
            b < i,
            b == best_variant(p, fq, i as nat),
            forall|j: int|
                0 <= j < n ==> is_dct_body(p, fq, variants(fq)[j], #[trigger] bodies@[j]),
        decreases n - i,
    {
        assert(is_dct_body(p, fq, variants(fq)[i as int], bodies@[i as int]));
        assert(is_dct_body(p, fq, variants(fq)[b as int], bodies@[b as int]));
        if bodies[i].len() < bodies[b].len() {
            b = i;
        }
        i = i + 1;
    }
    let v: Variant = vs[b];
    assert(is_dct_body(p, fq, variants(fq)[b as int], bodies@[b as int]));
    let mut body: Vec<u8> = bodies.swap_remove(b);
    proof {
        lemma_variants(fq, b as int);
    }
    if fq.is_lossy() && !fq.q1_matrix_scale && v.weighted {
        let s: Vec<u8> = searched_dct(image, fq, v);
        if s.len() < body.len() {
            body = s;
        }
    }
    assert(body@ == best_dct_body(p, fq));
    match assemble_frame(&body, image, body[0] % 16, 6) {
        Ok(d) => keep_shorter(best, d, None),
        Err(_) => best,
    }
}

fn run_intra(image: &ImageData, best: AdaptiveOutput, fq: FrameQuant) -> (r: AdaptiveOutput)
    requires
        frame::codable(image),
    ensures
        r@ == with_intra(best@, frame::pic(image), fq),
{
    if image.color_format.component_count() == 3 {
        match encode_intra_transform_payload(
            image,
            CompressionType::GolombRice,
            fq.step,
            fq.bias,
            fq.chroma_step,
            fq.chroma_bias,
        ) {
            Ok(body) => match assemble_frame(&body, image, 0, 8) {
                Ok(d) => {
                    return keep_shorter(best, d, None);
                },
                Err(_) => {},
            },
            Err(_) => {},
        }
    }
    best
}

/// Lets all ways to code an image compete; that of three planes, where it competes, is given.
pub fn run_contest(
    image: &ImageData,
    compression_type: CompressionType,
    block_size: u16,
    is_first_frame: bool,
    fq: FrameQuant,
    preferred_mode: Option<PredictionMode>,
    band_steps: Option<&Vec<u8>>,
    planar: Option<Vec<u8>>,
    copies: bool,
) -> (r: CrfResult<AdaptiveOutput>)
    requires
        frame::codable(image),
    ensures
        agrees_entry(
            r,
            contest(
                frame::pic(image),
                compression_type,
                block_size,
                is_first_frame,
                fq,
                preferred_mode,
                quant::bands_view(band_steps),
                match planar {
                    Some(v) => Some(v@),
                    None => None,
                },
                copies,
            ),
        ),
{
    let ghost p = frame::pic(image);
    proof {
        frame::lemma_codable(image);
    }
    let modes: (PredictionMode, PredictionMode) = rank(image, preferred_mode);
    let best: AdaptiveOutput = match run_opening(
        image,
        compression_type,
        block_size,
        is_first_frame,
        fq,
        modes,
        band_steps,
        Ghost(preferred_mode),
    ) {
        Ok(b) => b,
        Err(e) => {
            return Err(e);
        },
    };
    match compression_type {
        CompressionType::GolombRice => {},
        _ => {
            return Ok(best);
        },
    }
    let sums: (u64, u64) = residual_activity_for_mode_sampled(
        &image.pixels,
        image.width as usize,
        image.height as usize,
        image.color_format.component_count(),
        modes.0,
    );
    let a: AdaptiveOutput = run_planar(image, best, planar);
    let b: AdaptiveOutput = if fq.is_lossy() {
        a
    } else {
        run_copies(image, run_palette(image, run_banded(image, a)), is_first_frame, copies)
    };
    let c: AdaptiveOutput = run_cabac(
        image,
        b,
        fq,
        modes.0,
        band_steps,
        sums,
        Ghost(preferred_mode),
    );
    let q: u128 = if fq.step < 1 {
        1
    } else {
        fq.step as u128
    };
    proof {
        let n = sums.1 as int;
        assert(0 <= q * n <= 255 * 0xffff_ffff_ffff_ffff) by (nonlinear_arith)
            requires
                0 <= q <= 255,
                0 <= n <= 0xffff_ffff_ffff_ffff,
        ;
    }
    let worth: bool = 10 * (sums.0 as u128) >= q * (sums.1 as u128);
    if worth && !(image.color_format.component_count() == 1 && !fq.is_lossy()) {
        Ok(run_intra(image, run_dct(image, c, fq), fq))
    } else {
        Ok(c)
    }
}

/// The modes that are tried are the one that is preferred, or the one of least cost, and the one of
/// least cost of the others.
pub proof fn law_modes_tried(p: Pic, preferred: Option<PredictionMode>, i: int)
    requires
        0 <= i < CANDIDATES,
    ensures
        ({
            let (a, b) = (lead_mode(p, preferred), next_mode(p, preferred));
            let f = |m: PredictionMode| cost::satd(p.px, p.w, p.h, p.c, m);
            let m = ranking::candidate(i);
            &&& a != b
            &&& a != PredictionMode::Off && b != PredictionMode::Off
            &&& m != a ==> f(b) <= f(m)
            &&& preferred is None ==> f(a) <= f(m)
            &&& preferred is Some && preferred->0 != PredictionMode::Off ==> a == preferred->0
        }),
{
    let c = costs(p);
    let l = lead(p, preferred);
    ranking::law_least(c, -1, i);
    let n = ranking::least(c, l, CANDIDATES as nat);
    ranking::lemma_least(c, l, CANDIDATES as nat);
    if i != l {
        ranking::law_least(c, l, i);
    }
    if l < n {
        ranking::law_candidates(l, n);
    } else {
        ranking::law_candidates(n, l);
    }
}

/// Residuals are tried on top of the range coder where they are one or more in every fourth row, not
/// where there are none; blocks are transformed where residuals are a tenth of a step or more, not where
/// they are less.
pub proof fn law_worth(p: Pic, preferred: Option<PredictionMode>, fq: FrameQuant, lo: int, hi: int)
    requires
        p.ok(),
        0 <= lo <= hi,
        forall|i: int|
            0 <= i < p.h * (p.w * p.c) && (i / (p.w * p.c)) % 4 == 0 ==> ({
                let r = p.px[i].wrapping_sub(
                    #[trigger] crate::common::predict::predict_spec(
                        p.px,
                        i,
                        p.w,
                        p.c,
                        lead_mode(p, preferred),
                    ),
                );
                lo <= r <= hi || lo <= -r <= hi
            }),
    ensures
        lo >= 1 ==> cabac_worth(p, preferred),
        hi == 0 ==> !cabac_worth(p, preferred) && !dct_worth(p, preferred, fq),
        lo >= 1 && 10 * lo >= fq.step ==> dct_worth(p, preferred, fq),
        10 * hi < fq.step ==> !dct_worth(p, preferred, fq),
{
    let s = p.w * p.c;
    assert(s >= 1) by (nonlinear_arith)
        requires
            s == p.w * p.c,
            p.w >= 1,
            p.c >= 1,
    ;
    cost::law_sampled_sad(p.px, p.w, p.c, lead_mode(p, preferred), p.h as nat, lo, hi);
    let n = cost::sampled_count(p.w, p.c, p.h);
    let k = (p.h + 3) / 4;
    assert(n == k * s);
    assert(n >= 1) by (nonlinear_arith)
        requires
            n == k * s,
            k >= 1,
            s >= 1,
    ;
    let q = quant::at_least_one(fq.step);
    assert(q * n >= n) by (nonlinear_arith)
        requires
            q >= 1,
            n >= 1,
    ;
    assert(lo >= 1 ==> lo * n >= n) by (nonlinear_arith)
        requires
            n >= 1,
    ;
    assert(10 * lo >= q ==> 10 * (lo * n) >= q * n) by (nonlinear_arith)
        requires
            n >= 1,
    ;
    assert(10 * hi < q ==> 10 * (hi * n) < q * n) by (nonlinear_arith)
        requires
            n >= 1,
    ;
    assert(hi == 0 ==> hi * n == 0) by (nonlinear_arith);
}

} // verus!

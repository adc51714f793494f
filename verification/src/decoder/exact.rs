//! Frames coded without loss decode to the image they were made of.

use vstd::prelude::*;
use crate::common::blocks;
use crate::common::bounds;
use crate::common::cabac_syntax as syn;
use crate::common::choose_k;
use crate::common::codes;
use crate::common::domain;
use crate::common::domain::{CompressionType, FrameHeader, PredictionMode, FRAME_HEADER_SIZE};
use crate::common::error::Fault;
use crate::common::framing;
use crate::common::plane;
use crate::common::predict;
use crate::decoder::banded;
use crate::decoder::exp_golomb;
use crate::decoder::golomb;
use crate::decoder::intra_transform;
use crate::decoder::intrabc;
use crate::decoder::palette;
use crate::decoder::planar;
use crate::decoder::reconstruct as rec;
use crate::decoder::reconstruct::Setting;
use crate::decoder::rle_cabac;
use crate::decoder::rle_golomb;
use crate::decoder::transform;
use crate::encoder::adaptive;
use crate::encoder::candidate as cand;
use crate::encoder::candidate::Entry;
use crate::encoder::dct_path;
use crate::encoder::frame;
use crate::encoder::frame::{Coded, FrameQuant, Pic};
use crate::encoder::lengths;
use crate::encoder::planar as enc_planar;

verus! {

/// How far from zero samples may be for all ways to code a plane to lose nothing.
pub open spec fn plane_bound() -> int {
    0x20_0000
}

/// How far from zero samples may be for all ways to code an image to lose nothing.
pub open spec fn image_bound() -> int {
    0x10_0000
}

/// The setting is that of the image.
pub open spec fn fits(x: Setting, p: Pic) -> bool {
    x.w() == p.w && x.h() == p.h && x.c() == p.c
}

/// The frame decodes to the image, unless lengths do not fit their fields.
pub open spec fn exact(data: Seq<u8>, p: Pic, x: Setting) -> bool {
    data.len() <= u32::MAX ==> rec::flat_result(data, x) == Ok::<Seq<i32>, Fault>(p.px)
}

/// The header of a frame and its code read back.
pub proof fn lemma_frame_parts(p: Pic, c: Coded, pred_mode: u8)
    ensures
        ({
            let data = frame::frame_bytes(p, c, pred_mode);
            let fh = FrameHeader::parsed(data);
            &&& data.len() == FRAME_HEADER_SIZE + c.body.len()
            &&& fh.frame_type == c.kind
            &&& fh.coding_params == c.param
            &&& fh.pred_mode == pred_mode
            &&& data.skip(FRAME_HEADER_SIZE as int) == c.body
        }),
{
    let h = FrameHeader {
        pred_mode,
        ..FrameHeader::spec_with_type(c.body.len() as u32, p.px.len() as u32, c.param, c.kind)
    };
    domain::law_frame_header_roundtrip(h, c.body);
    assert((h.bytes() + c.body).skip(FRAME_HEADER_SIZE as int) =~= c.body);
}

/// A frame of residuals decodes to the image that they were made of.
proof fn lemma_residual_frame(p: Pic, c: Coded, mode: PredictionMode, x: Setting)
    requires
        p.ok(),
        fits(x, p),
        x.ok(),
        x.golomb() ==> c.kind == 0 || c.kind == 1 || c.kind == 5,
        ({
            let fh = FrameHeader {
                pred_mode: mode.code(),
                ..FrameHeader::spec_with_type(
                    c.body.len() as u32,
                    p.px.len() as u32,
                    c.param,
                    c.kind,
                )
            };
            rec::residuals_result(c.body, fh, x) == Ok::<Seq<i32>, Fault>(
                predict::residuals(p.px, p.w, p.c, mode, 0, p.px.len() as int),
            )
        }),
    ensures
        exact(frame::frame_bytes(p, c, mode.code()), p, x),
{
    let fh = FrameHeader {
        pred_mode: mode.code(),
        ..FrameHeader::spec_with_type(c.body.len() as u32, p.px.len() as u32, c.param, c.kind)
    };
    domain::law_frame_header_roundtrip(fh, c.body);
    lemma_frame_parts(p, c, mode.code());
    domain::lemma_mode_code(mode);
    predict::law_prediction_roundtrip(p.px, p.w, p.c, mode);
    reveal(rec::flat_result);
}

/// A frame of one prediction mode.
proof fn lemma_plain(
    p: Pic,
    ct: CompressionType,
    block_size: u16,
    mode: PredictionMode,
    first: bool,
    fq: FrameQuant,
    bands: Option<Seq<u8>>,
    x: Setting,
)
    requires
        p.ok(),
        fits(x, p),
        x.ok(),
        x.ct == ct,
        !fq.spec_lossy(),
        bounds::small(p.px, plane_bound()),
        frame::plain_frame(p, ct, block_size, mode, first, fq, bands) is Ok,
    ensures
        exact(frame::plain_frame(p, ct, block_size, mode, first, fq, bands)->Ok_0, p, x),
{
    let res = frame::frame_residuals(p, mode, fq, bands);
    let c = frame::coded(p, res, ct, block_size, first)->Ok_0;
    let n = p.px.len();
    let data = frame::frame_bytes(p, c, mode.code());
    frame::lemma_counts(p.w, p.h, p.c);
    frame::lemma_frame_len(p, c, mode.code());
    if data.len() <= u32::MAX {
        match ct {
            CompressionType::GolombRice => {
                if c.kind == 1 {
                    let k = crate::encoder::rle_golomb::best_k(res);
                    choose_k::lemma_best_k(codes::zigzags(res));
                    rle_golomb::law_rle_golomb_roundtrip(res, k);
                } else {
                    golomb::law_golomb_block_roundtrip(res, p.w, p.h, p.c);
                }
            },
            CompressionType::ExpGolomb => {
                bounds::lemma_residuals_small(p.px, p.w, p.c, mode, 0, n as int, plane_bound());
                exp_golomb::law_exp_golomb_roundtrip(res);
            },
            CompressionType::Transform => {
                transform::law_transform_frame_roundtrip(res, p.w * p.c, p.h, block_size as int);
                assert(c.body[0] == block_size as u8);
            },
        }
        lemma_residual_frame(p, c, mode, x);
    }
}

/// A frame without a mode of its own that is decoded at once.
proof fn lemma_direct(p: Pic, body: Seq<u8>, param: u8, kind: u8, x: Setting)
    requires
        p.ok(),
        fits(x, p),
        x.ok(),
        x.golomb(),
        kind == 2 || kind == 4 || kind == 6 || kind == 7 || kind == 8,
        kind == 2 ==> param == 32 || param == 64,
        kind == 4 ==> param == 1,
        body.len() <= u32::MAX ==> ({
            let r = if kind == 2 {
                banded::banded_result(body, p.w, p.h, p.c, param as int)
            } else if kind == 4 {
                palette::palette_result(body, p.px.len(), 1, p.w as nat)
            } else if kind == 6 {
                rec::residuals_result(
                    body,
                    FrameHeader::spec_with_type(
                        body.len() as u32,
                        p.px.len() as u32,
                        param,
                        kind,
                    ),
                    x,
                )
            } else if kind == 7 {
                intrabc::intrabc_result(body, p.w, p.h, p.c)
            } else {
                intra_transform::intra_result(body, p.w, p.h, p.c)
            };
            r == Ok::<Seq<i32>, Fault>(p.px)
        }),
    ensures
        exact(cand::entry(p, body, param, kind).data, p, x),
{
    let c = Coded { body, param, kind };
    lemma_frame_parts(p, c, domain::PRED_MODE_UNSET);
    let fh = FrameHeader::spec_with_type(body.len() as u32, p.px.len() as u32, param, kind);
    assert(FrameHeader { pred_mode: domain::PRED_MODE_UNSET, ..fh } == fh);
    domain::law_frame_header_roundtrip(fh, body);
    reveal(rec::flat_result);
}

pub proof fn lemma_banded(p: Pic, x: Setting)
    requires
        p.ok(),
        fits(x, p),
        x.ok(),
        x.golomb(),
    ensures
        exact(cand::entry(p, cand::bands_of(p).0, cand::bands_of(p).1, 2).data, p, x),
{
    let (body, bh) = cand::bands_of(p);
    if body.len() <= u32::MAX {
        banded::lemma_bands_fit(p.px, p.w, p.h, p.c, bh as int);
        banded::law_banded_roundtrip(p.px, p.w, p.h, p.c, bh as int);
    }
    lemma_direct(p, body, bh, 2, x);
}

pub proof fn lemma_palette(p: Pic, x: Setting)
    requires
        p.ok(),
        fits(x, p),
        x.ok(),
        x.golomb(),
        bounds::small(p.px, plane_bound()),
        crate::encoder::palette::palette_fits(p.px),
    ensures
        exact(
            cand::entry(p, crate::encoder::palette::palette_bytes(p.px, p.w as nat), 1, 4).data,
            p,
            x,
        ),
{
    let body = crate::encoder::palette::palette_bytes(p.px, p.w as nat);
    palette::law_palette_roundtrip(p.px, p.w as nat);
    lemma_direct(p, body, 1, 4, x);
}

pub proof fn lemma_copies(p: Pic, x: Setting)
    requires
        p.ok(),
        fits(x, p),
        x.ok(),
        x.golomb(),
    ensures
        exact(cand::entry(p, cand::copies_of(p), 0, 7).data, p, x),
{
    let body = cand::copies_of(p);
    if body.len() <= u32::MAX {
        intrabc::law_intrabc_roundtrip(
            crate::encoder::intrabc::Sheet { px: p.px, w: p.w, h: p.h, c: p.c },
        );
    }
    lemma_direct(p, body, 0, 7, x);
}

/// Small values can be coded on top of the range coder.
pub proof fn lemma_mags(vals: Seq<i32>, m: int)
    requires
        bounds::small(vals, m),
        m <= syn::MAX_QUOTIENT,
    ensures
        forall|i: int| 0 <= i < vals.len() ==> syn::mag(#[trigger] vals[i]) <= syn::MAX_QUOTIENT,
{
}

proof fn lemma_cabac(
    p: Pic,
    mode: PredictionMode,
    fq: FrameQuant,
    bands: Option<Seq<u8>>,
    x: Setting,
)
    requires
        p.ok(),
        fits(x, p),
        x.ok(),
        x.golomb(),
        !fq.spec_lossy(),
        bounds::small(p.px, plane_bound()),
    ensures
        exact(
            frame::frame_bytes(
                p,
                cand::cabac_coded(
                    frame::frame_residuals(p, mode, fq, bands),
                    (p.w * p.c) as usize,
                ),
                mode.code(),
            ),
            p,
            x,
        ),
{
    let res = frame::frame_residuals(p, mode, fq, bands);
    let stride = (p.w * p.c) as usize;
    let c = cand::cabac_coded(res, stride);
    bounds::lemma_residuals_small(p.px, p.w, p.c, mode, 0, p.px.len() as int, plane_bound());
    lemma_mags(res, 2 * plane_bound());
    rle_cabac::law_cabac_roundtrip(res, Some(stride));
    let k = crate::encoder::rle_cabac::cabac_k(res);
    choose_k::lemma_best_k(crate::encoder::rle_cabac::mags(res));
    assert(c.body.skip(1) =~= crate::encoder::rle_cabac::cabac_body(res, Some(stride)));
    assert(c.body[0] == k as u8);
    lemma_residual_frame(p, c, mode, x);
}

/// Coefficients of a plane are at most nine times as far from zero as the samples.
pub proof fn lemma_plane_forward_small(px: Seq<i32>, w: int, h: int, bw: int, bh: int, m: int)
    requires
        w >= 0,
        h >= 0,
        px.len() == w * h,
        plane::valid_rect(bw, bh),
        bounds::small(px, m),
        0 <= m <= 0x400_0000,
    ensures
        bounds::small(plane::plane_forward(px, w, h, bw, bh), 9 * m),
{
    let g = plane::tiling(w, h, bw, bh);
    let f = plane::forward_tile(bw, bh);
    let r = plane::plane_forward(px, w, h, bw, bh);
    let ts = Seq::new(g.count() as nat, |t: int| f(blocks::tile(px, g, t), g.whole(t)));
    blocks::lemma_count(g);
    assert forall|i: int| 0 <= i < r.len() implies -9 * m <= #[trigger] r[i] <= 9 * m by {
        blocks::lemma_place(g, i);
        let t = g.tile_of(i);
        let j = g.within(i);
        blocks::lemma_tile_dims(g, t);
        let b = blocks::tile(px, g, t);
        assert forall|k: int| 0 <= k < b.len() implies -m <= #[trigger] b[k] <= m by {
            blocks::lemma_pos(g, t, k);
            assert(b[k] == px[g.pos(t, k)]);
        }
        assert(r[i] == ts[t][j]);
        if g.whole(t) {
            assert(g.area(t) == bw * bh) by (nonlinear_arith)
                requires
                    g.area(t) == g.th(t) * g.tw(t),
                    g.th(t) == bh,
                    g.tw(t) == bw,
            ;
            bounds::lemma_forward_small(b, bw, bh, m);
            crate::common::transform::law_transform_roundtrip(b, bw, bh);
            assert(ts[t] == crate::common::transform::forward2(b, bw, bh));
            assert(-9 * m <= ts[t][j] <= 9 * m);
        } else {
            assert(ts[t] == b);
            assert(-m <= b[j] <= m);
        }
    }
}

/// Levels without loss are at most nine times as far from zero as the samples.
proof fn lemma_levels_small(p: Pic, fq: FrameQuant, v: cand::Variant)
    requires
        p.ok(),
        !fq.spec_lossy(),
        cand::variant_ok(v),
        !v.weighted,
        bounds::small(p.px, plane_bound()),
    ensures
        bounds::small(cand::levels_of(p, fq, v), 9 * plane_bound()),
        cand::levels_of(p, fq, v).len() == p.px.len(),
{
    let (bw, bh) = (v.bw as int, v.bh as int);
    let r = cand::levels_of(p, fq, v);
    frame::lemma_counts(p.w, p.h, p.c);
    dct_path::law_dct_lossless(p.px, p.w, p.h, p.c, 1, bw, bh, false);
    let n = p.w * p.h;
    assert(n >= 0 && p.px.len() == n * p.c) by (nonlinear_arith)
        requires
            n == p.w * p.h,
            p.w >= 0,
            p.h >= 0,
            p.px.len() == p.w * p.h * p.c,
    ;
    plane::lemma_interleave(p.px, p.c, n as nat);
    let qs = Seq::new(
        p.c as nat,
        |k: int|
            dct_path::quant_plane(
                plane::component(p.px, p.c, k),
                p.w,
                p.h,
                1,
                bw,
                bh,
                false,
                false,
            ),
    );
    assert(r == plane::interleaved(qs, n as nat));
    assert forall|i: int| 0 <= i < r.len() implies -9 * plane_bound() <= #[trigger] r[i] <= 9
        * plane_bound() by {
        vstd::arithmetic::div_mod::lemma_fundamental_div_mod(i, p.c);
        vstd::arithmetic::div_mod::lemma_div_pos_is_pos(i, p.c);
        let (k, j) = (i % p.c, i / p.c);
        assert(j < n) by (nonlinear_arith)
            requires
                i == p.c * j + k,
                0 <= k,
                i < n * p.c,
                p.c >= 1,
        ;
        let comp = plane::component(p.px, p.c, k);
        assert forall|a: int| 0 <= a < comp.len() implies -plane_bound() <= #[trigger] comp[a]
            <= plane_bound() by {
            assert(0 <= a * p.c + k < p.px.len()) by (nonlinear_arith)
                requires
                    0 <= a < n,
                    0 <= k < p.c,
                    p.px.len() == n * p.c,
            ;
            assert(comp[a] == p.px[a * p.c + k]);
        }
        lemma_plane_forward_small(comp, p.w, p.h, bw, bh, plane_bound());
        plane::law_plane_roundtrip(comp, p.w, p.h, bw, bh);
        assert(qs[k] == plane::plane_forward(comp, p.w, p.h, bw, bh));
        assert(r[i] == qs[k][j]);
    }
}

/// What the first byte of a payload of transformed blocks says.
proof fn lemma_flag_byte(k: nat, v: cand::Variant)
    requires
        k <= 6,
        cand::variant_ok(v),
        !v.weighted,
    ensures
        ({
            let fb = cand::flag_byte(k, v, false);
            &&& fb % 16 == k
            &&& ((fb / 32) % 2 == 1 <==> v.bw == 8)
            &&& (fb / 128 == 1 <==> v.bh == 8)
        }),
{
    let fb = cand::flag_byte(k, v, false);
    assert(fb as int == k + (if v.bw == 8 {
        0x20int
    } else {
        0
    }) + (if v.bh == 8 {
        0x80int
    } else {
        0
    }));
}

/// Transformed blocks without loss give the image.
proof fn lemma_dct_result(p: Pic, fq: FrameQuant, v: cand::Variant, fh: FrameHeader, x: Setting)
    requires
        p.ok(),
        fits(x, p),
        x.ok(),
        x.golomb(),
        !fq.spec_lossy(),
        cand::variant_ok(v),
        !v.weighted,
        bounds::small(p.px, plane_bound()),
        fh.frame_type == 6,
    ensures
        rec::residuals_result(cand::dct_body(p, fq, v), fh, x) == Ok::<Seq<i32>, Fault>(p.px),
{
    let levels = cand::levels_of(p, fq, v);
    let k = crate::encoder::rle_cabac::cabac_k(levels);
    let code = crate::encoder::rle_cabac::cabac_body(levels, None);
    let body = cand::dct_body(p, fq, v);
    assert(body == seq![cand::flag_byte(k, v, false)] + code) by {
        reveal(cand::dct_body);
    }
    choose_k::lemma_best_k(crate::encoder::rle_cabac::mags(levels));
    lemma_flag_byte(k, v);
    assert(body.skip(1) =~= code);
    lemma_levels_small(p, fq, v);
    lemma_mags(levels, 9 * plane_bound());
    rle_cabac::law_cabac_roundtrip(levels, None);
    frame::lemma_counts(p.w, p.h, p.c);
    dct_path::law_dct_lossless(p.px, p.w, p.h, p.c, 1, v.bw as int, v.bh as int, false);
    lemma_body_longer(levels);
}

proof fn lemma_dct(p: Pic, fq: FrameQuant, x: Setting)
    requires
        p.ok(),
        fits(x, p),
        x.ok(),
        x.golomb(),
        !fq.spec_lossy(),
        bounds::small(p.px, plane_bound()),
    ensures
        exact(
            cand::entry(
                p,
                cand::best_dct_body(p, fq),
                cand::best_dct_body(p, fq)[0] % 16,
                6,
            ).data,
            p,
            x,
        ),
{
    let i = cand::best_variant(p, fq, cand::variants(fq).len());
    cand::lemma_best_variant(p, fq, cand::variants(fq).len());
    let v = cand::variants(fq)[i];
    cand::lemma_variants(fq, i);
    let body = cand::best_dct_body(p, fq);
    let fh = FrameHeader::spec_with_type(
        body.len() as u32,
        p.px.len() as u32,
        body[0] % 16,
        6,
    );
    lemma_dct_result(p, fq, v, fh, x);
    lemma_direct(p, body, body[0] % 16, 6, x);
}

/// A payload on top of the range coder is not empty.
pub proof fn lemma_body_longer(vals: Seq<i32>)
    ensures
        crate::encoder::rle_cabac::cabac_body(vals, None).len() >= 1,
{
    crate::encoder::rle_cabac::lemma_body_not_empty(
        vals,
        crate::encoder::rle_cabac::cabac_k(vals),
        None,
        crate::encoder::rle_cabac::variants_for(None).len(),
    );
}

proof fn lemma_intra(p: Pic, x: Setting)
    requires
        p.ok(),
        fits(x, p),
        x.ok(),
        x.golomb(),
        p.c == 3,
        bounds::small(p.px, plane_bound()),
    ensures
        exact(
            cand::entry(
                p,
                crate::encoder::intra_transform::intra_payload(p.px, p.w, p.h, 0, 0, 0, 0),
                0,
                8,
            ).data,
            p,
            x,
        ),
{
    let body = crate::encoder::intra_transform::intra_payload(p.px, p.w, p.h, 0, 0, 0, 0);
    frame::lemma_counts(p.w, p.h, p.c);
    if body.len() <= u32::MAX {
        intra_transform::law_intra_lossless(p.px, p.w, p.h, 0, 0);
    }
    lemma_direct(p, body, 0, 8, x);
}

/// The frame decodes to the image, unless lengths do not fit their fields; also if it is one of
/// three planes.
pub open spec fn exact_any(data: Seq<u8>, p: Pic, x: Setting) -> bool {
    data.len() <= u32::MAX ==> rec::frame_result(data, x) == Ok::<Seq<i32>, Fault>(p.px)
}

proof fn lemma_exact_any(data: Seq<u8>, p: Pic, x: Setting)
    requires
        exact(data, p, x),
    ensures
        exact_any(data, p, x),
{
    reveal(rec::flat_result);
}

/// Every frame in the contest without loss decodes to the image.
proof fn lemma_contest(
    p: Pic,
    ct: CompressionType,
    block_size: u16,
    first: bool,
    preferred: Option<PredictionMode>,
    bands: Option<Seq<u8>>,
    planar: Option<Seq<u8>>,
    copies: bool,
    x: Setting,
)
    requires
        p.ok(),
        fits(x, p),
        x.ok(),
        x.ct == ct,
        bounds::small(p.px, plane_bound()),
        planar matches Some(body) ==> exact_any(cand::entry(p, body, 0, 3).data, p, x),
        cand::contest(
            p,
            ct,
            block_size,
            first,
            FrameQuant::spec_lossless(),
            preferred,
            bands,
            planar,
            copies,
        ) is Ok,
    ensures
        ({
            let e = cand::contest(
                p,
                ct,
                block_size,
                first,
                FrameQuant::spec_lossless(),
                preferred,
                bands,
                planar,
                copies,
            )->Ok_0;
            exact_any(e.data, p, x) && (planar is None ==> exact(e.data, p, x))
        }),
{
    let fq = FrameQuant::spec_lossless();
    let (a, b) = (cand::lead_mode(p, preferred), cand::next_mode(p, preferred));
    lemma_plain(p, ct, block_size, a, first, fq, bands, x);
    lemma_plain(p, ct, block_size, b, first, fq, bands, x);
    let e0 = cand::opening(p, ct, block_size, first, fq, preferred, bands)->Ok_0;
    lemma_exact_any(e0.data, p, x);
    if ct == CompressionType::GolombRice {
        let e1 = cand::with_planar(e0, p, planar);
        lemma_exact_contest(p, first, copies, e1, planar is None, x);
        let e2 = cand::with_exact(e1, p, first, copies);
        let m = cand::lead_mode(p, preferred);
        lemma_cabac(p, m, fq, bands, x);
        let e3 = cand::with_cabac(e2, p, fq, preferred, bands);
        let cab = frame::frame_bytes(
            p,
            cand::cabac_coded(frame::frame_residuals(p, m, fq, bands), (p.w * p.c) as usize),
            m.code(),
        );
        lemma_exact_any(cab, p, x);
        lemma_dct(p, fq, x);
        let body = cand::best_dct_body(p, fq);
        lemma_exact_any(cand::entry(p, body, body[0] % 16, 6).data, p, x);
        if p.c == 3 {
            lemma_intra(p, x);
            lemma_exact_any(
                cand::entry(
                    p,
                    crate::encoder::intra_transform::intra_payload(p.px, p.w, p.h, 0, 0, 0, 0),
                    0,
                    8,
                ).data,
                p,
                x,
            );
        }
    }
}

proof fn lemma_exact_contest(p: Pic, first: bool, copies: bool, e: Entry, flat: bool, x: Setting)
    requires
        p.ok(),
        fits(x, p),
        x.ok(),
        x.golomb(),
        bounds::small(p.px, plane_bound()),
        exact_any(e.data, p, x),
        flat ==> exact(e.data, p, x),
    ensures
        exact_any(cand::with_exact(e, p, first, copies).data, p, x),
        flat ==> exact(cand::with_exact(e, p, first, copies).data, p, x),
{
    lemma_banded(p, x);
    lemma_exact_any(cand::entry(p, cand::bands_of(p).0, cand::bands_of(p).1, 2).data, p, x);
    if crate::encoder::palette::palette_fits(p.px) {
        lemma_palette(p, x);
        lemma_exact_any(
            cand::entry(p, crate::encoder::palette::palette_bytes(p.px, p.w as nat), 1, 4).data,
            p,
            x,
        );
    }
    lemma_copies(p, x);
    lemma_exact_any(cand::entry(p, cand::copies_of(p), 0, 7).data, p, x);
}

/// How far from zero the planes of an image are whose samples are no further than `m`.
pub open spec fn plane_reach(m: int) -> int {
    m + m / 4 + 34
}

/// A share of luma is small.
proof fn lemma_share_small(y: i32, a: int, m: int)
    requires
        -m <= y <= m,
        0 <= m <= image_bound(),
        -4 <= a <= 4,
    ensures
        -(m / 4 + 34) <= enc_planar::share(y, a) <= m / 4 + 34,
{
    let v = a * (y - 128);
    assert(-4 * (m + 128) <= v <= 4 * (m + 128)) by (nonlinear_arith)
        requires
            v == a * (y - 128),
            -(m + 128) <= y - 128 <= m + 128,
            -4 <= a <= 4,
    ;
}

spec fn chroma_less(px: Seq<i32>, k: int) -> Seq<i32> {
    let y = plane::component(px, 3, 0);
    let ch = plane::component(px, 3, k);
    enc_planar::less_share(y, ch, enc_planar::share_of(y, ch))
}

/// The planes of a small image are small.
pub proof fn lemma_planes_small(p: Pic, m: int)
    requires
        p.ok(),
        p.c == 3,
        bounds::small(p.px, m),
        0 <= m <= image_bound(),
    ensures
        ({
            let (y, a, b) = enc_planar::planes_of(p, false);
            &&& y.ok() && a.ok() && b.ok()
            &&& (y.w, y.h, y.c) == (p.w, p.h, 1int)
            &&& (a.w, a.h, a.c) == (p.w, p.h, 1int)
            &&& (b.w, b.h, b.c) == (p.w, p.h, 1int)
            &&& bounds::small(y.px, plane_reach(m))
            &&& bounds::small(a.px, plane_reach(m))
            &&& bounds::small(b.px, plane_reach(m))
        }),
{
    enc_planar::lemma_planes(p);
    let n = p.h * p.w;
    assert(p.h * (p.w * 1) == n) by (nonlinear_arith)
        requires
            n == p.h * p.w,
    ;
    let y = plane::component(p.px, 3, 0);
    assert forall|k: int, i: int| 0 <= k < 3 && 0 <= i < n implies -m
        <= #[trigger] plane::component(p.px, 3, k)[i] <= m by {
        assert(plane::component(p.px, 3, k)[i] == p.px[i * 3 + k]);
    }
    assert forall|k: int, i: int| 1 <= k < 3 && 0 <= i < n implies -plane_reach(m)
        <= #[trigger] chroma_less(p.px, k)[i] <= plane_reach(m) by {
        let ch = plane::component(p.px, 3, k);
        enc_planar::lemma_best_share(y, ch, enc_planar::CFL_CANDIDATES as nat);
        assert(-m <= y[i] <= m);
        assert(-m <= ch[i] <= m);
        lemma_share_small(y[i], enc_planar::share_of(y, ch), m);
    }
    let (_y, a, b) = enc_planar::planes_of(p, false);
    assert(a.px == chroma_less(p.px, 1) && b.px == chroma_less(p.px, 2));
}

/// One of three planes.
proof fn lemma_sub_frame(
    p: Pic,
    block_size: u16,
    preferred: Option<PredictionMode>,
    bands: Option<Seq<u8>>,
    x: Setting,
)
    requires
        p.ok(),
        fits(x, p),
        x.ok(),
        x.golomb(),
        bounds::small(p.px, plane_bound()),
        enc_planar::sub_frame(
            p,
            CompressionType::GolombRice,
            block_size,
            FrameQuant::spec_lossless(),
            preferred,
            bands,
        ) is Ok,
    ensures
        exact(
            enc_planar::sub_frame(
                p,
                CompressionType::GolombRice,
                block_size,
                FrameQuant::spec_lossless(),
                preferred,
                bands,
            )->Ok_0.data,
            p,
            x,
        ),
{
    reveal(enc_planar::sub_frame);
    lemma_contest(
        p,
        CompressionType::GolombRice,
        enc_planar::sub_block(block_size, p.w),
        false,
        preferred,
        bands,
        None,
        true,
        x,
    );
}

/// Coding an image as three planes without loss, and decoding them, gives the image, as long as
/// lengths fit their fields.
pub proof fn law_planar_roundtrip(p: Pic, block_size: u16, bands: Option<Seq<u8>>, x: Setting)
    requires
        p.ok(),
        fits(x, p),
        x.golomb(),
        p.c == 3,
        bounds::small(p.px, image_bound()),
        lossless_planes(p, block_size, bands).len() <= u32::MAX,
    ensures
        rec::planar_result(lossless_planes(p, block_size, bands), x) == Ok::<Seq<i32>, Fault>(p.px),
{
    let ct = CompressionType::GolombRice;
    let fq = FrameQuant::spec_lossless();
    assert(x.ok());
    lengths::lemma_planar_ok(p, block_size, fq, bands);
    let body = lossless_planes(p, block_size, bands);
    let (y, a, b) = enc_planar::planes_of(p, false);
    let cb = enc_planar::chroma_bands(bands, false);
    let xs = rec::plane_setting(x, false);
    rec::lemma_plane_setting(x, false);
    rec::lemma_setting(x);
    lemma_planes_small(p, image_bound());
    bounds::lemma_small_wider(y.px, plane_reach(image_bound()), plane_bound());
    bounds::lemma_small_wider(a.px, plane_reach(image_bound()), plane_bound());
    bounds::lemma_small_wider(b.px, plane_reach(image_bound()), plane_bound());
    assert(enc_planar::chroma_quant(fq) == fq);
    let e = enc_planar::sub_frame(y, ct, block_size, fq, None, bands)->Ok_0;
    let g = enc_planar::sub_frame(a, ct, block_size, fq, e.mode, cb)->Ok_0;
    let k = enc_planar::sub_frame(b, ct, block_size, fq, g.mode, cb)->Ok_0;
    lemma_sub_frame(y, block_size, None, bands, xs);
    lemma_sub_frame(a, block_size, e.mode, cb, xs);
    lemma_sub_frame(b, block_size, g.mode, cb, xs);
    let head = enc_planar::head_of(p, false);
    framing::lemma_three(head, e.data, g.data, k.data);
    lemma_planar_back(p, body, e.data, g.data, k.data, x);
}

/// An image as three planes, without loss.
pub open spec fn lossless_planes(p: Pic, block_size: u16, bands: Option<Seq<u8>>) -> Seq<u8> {
    enc_planar::planar_payload(
        p,
        CompressionType::GolombRice,
        block_size,
        FrameQuant::spec_lossless(),
        bands,
    )->Ok_0
}

/// Coding an image as three planes without loss succeeds, and lengths fit their fields if samples are
/// small and not too many, so that the image comes back.
pub proof fn law_small_planar_roundtrip(
    p: Pic,
    block_size: u16,
    bands: Option<Seq<u8>>,
    x: Setting,
    m: int,
)
    requires
        p.ok(),
        fits(x, p),
        x.golomb(),
        p.c == 3,
        bounds::small(p.px, m),
        0 <= m <= 0x8_0000,
        p.px.len() * (m / 12 + 52) <= 0x7_ffff_fe00,
    ensures
        enc_planar::planar_payload(
            p,
            CompressionType::GolombRice,
            block_size,
            FrameQuant::spec_lossless(),
            bands,
        ) is Ok,
        lossless_planes(p, block_size, bands).len() <= u32::MAX,
        rec::planar_result(lossless_planes(p, block_size, bands), x) == Ok::<Seq<i32>, Fault>(p.px),
{
    let ct = CompressionType::GolombRice;
    let fq = FrameQuant::spec_lossless();
    lengths::lemma_planar_ok(p, block_size, fq, bands);
    let (y, a, b) = enc_planar::planes_of(p, false);
    let cb = enc_planar::chroma_bands(bands, false);
    lemma_planes_small(p, m);
    assert(enc_planar::chroma_quant(fq) == fq);
    let e = enc_planar::sub_frame(y, ct, block_size, fq, None, bands)->Ok_0;
    let g = enc_planar::sub_frame(a, ct, block_size, fq, e.mode, cb)->Ok_0;
    let k = enc_planar::sub_frame(b, ct, block_size, fq, g.mode, cb)->Ok_0;
    let r = plane_reach(m);
    lengths::lemma_sub_len(y, block_size, None, bands, r);
    lengths::lemma_sub_len(a, block_size, e.mode, cb, r);
    lengths::lemma_sub_len(b, block_size, g.mode, cb, r);
    framing::lemma_framed3(e.data, g.data, k.data);
    let n = p.px.len() as int;
    assert(3 * (p.w * p.h * (r / 16 + 48)) <= n * (m / 12 + 52)) by (nonlinear_arith)
        requires
            n == p.h * (p.w * 3),
            p.h >= 0,
            p.w >= 0,
            0 <= r / 16 + 48 <= m / 12 + 52,
    ;
    bounds::lemma_small_wider(p.px, m, image_bound());
    law_planar_roundtrip(p, block_size, bands, x);
}

/// The frame of three planes.
proof fn lemma_planar(p: Pic, block_size: u16, bands: Option<Seq<u8>>, x: Setting)
    requires
        p.ok(),
        fits(x, p),
        x.golomb(),
        p.c == 3,
        bounds::small(p.px, image_bound()),
    ensures
        exact_any(cand::entry(p, lossless_planes(p, block_size, bands), 0, 3).data, p, x),
{
    let body = lossless_planes(p, block_size, bands);
    let data = cand::entry(p, body, 0, 3).data;
    lemma_frame_parts(p, Coded { body, param: 0, kind: 3 }, domain::PRED_MODE_UNSET);
    if data.len() <= u32::MAX {
        law_planar_roundtrip(p, block_size, bands, x);
    }
}

/// What the first two bytes of a payload of three planes say.
pub proof fn lemma_head(p: Pic)
    ensures
        ({
            let head = enc_planar::head_of(p, false);
            let y = plane::component(p.px, 3, 0);
            &&& head.len() == 2
            &&& head[0] as int / 16 - 8 == enc_planar::share_of(y, plane::component(p.px, 3, 1))
            &&& head[0] as int % 16 - 8 == enc_planar::share_of(y, plane::component(p.px, 3, 2))
            &&& head[1] == 0
        }),
{
    let y = plane::component(p.px, 3, 0);
    let (co, cg) = (plane::component(p.px, 3, 1), plane::component(p.px, 3, 2));
    enc_planar::lemma_best_share(y, co, enc_planar::CFL_CANDIDATES as nat);
    enc_planar::lemma_best_share(y, cg, enc_planar::CFL_CANDIDATES as nat);
}

/// Luma and chroma less its share make the image.
pub proof fn lemma_planes_back(p: Pic, x: Setting)
    requires
        p.ok(),
        p.c == 3,
        fits(x, p),
    ensures
        ({
            let (y, a, b) = enc_planar::planes_of(p, false);
            let sa = enc_planar::share_of(y.px, plane::component(p.px, 3, 1));
            let sb = enc_planar::share_of(y.px, plane::component(p.px, 3, 2));
            plane::interleaved(
                seq![
                    y.px,
                    rec::chroma_back(y.px, a.px, x, false, sa),
                    rec::chroma_back(y.px, b.px, x, false, sb),
                ],
                (x.w() * x.h()) as nat,
            ) == p.px
        }),
{
    enc_planar::lemma_planes(p);
    let y = plane::component(p.px, 3, 0);
    let (co, cg) = (plane::component(p.px, 3, 1), plane::component(p.px, 3, 2));
    planar::law_cfl_roundtrip(y, co, enc_planar::share_of(y, co));
    planar::law_cfl_roundtrip(y, cg, enc_planar::share_of(y, cg));
    assert(seq![y, co, cg] =~= plane::components(p.px, 3));
}

/// Three planes that read back make the image.
proof fn lemma_planar_back(p: Pic, body: Seq<u8>, d0: Seq<u8>, d1: Seq<u8>, d2: Seq<u8>, x: Setting)
    requires
        p.ok(),
        fits(x, p),
        x.ok(),
        p.c == 3,
        body == enc_planar::head_of(p, false) + framing::framed(seq![d0, d1, d2]),
        body.len() <= u32::MAX,
        ({
            let (y, a, b) = enc_planar::planes_of(p, false);
            let xs = rec::plane_setting(x, false);
            &&& rec::flat_result(d0, xs) == Ok::<Seq<i32>, Fault>(y.px)
            &&& rec::flat_result(d1, xs) == Ok::<Seq<i32>, Fault>(a.px)
            &&& rec::flat_result(d2, xs) == Ok::<Seq<i32>, Fault>(b.px)
        }),
    ensures
        rec::planar_result(body, x) == Ok::<Seq<i32>, Fault>(p.px),
{
    let head = enc_planar::head_of(p, false);
    let (y, a, b) = enc_planar::planes_of(p, false);
    let xs = rec::plane_setting(x, false);
    lemma_head(p);
    lemma_planes_back(p, x);
    let (q0, q1, q2) = (
        6 + d0.len() as int,
        10 + d0.len() + d1.len() as int,
        14 + d0.len() + d1.len() + d2.len() as int,
    );
    lemma_plane_parts(head, d0, d1, d2);
    assert(rec::plane_at(body, 2, xs) == Ok::<(Seq<i32>, int), Fault>((y.px, q0)));
    assert(rec::plane_at(body, q0, xs) == Ok::<(Seq<i32>, int), Fault>((a.px, q1)));
    assert(rec::plane_at(body, q1, xs) == Ok::<(Seq<i32>, int), Fault>((b.px, q2)));
}

pub proof fn lemma_plane_parts(head: Seq<u8>, a: Seq<u8>, b: Seq<u8>, c: Seq<u8>)
    requires
        head.len() == 2,
        (head + framing::framed(seq![a, b, c])).len() <= u32::MAX,
    ensures
        ({
            let data = head + framing::framed(seq![a, b, c]);
            let p = 6 + a.len() as int;
            let q = 10 + a.len() + b.len() as int;
            let r = 14 + a.len() + b.len() + c.len() as int;
            &&& data.len() >= 2
            &&& data[0] == head[0]
            &&& data[1] == head[1]
            &&& framing::part_at(data, 2) == Ok::<(Seq<u8>, int), Fault>((a, p))
            &&& framing::part_at(data, p) == Ok::<(Seq<u8>, int), Fault>((b, q))
            &&& framing::part_at(data, q) == Ok::<(Seq<u8>, int), Fault>((c, r))
        }),
{
    framing::lemma_three(head, a, b, c);
}

/// Coding a frame without loss in the way that makes it shortest, and decoding it, gives the image,
/// as long as lengths fit their fields.
pub proof fn law_frame_lossless(
    p: Pic,
    ct: CompressionType,
    block_size: u16,
    first: bool,
    preferred: Option<PredictionMode>,
    bands: Option<Seq<u8>>,
    copies: bool,
    x: Setting,
)
    requires
        p.ok(),
        fits(x, p),
        x.ct == ct,
        bounds::small(p.px, image_bound()),
        ({
            let r = adaptive::adaptive(
                p,
                ct,
                block_size,
                first,
                FrameQuant::spec_lossless(),
                preferred,
                bands,
                copies,
            );
            r is Ok && r->Ok_0.data.len() <= u32::MAX
        }),
    ensures
        rec::frame_result(
            adaptive::adaptive(
                p,
                ct,
                block_size,
                first,
                FrameQuant::spec_lossless(),
                preferred,
                bands,
                copies,
            )->Ok_0.data,
            x,
        ) == Ok::<Seq<i32>, Fault>(p.px),
{
    let fq = FrameQuant::spec_lossless();
    bounds::lemma_small_wider(p.px, image_bound(), plane_bound());
    assert(x.ok());
    if ct == CompressionType::GolombRice && p.c == 3 {
        lemma_planar(p, block_size, bands, x);
        let body = enc_planar::planar_payload(p, ct, block_size, fq, bands)->Ok_0;
        lemma_contest(p, ct, block_size, first, preferred, bands, Some(body), copies, x);
    } else {
        lemma_contest(p, ct, block_size, first, preferred, bands, None, copies, x);
    }
}

/// Coding a frame without loss by one prediction mode, and decoding it, gives the image, as long as
/// lengths fit their fields.
pub proof fn law_plain_frame_lossless(
    p: Pic,
    ct: CompressionType,
    block_size: u16,
    mode: PredictionMode,
    first: bool,
    bands: Option<Seq<u8>>,
    x: Setting,
)
    requires
        p.ok(),
        fits(x, p),
        x.ct == ct,
        bounds::small(p.px, plane_bound()),
        ({
            let r = frame::plain_frame(
                p,
                ct,
                block_size,
                mode,
                first,
                FrameQuant::spec_lossless(),
                bands,
            );
            r is Ok && r->Ok_0.len() <= u32::MAX
        }),
    ensures
        rec::frame_result(
            frame::plain_frame(
                p,
                ct,
                block_size,
                mode,
                first,
                FrameQuant::spec_lossless(),
                bands,
            )->Ok_0,
            x,
        ) == Ok::<Seq<i32>, Fault>(p.px),
{
    assert(x.ok());
    lemma_plain(p, ct, block_size, mode, first, FrameQuant::spec_lossless(), bands, x);
    lemma_exact_any(
        frame::plain_frame(
            p,
            ct,
            block_size,
            mode,
            first,
            FrameQuant::spec_lossless(),
            bands,
        )->Ok_0,
        p,
        x,
    );
}

} // verus!

//! How far a decoded frame is from the image it was made of.

use vstd::prelude::*;
use crate::common::bounds;
use crate::common::cabac_syntax as syn;
use crate::common::choose_k;
use crate::common::close;
use crate::common::codes;
use crate::common::dct;
use crate::common::domain;
use crate::common::domain::{CompressionType, FrameHeader, PredictionMode};
use crate::common::error::Fault;
use crate::common::framing;
use crate::common::plane;
use crate::common::predict;
use crate::common::quant;
use crate::decoder::exact;
use crate::decoder::exact::fits;
use crate::decoder::exp_golomb;
use crate::decoder::golomb;
use crate::decoder::intra_transform;
use crate::decoder::planar;
use crate::decoder::readable;
use crate::decoder::reconstruct as rec;
use crate::decoder::reconstruct::Setting;
use crate::decoder::rle_cabac;
use crate::decoder::rle_golomb;
use crate::decoder::transform;
use crate::encoder::adaptive;
use crate::encoder::candidate as cand;
use crate::encoder::candidate::Entry;
use crate::encoder::dct_path;
use crate::encoder::frame;
use crate::encoder::frame::{Coded, FrameQuant, Pic};
use crate::encoder::planar as enc_planar;
use crate::encoder::rdoq;

verus! {

/// How far coefficients of samples within `m` may be beyond those that the search of levels covers.
pub open spec fn beyond(m: int) -> int {
    if 9 * m <= 8192 {
        0
    } else {
        9 * m - 8192
    }
}

/// What samples within `m`, coded in steps of up to `s`, may be off.
pub open spec fn loss(s: int, m: int) -> int {
    16 * (3 * s + 12 + beyond(m)) + 20
}

/// What the samples of an image may be off, also if it is coded as three planes, of which two may be
/// halved; `v` is how much samples near each other differ.
pub open spec fn image_loss(fq: FrameQuant, s: int, m: int, v: int) -> int {
    let e = loss(s, exact::plane_reach(m));
    if fq.spec_lossy() && fq.chroma_half_res {
        4 * e + 6 * v + 5
    } else {
        2 * e + 1
    }
}

/// No step is larger than `s`.
pub open spec fn within(fq: FrameQuant, bands: Option<Seq<u8>>, s: int) -> bool {
    quant::steps_within(fq.step, bands, s) && fq.chroma_step <= s
}

/// The frame decodes to within `e` of the image, unless lengths do not fit their fields.
pub open spec fn faithful(data: Seq<u8>, p: Pic, x: Setting, e: int) -> bool {
    data.len() <= u32::MAX ==> rec::flat_result(data, x) is Ok && close::close(
        rec::flat_result(data, x)->Ok_0,
        p.px,
        e,
    )
}

/// The same, also if the frame is one of three planes.
pub open spec fn faithful_any(data: Seq<u8>, p: Pic, x: Setting, e: int) -> bool {
    data.len() <= u32::MAX ==> rec::frame_result(data, x) is Ok && close::close(
        rec::frame_result(data, x)->Ok_0,
        p.px,
        e,
    )
}

pub proof fn lemma_any(data: Seq<u8>, p: Pic, x: Setting, d: int, e: int)
    requires
        faithful(data, p, x, d),
        d <= e,
    ensures
        faithful_any(data, p, x, e),
{
    reveal(rec::flat_result);
    if data.len() <= u32::MAX {
        close::lemma_close_wider(rec::flat_result(data, x)->Ok_0, p.px, d, e);
    }
}

proof fn lemma_exact(data: Seq<u8>, p: Pic, x: Setting, e: int)
    requires
        exact::exact(data, p, x),
        e >= 0,
    ensures
        faithful(data, p, x, e),
{
    close::lemma_close_same(p.px, e);
}

/// A frame of residuals decodes to what they add up to.
proof fn lemma_residual_frame(
    p: Pic,
    c: Coded,
    mode: PredictionMode,
    x: Setting,
    res: Seq<i32>,
    e: int,
)
    requires
        x.golomb() ==> c.kind == 0 || c.kind == 1 || c.kind == 5,
        fits(x, p),
        ({
            let fh = FrameHeader {
                pred_mode: mode.code(),
                ..FrameHeader::spec_with_type(
                    c.body.len() as u32,
                    p.px.len() as u32,
                    c.param,
                    c.kind,
                )
            };
            rec::residuals_result(c.body, fh, x) == Ok::<Seq<i32>, Fault>(res)
        }),
        close::close(predict::undo_from(Seq::empty(), res, p.w, p.c, mode), p.px, e),
    ensures
        faithful(frame::frame_bytes(p, c, mode.code()), p, x, e),
{
    let fh = FrameHeader {
        pred_mode: mode.code(),
        ..FrameHeader::spec_with_type(c.body.len() as u32, p.px.len() as u32, c.param, c.kind)
    };
    domain::law_frame_header_roundtrip(fh, c.body);
    exact::lemma_frame_parts(p, c, mode.code());
    domain::lemma_mode_code(mode);
    reveal(rec::flat_result);
}

/// Residuals add up to the image, to half a step and two.
proof fn lemma_residuals(
    p: Pic,
    mode: PredictionMode,
    fq: FrameQuant,
    bands: Option<Seq<u8>>,
    s: int,
    m: int,
)
    requires
        p.ok(),
        quant::steps_within(fq.step, bands, s),
        bounds::small(p.px, m),
        0 <= m <= exact::plane_bound(),
    ensures
        ({
            let res = frame::frame_residuals(p, mode, fq, bands);
            &&& res.len() == p.px.len()
            &&& bounds::small(res, 2 * m + 2 * s + 8)
            &&& close::close(
                predict::undo_from(Seq::empty(), res, p.w, p.c, mode),
                p.px,
                s / 2 + 2,
            )
        }),
{
    let res = frame::frame_residuals(p, mode, fq, bands);
    let n = p.px.len();
    if fq.spec_lossy() {
        let lp = quant::LoopParams {
            w: p.w,
            c: p.c,
            mode,
            step: fq.step,
            bias: fq.bias,
            bands,
        };
        quant::lemma_loop_len(p.px, lp, n);
        quant::lemma_loop_small(p.px, lp, n, s, m);
        assert forall|i: int| 0 <= i < n implies -0x1000_0000 <= #[trigger] p.px[i]
            <= 0x1000_0000 by {
            assert(-m <= p.px[i] <= m);
        }
        quant::law_closed_loop_close(p.px, lp, n, s, 128);
        let known = quant::loop_known(p.px, lp, n);
        let e = s / 2 + 2;
        assert forall|i: int| 0 <= i < known.len() implies -e <= #[trigger] known[i] - p.px[i]
            <= e by {
            assert(-(32 * s + 128) <= 64 * (known[i] - p.px[i]) <= 32 * s + 128);
        }
    } else {
        bounds::lemma_residuals_small(p.px, p.w, p.c, mode, 0, n as int, m);
        predict::law_prediction_roundtrip(p.px, p.w, p.c, mode);
        close::lemma_close_same(p.px, s / 2 + 2);
    }
}

/// A frame of one prediction mode, in any of the codes, decodes to within half a step and two.
pub proof fn law_plain_close(
    p: Pic,
    ct: CompressionType,
    block_size: u16,
    mode: PredictionMode,
    first: bool,
    fq: FrameQuant,
    bands: Option<Seq<u8>>,
    x: Setting,
    s: int,
    m: int,
)
    requires
        p.ok(),
        fits(x, p),
        x.ct == ct,
        quant::steps_within(fq.step, bands, s),
        bounds::small(p.px, m),
        0 <= m <= exact::plane_bound(),
    ensures
        ({
            let r = frame::plain_frame(p, ct, block_size, mode, first, fq, bands);
            r is Ok ==> faithful(r->Ok_0, p, x, s / 2 + 2)
        }),
{
    let res = frame::frame_residuals(p, mode, fq, bands);
    let r = frame::coded(p, res, ct, block_size, first);
    lemma_residuals(p, mode, fq, bands, s, m);
    if r is Ok {
        let c = r->Ok_0;
        let data = frame::frame_bytes(p, c, mode.code());
        frame::lemma_counts(p.w, p.h, p.c);
        frame::lemma_frame_len(p, c, mode.code());
        if data.len() <= u32::MAX {
            match ct {
                CompressionType::GolombRice => {
                    if c.kind == 1 {
                        let k = crate::encoder::rle_golomb::best_k(res);
                        choose_k::lemma_best_k(codes::zigzags(res));
                        rle_golomb::law_rle_golomb_roundtrip(res, k);
                    } else {
                        golomb::law_golomb_block_roundtrip(res, p.w, p.h, p.c);
                    }
                },
                CompressionType::ExpGolomb => {
                    exp_golomb::law_exp_golomb_roundtrip(res);
                },
                CompressionType::Transform => {
                    transform::law_transform_frame_roundtrip(
                        res,
                        p.w * p.c,
                        p.h,
                        block_size as int,
                    );
                    assert(c.body[0] == block_size as u8);
                },
            }
            lemma_residual_frame(p, c, mode, x, res, s / 2 + 2);
        }
    }
}

/// The same on top of the range coder.
proof fn lemma_cabac(
    p: Pic,
    mode: PredictionMode,
    fq: FrameQuant,
    bands: Option<Seq<u8>>,
    x: Setting,
    s: int,
    m: int,
)
    requires
        p.ok(),
        fits(x, p),
        x.golomb(),
        quant::steps_within(fq.step, bands, s),
        bounds::small(p.px, m),
        0 <= m <= exact::plane_bound(),
    ensures
        faithful(
            frame::frame_bytes(
                p,
                cand::cabac_coded(
                    frame::frame_residuals(p, mode, fq, bands),
                    (p.w * p.c) as usize,
                ),
                mode.code(),
            ),
            p,
            x,
            s / 2 + 2,
        ),
{
    let res = frame::frame_residuals(p, mode, fq, bands);
    let stride = (p.w * p.c) as usize;
    let c = cand::cabac_coded(res, stride);
    lemma_residuals(p, mode, fq, bands, s, m);
    exact::lemma_mags(res, 2 * m + 2 * s + 8);
    rle_cabac::law_cabac_roundtrip(res, Some(stride));
    let k = crate::encoder::rle_cabac::cabac_k(res);
    choose_k::lemma_best_k(crate::encoder::rle_cabac::mags(res));
    assert(c.body.skip(1) =~= crate::encoder::rle_cabac::cabac_body(res, Some(stride)));
    assert(c.body[0] == k as u8);
    lemma_residual_frame(p, c, mode, x, res, s / 2 + 2);
}

/// What the first byte of a payload of transformed blocks says.
proof fn lemma_flag_byte(k: nat, v: cand::Variant, searched: bool)
    requires
        k <= 6,
        cand::variant_ok(v),
    ensures
        ({
            let fb = cand::flag_byte(k, v, searched);
            &&& fb % 16 == k
            &&& ((fb / 32) % 2 == 1 <==> v.bw == 8)
            &&& (fb / 128 == 1 <==> v.bh == 8)
        }),
{
    let fb = cand::flag_byte(k, v, searched);
    assert(fb as int == k + (if searched {
        0x10int
    } else {
        0
    }) + (if v.bw == 8 {
        0x20int
    } else {
        0
    }) + (if v.weighted {
        0x40int
    } else {
        0
    }) + (if v.bh == 8 {
        0x80int
    } else {
        0
    }));
}

/// Coded levels read back.
proof fn lemma_levels(
    p: Pic,
    levels: Seq<i32>,
    v: cand::Variant,
    searched: bool,
    fh: FrameHeader,
    x: Setting,
)
    requires
        p.ok(),
        fits(x, p),
        x.golomb(),
        cand::variant_ok(v),
        levels.len() == p.px.len(),
        bounds::small(levels, syn::MAX_QUOTIENT as int),
        fh.frame_type == 6,
    ensures
        rec::residuals_result(cand::levels_body(levels, v, searched), fh, x) == Ok::<
            Seq<i32>,
            Fault,
        >(dct::inverse_interleaved(levels, p.w, p.h, p.c, v.bw as int, v.bh as int)),
{
    let k = crate::encoder::rle_cabac::cabac_k(levels);
    let code = crate::encoder::rle_cabac::cabac_body(levels, None);
    let body = cand::levels_body(levels, v, searched);
    choose_k::lemma_best_k(crate::encoder::rle_cabac::mags(levels));
    lemma_flag_byte(k, v, searched);
    assert(body.skip(1) =~= code);
    exact::lemma_mags(levels, syn::MAX_QUOTIENT as int);
    rle_cabac::law_cabac_roundtrip(levels, None);
    exact::lemma_body_longer(levels);
}

/// A frame of transformed blocks decodes to within a bound that goes with the step.
pub proof fn law_dct_frame_close(p: Pic, fq: FrameQuant, x: Setting, s: int, m: int)
    requires
        p.ok(),
        fits(x, p),
        x.golomb(),
        1 <= s <= 255,
        fq.step <= s,
        bounds::small(p.px, m),
        0 <= m <= 0x1000,
    ensures
        ({
            let body = cand::best_dct_body(p, fq);
            faithful(cand::entry(p, body, body[0] % 16, 6).data, p, x, loss(s, m))
        }),
{
    let i = cand::best_variant(p, fq, cand::variants(fq).len());
    cand::lemma_best_variant(p, fq, cand::variants(fq).len());
    let v = cand::variants(fq)[i];
    cand::lemma_variants(fq, i);
    let body = cand::best_dct_body(p, fq);
    let fh = FrameHeader::spec_with_type(
        body.len() as u32,
        p.px.len() as u32,
        body[0] % 16,
        6,
    );
    let (bw, bh) = (v.bw as int, v.bh as int);
    assert(p.px.len() == p.w * p.h * p.c) by {
        frame::lemma_counts(p.w, p.h, p.c);
    }
    let plain = cand::levels_of(p, fq, v);
    let q = if fq.spec_lossy() {
        quant::at_least_one(fq.step) as u8
    } else {
        1
    };
    dct_path::law_dct_close(
        p.px,
        p.w,
        p.h,
        p.c,
        q,
        bw,
        bh,
        v.weighted,
        fq.q1_matrix_scale && v.weighted,
        s,
        m,
    );
    let searched = rdoq::trellis_interleaved(
        p.px,
        p.w,
        p.h,
        p.c,
        fq.step,
        bw,
        bh,
        dct::qm_table(bw, bh),
    );
    dct_path::law_trellis_image_close(p.px, p.w, p.h, p.c, fq.step, bw, bh, s, m, beyond(m));
    bounds::lemma_small_wider(plain, 9 * m + 2 * s, syn::MAX_QUOTIENT as int);
    bounds::lemma_small_wider(
        searched,
        9 * m + 3 * s + 12 + beyond(m),
        syn::MAX_QUOTIENT as int,
    );
    lemma_levels(p, plain, v, false, fh, x);
    lemma_levels(p, searched, v, true, fh, x);
    close::lemma_close_wider(
        dct::inverse_interleaved(plain, p.w, p.h, p.c, bw, bh),
        p.px,
        32 * s + 20,
        loss(s, m),
    );
    assert(body == cand::levels_body(plain, v, false) || body == cand::levels_body(
        searched,
        v,
        true,
    )) by {
        reveal(cand::dct_body);
        reveal(cand::searched_body);
    }
    let c = Coded { body, param: body[0] % 16, kind: 6 };
    exact::lemma_frame_parts(p, c, domain::PRED_MODE_UNSET);
    assert(FrameHeader { pred_mode: domain::PRED_MODE_UNSET, ..fh } == fh);
    domain::law_frame_header_roundtrip(fh, body);
    reveal(rec::flat_result);
}

/// A frame of predicted and transformed blocks decodes to within a bound that goes with the step.
pub proof fn law_intra_frame_close(p: Pic, fq: FrameQuant, x: Setting, s: int, m: int)
    requires
        p.ok(),
        fits(x, p),
        x.golomb(),
        p.c == 3,
        1 <= s <= 255,
        fq.step <= s,
        fq.chroma_step <= s,
        bounds::small(p.px, m),
        0 <= m <= 0x1000,
    ensures
        faithful(
            cand::entry(
                p,
                crate::encoder::intra_transform::intra_payload(
                    p.px,
                    p.w,
                    p.h,
                    fq.step,
                    fq.bias,
                    fq.chroma_step,
                    fq.chroma_bias,
                ),
                0,
                8,
            ).data,
            p,
            x,
            8 * s + 52,
        ),
{
    let body = crate::encoder::intra_transform::intra_payload(
        p.px,
        p.w,
        p.h,
        fq.step,
        fq.bias,
        fq.chroma_step,
        fq.chroma_bias,
    );
    exact::lemma_frame_parts(p, Coded { body, param: 0, kind: 8 }, domain::PRED_MODE_UNSET);
    frame::lemma_counts(p.w, p.h, p.c);
    reveal(rec::flat_result);
    if body.len() <= u32::MAX {
        intra_transform::law_intra_close(
            p.px,
            p.w,
            p.h,
            fq.step,
            fq.bias,
            fq.chroma_step,
            fq.chroma_bias,
            s,
            m,
        );
    }
}

/// The frames that lose nothing.
proof fn lemma_exact_frames(
    p: Pic,
    first: bool,
    copies: bool,
    best: Entry,
    flat: bool,
    x: Setting,
    d: int,
    e: int,
)
    requires
        p.ok(),
        fits(x, p),
        x.ok(),
        x.golomb(),
        bounds::small(p.px, exact::plane_bound()),
        0 <= d <= e,
        faithful_any(best.data, p, x, e),
        flat ==> faithful(best.data, p, x, d),
    ensures
        faithful_any(cand::with_exact(best, p, first, copies).data, p, x, e),
        flat ==> faithful(cand::with_exact(best, p, first, copies).data, p, x, d),
{
    exact::lemma_banded(p, x);
    let a = cand::entry(p, cand::bands_of(p).0, cand::bands_of(p).1, 2).data;
    lemma_exact(a, p, x, d);
    lemma_any(a, p, x, d, e);
    if crate::encoder::palette::palette_fits(p.px) {
        exact::lemma_palette(p, x);
        let b = cand::entry(
            p,
            crate::encoder::palette::palette_bytes(p.px, p.w as nat),
            1,
            4,
        ).data;
        lemma_exact(b, p, x, d);
        lemma_any(b, p, x, d, e);
    }
    exact::lemma_copies(p, x);
    let c = cand::entry(p, cand::copies_of(p), 0, 7).data;
    lemma_exact(c, p, x, d);
    lemma_any(c, p, x, d, e);
}

/// Whichever frame wins decodes to within a bound that goes with the step.
proof fn lemma_contest(
    p: Pic,
    ct: CompressionType,
    block_size: u16,
    first: bool,
    fq: FrameQuant,
    preferred: Option<PredictionMode>,
    bands: Option<Seq<u8>>,
    planar: Option<Seq<u8>>,
    copies: bool,
    x: Setting,
    s: int,
    m: int,
    e: int,
)
    requires
        p.ok(),
        fits(x, p),
        x.ok(),
        x.ct == ct,
        within(fq, bands, s),
        bounds::small(p.px, m),
        0 <= m <= 0x1000,
        loss(s, m) <= e,
        planar matches Some(body) ==> faithful_any(cand::entry(p, body, 0, 3).data, p, x, e),
    ensures
        ({
            let r = cand::contest(
                p,
                ct,
                block_size,
                first,
                fq,
                preferred,
                bands,
                planar,
                copies,
            );
            r is Ok ==> faithful_any(r->Ok_0.data, p, x, e) && (planar is None ==> faithful(
                r->Ok_0.data,
                p,
                x,
                loss(s, m),
            ))
        }),
{
    let d = loss(s, m);
    let (a, b) = (cand::lead_mode(p, preferred), cand::next_mode(p, preferred));
    law_plain_close(p, ct, block_size, a, first, fq, bands, x, s, m);
    law_plain_close(p, ct, block_size, b, first, fq, bands, x, s, m);
    let o = cand::opening(p, ct, block_size, first, fq, preferred, bands);
    if o is Ok {
        let e0 = o->Ok_0;
        lemma_wider(e0.data, p, x, s / 2 + 2, d);
        lemma_any(e0.data, p, x, d, e);
        if ct == CompressionType::GolombRice {
            let e1 = cand::with_planar(e0, p, planar);
            bounds::lemma_small_wider(p.px, m, exact::plane_bound());
            lemma_exact_frames(p, first, copies, e1, planar is None, x, d, e);
            let cab = frame::frame_bytes(
                p,
                cand::cabac_coded(frame::frame_residuals(p, a, fq, bands), (p.w * p.c) as usize),
                a.code(),
            );
            lemma_cabac(p, a, fq, bands, x, s, m);
            lemma_wider(cab, p, x, s / 2 + 2, d);
            lemma_any(cab, p, x, d, e);
            law_dct_frame_close(p, fq, x, s, m);
            let body = cand::best_dct_body(p, fq);
            lemma_any(cand::entry(p, body, body[0] % 16, 6).data, p, x, d, e);
            if p.c == 3 {
                law_intra_frame_close(p, fq, x, s, m);
                let intra = cand::entry(
                    p,
                    crate::encoder::intra_transform::intra_payload(
                        p.px,
                        p.w,
                        p.h,
                        fq.step,
                        fq.bias,
                        fq.chroma_step,
                        fq.chroma_bias,
                    ),
                    0,
                    8,
                ).data;
                lemma_wider(intra, p, x, 8 * s + 52, d);
                lemma_any(intra, p, x, d, e);
            }
        }
    }
}

proof fn lemma_wider(data: Seq<u8>, p: Pic, x: Setting, d: int, e: int)
    requires
        faithful(data, p, x, d),
        d <= e,
    ensures
        faithful(data, p, x, e),
{
    if data.len() <= u32::MAX {
        close::lemma_close_wider(rec::flat_result(data, x)->Ok_0, p.px, d, e);
    }
}

/// One of three planes.
proof fn lemma_sub_frame(
    p: Pic,
    block_size: u16,
    fq: FrameQuant,
    preferred: Option<PredictionMode>,
    bands: Option<Seq<u8>>,
    x: Setting,
    s: int,
    m: int,
)
    requires
        p.ok(),
        fits(x, p),
        x.ok(),
        x.golomb(),
        within(fq, bands, s),
        bounds::small(p.px, m),
        0 <= m <= 0x1000,
    ensures
        ({
            let r = enc_planar::sub_frame(
                p,
                CompressionType::GolombRice,
                block_size,
                fq,
                preferred,
                bands,
            );
            r is Ok ==> faithful(r->Ok_0.data, p, x, loss(s, m))
        }),
{
    reveal(enc_planar::sub_frame);
    lemma_contest(
        p,
        CompressionType::GolombRice,
        enc_planar::sub_block(block_size, p.w),
        false,
        fq,
        preferred,
        bands,
        None,
        true,
        x,
        s,
        m,
        loss(s, m),
    );
}

/// What the first two bytes of a payload of three planes say.
proof fn lemma_head(p: Pic, half: bool)
    ensures
        ({
            let head = enc_planar::head_of(p, half);
            let y = plane::component(p.px, 3, 0);
            &&& head.len() == 2
            &&& head[0] as int / 16 - 8 == enc_planar::share_of(y, plane::component(p.px, 3, 1))
            &&& head[0] as int % 16 - 8 == enc_planar::share_of(y, plane::component(p.px, 3, 2))
            &&& (head[1] % 2 == 1 <==> half)
        }),
{
    let y = plane::component(p.px, 3, 0);
    let (co, cg) = (plane::component(p.px, 3, 1), plane::component(p.px, 3, 2));
    enc_planar::lemma_best_share(y, co, enc_planar::CFL_CANDIDATES as nat);
    enc_planar::lemma_best_share(y, cg, enc_planar::CFL_CANDIDATES as nat);
}

/// The components of an image differ by no more than `v` near each other.
pub open spec fn even_image(p: Pic, v: int) -> bool {
    forall|k: int|
        0 <= k < p.c ==> planar::even(#[trigger] plane::component(p.px, p.c, k), p.w, p.h, v)
}

/// Chroma without its share of luma, in full size.
spec fn chroma_rest(p: Pic, k: int) -> Seq<i32> {
    let (y, ch) = (plane::component(p.px, 3, 0), plane::component(p.px, 3, k));
    enc_planar::less_share(y, ch, enc_planar::share_of(y, ch))
}

/// The coded plane of chroma.
spec fn chroma_plane(p: Pic, half: bool, k: int) -> Seq<i32> {
    if half {
        enc_planar::halved(chroma_rest(p, k), p.w, p.h)
    } else {
        chroma_rest(p, k)
    }
}

/// A plane of chroma that is close to the coded one, with luma that is close, makes chroma that is close.
proof fn lemma_chroma_back(
    p: Pic,
    half: bool,
    k: int,
    y: Seq<i32>,
    a: Seq<i32>,
    x: Setting,
    e: int,
    m: int,
    v: int,
)
    requires
        p.ok(),
        p.c == 3,
        fits(x, p),
        1 <= k <= 2,
        bounds::small(p.px, m),
        0 <= m <= 0xc00,
        even_image(p, v),
        0 <= v <= 0x1_0000,
        0 <= e <= 0x10_0000,
        close::close(y, plane::component(p.px, 3, 0), e),
        close::close(a, chroma_plane(p, half, k), e),
    ensures
        ({
            let sh = enc_planar::share_of(
                plane::component(p.px, 3, 0),
                plane::component(p.px, 3, k),
            );
            close::close(
                rec::chroma_back(y, a, x, half, sh),
                plane::component(p.px, 3, k),
                if half {
                    4 * e + 6 * v + 5
                } else {
                    2 * e + 1
                },
            )
        }),
{
    enc_planar::lemma_planes(p);
    let n = (p.w * p.h) as nat;
    let (luma, ch) = (plane::component(p.px, 3, 0), plane::component(p.px, 3, k));
    let sh = enc_planar::share_of(luma, ch);
    let rest = chroma_rest(p, k);
    enc_planar::lemma_best_share(luma, ch, enc_planar::CFL_CANDIDATES as nat);
    dct_path::lemma_component_small(p.px, 3, 0, n, m);
    dct_path::lemma_component_small(p.px, 3, k, n, m);
    bounds::lemma_small_wider(luma, m, 0x100_0000);
    bounds::lemma_small_wider(ch, m, 0x100_0000);
    exact::lemma_planes_small(p, m);
    let r = exact::plane_reach(m);
    let (_y, c1, c2) = enc_planar::planes_of(p, false);
    assert(c1.px == chroma_rest(p, 1) && c2.px == chroma_rest(p, 2));
    assert(bounds::small(rest, r));
    planar::law_cfl_roundtrip(luma, ch, sh);
    close::lemma_close_small(y, luma, e, m);
    bounds::lemma_small_wider(y, m + e, 0x100_0000);
    if half {
        let (sw, shh) = ((p.w + 1) / 2, (p.h + 1) / 2);
        let small = enc_planar::halved(rest, p.w, p.h);
        assert(sw * shh == shh * sw) by (nonlinear_arith);
        planar::lemma_halved_small(rest, p.w, p.h, r);
        close::lemma_close_small(a, small, e, r);
        bounds::lemma_small_wider(a, r + e, 0x100_0000);
        bounds::lemma_small_wider(small, r, 0x100_0000);
        planar::law_upsampled_close(a, small, sw, shh, p.w, p.h, e);
        planar::lemma_less_share_even(luma, ch, sh, p.w, p.h, v);
        bounds::lemma_small_wider(rest, r, 0x100_0000);
        planar::law_half_close(rest, p.w, p.h, 2 * v + 1);
        let full = planar::upsampled(a, sw, shh, p.w, p.h);
        let back = planar::upsampled(small, sw, shh, p.w, p.h);
        close::lemma_close_steps(full, back, rest, 3 * e + 1, 3 * (2 * v + 1));
        let f = 3 * e + 1 + 3 * (2 * v + 1);
        close::lemma_close_small(full, rest, f, r);
        bounds::lemma_small_wider(full, r + f, 0x100_0000);
        planar::law_plus_share_close(y, luma, full, rest, sh, e, f);
        close::lemma_close_wider(
            planar::plus_share(y, full, sh),
            ch,
            f + e / 4 + 1,
            4 * e + 6 * v + 5,
        );
    } else {
        close::lemma_close_small(a, rest, e, r);
        bounds::lemma_small_wider(a, r + e, 0x100_0000);
        bounds::lemma_small_wider(rest, r, 0x100_0000);
        planar::law_plus_share_close(y, luma, a, rest, sh, e, e);
        close::lemma_close_wider(
            planar::plus_share(y, a, sh),
            ch,
            e + e / 4 + 1,
            2 * e + 1,
        );
    }
}

/// The coded planes are those of the image, and small.
proof fn lemma_planes_near(p: Pic, half: bool, m: int)
    requires
        p.ok(),
        p.c == 3,
        bounds::small(p.px, m),
        0 <= m <= 0xc00,
    ensures
        ({
            let (y, a, b) = enc_planar::planes_of(p, half);
            let r = exact::plane_reach(m);
            &&& y.px == plane::component(p.px, 3, 0)
            &&& a.px == chroma_plane(p, half, 1)
            &&& b.px == chroma_plane(p, half, 2)
            &&& bounds::small(y.px, r)
            &&& bounds::small(a.px, r)
            &&& bounds::small(b.px, r)
        }),
{
    exact::lemma_planes_small(p, m);
    enc_planar::lemma_planes(p);
    let r = exact::plane_reach(m);
    let (_y, c1, c2) = enc_planar::planes_of(p, false);
    assert(c1.px == chroma_rest(p, 1) && c2.px == chroma_rest(p, 2));
    if half {
        planar::lemma_halved_small(chroma_rest(p, 1), p.w, p.h, r);
        planar::lemma_halved_small(chroma_rest(p, 2), p.w, p.h, r);
    }
}

/// The frame of three planes decodes to within a bound that goes with the step.
proof fn lemma_planar(
    p: Pic,
    block_size: u16,
    fq: FrameQuant,
    bands: Option<Seq<u8>>,
    x: Setting,
    s: int,
    m: int,
    v: int,
)
    requires
        p.ok(),
        fits(x, p),
        x.ok(),
        x.golomb(),
        p.c == 3,
        within(fq, bands, s),
        bounds::small(p.px, m),
        0 <= m <= 0xc00,
        even_image(p, v),
        0 <= v <= 0x1_0000,
    ensures
        ({
            let r = enc_planar::planar_payload(
                p,
                CompressionType::GolombRice,
                block_size,
                fq,
                bands,
            );
            r is Ok ==> faithful_any(
                cand::entry(p, r->Ok_0, 0, 3).data,
                p,
                x,
                image_loss(fq, s, m, v),
            )
        }),
{
    let ct = CompressionType::GolombRice;
    let r = enc_planar::planar_payload(p, ct, block_size, fq, bands);
    if r is Ok {
        let body = r->Ok_0;
        let data = cand::entry(p, body, 0, 3).data;
        exact::lemma_frame_parts(p, Coded { body, param: 0, kind: 3 }, domain::PRED_MODE_UNSET);
        if data.len() <= u32::MAX {
            let half = fq.spec_lossy() && fq.chroma_half_res;
            let (y, a, b) = enc_planar::planes_of(p, half);
            let cq = enc_planar::chroma_quant(fq);
            let cb = enc_planar::chroma_bands(bands, half);
            let (xs, xc) = (rec::plane_setting(x, false), rec::plane_setting(x, half));
            readable::lemma_plane_sizes(p, half, x);
            lemma_planes_near(p, half, m);
            let reach = exact::plane_reach(m);
            assert(within(cq, cb, s));
            let e = enc_planar::sub_frame(y, ct, block_size, fq, None, bands)->Ok_0;
            let g = enc_planar::sub_frame(a, ct, block_size, cq, e.mode, cb)->Ok_0;
            let k = enc_planar::sub_frame(b, ct, block_size, cq, g.mode, cb)->Ok_0;
            lemma_sub_frame(y, block_size, fq, None, bands, xs, s, reach);
            lemma_sub_frame(a, block_size, cq, e.mode, cb, xc, s, reach);
            lemma_sub_frame(b, block_size, cq, g.mode, cb, xc, s, reach);
            let head = enc_planar::head_of(p, half);
            exact::lemma_plane_parts(head, e.data, g.data, k.data);
            let ps = seq![e.data, g.data, k.data];
            framing::lemma_framed_len(ps, 0);
            framing::lemma_framed_len(ps, 1);
            framing::lemma_framed_len(ps, 2);
            assert(ps[0] == e.data && ps[1] == g.data && ps[2] == k.data);
            lemma_head(p, half);
            let q0 = 6 + e.data.len() as int;
            let q1 = 10 + e.data.len() + g.data.len() as int;
            assert(rec::plane_at(body, 2, xs) is Ok);
            assert(rec::plane_at(body, q0, xc) is Ok);
            assert(rec::plane_at(body, q1, xc) is Ok);
            let y1 = rec::flat_result(e.data, xs)->Ok_0;
            let a1 = rec::flat_result(g.data, xc)->Ok_0;
            let b1 = rec::flat_result(k.data, xc)->Ok_0;
            let d = loss(s, reach);
            lemma_chroma_back(p, half, 1, y1, a1, x, d, m, v);
            lemma_chroma_back(p, half, 2, y1, b1, x, d, m, v);
            lemma_image_back(p, half, y1, a1, b1, x, d, image_loss(fq, s, m, v));
            assert(rec::frame_result(data, x) == rec::planar_result(body, x));
        }
    }
}

/// Planes that are close make an image that is close.
proof fn lemma_image_back(
    p: Pic,
    half: bool,
    y: Seq<i32>,
    a: Seq<i32>,
    b: Seq<i32>,
    x: Setting,
    d: int,
    e: int,
)
    requires
        p.ok(),
        p.c == 3,
        fits(x, p),
        0 <= d <= e,
        close::close(y, plane::component(p.px, 3, 0), d),
        ({
            let luma = plane::component(p.px, 3, 0);
            let (co, cg) = (plane::component(p.px, 3, 1), plane::component(p.px, 3, 2));
            &&& close::close(
                rec::chroma_back(y, a, x, half, enc_planar::share_of(luma, co)),
                co,
                e,
            )
            &&& close::close(
                rec::chroma_back(y, b, x, half, enc_planar::share_of(luma, cg)),
                cg,
                e,
            )
        }),
    ensures
        ({
            let luma = plane::component(p.px, 3, 0);
            let (co, cg) = (plane::component(p.px, 3, 1), plane::component(p.px, 3, 2));
            close::close(
                plane::interleaved(
                    seq![
                        y,
                        rec::chroma_back(y, a, x, half, enc_planar::share_of(luma, co)),
                        rec::chroma_back(y, b, x, half, enc_planar::share_of(luma, cg)),
                    ],
                    (x.w() * x.h()) as nat,
                ),
                p.px,
                e,
            )
        }),
{
    enc_planar::lemma_planes(p);
    let luma = plane::component(p.px, 3, 0);
    let (co, cg) = (plane::component(p.px, 3, 1), plane::component(p.px, 3, 2));
    let n = (p.w * p.h) as nat;
    close::lemma_close_wider(y, luma, d, e);
    let ps = seq![
        y,
        rec::chroma_back(y, a, x, half, enc_planar::share_of(luma, co)),
        rec::chroma_back(y, b, x, half, enc_planar::share_of(luma, cg)),
    ];
    let qs = plane::components(p.px, 3);
    assert forall|k: int| 0 <= k < 3 implies close::close(#[trigger] ps[k], qs[k], e)
        && ps[k].len() == n by {
        assert(qs[0] == luma && qs[1] == co && qs[2] == cg);
    }
    close::lemma_interleaved_close(ps, qs, n, e);
}

/// Whatever way of coding a frame is shortest, the frame decodes to within a bound that goes with the
/// step, as long as lengths fit their fields.
pub proof fn law_frame_close(
    p: Pic,
    ct: CompressionType,
    block_size: u16,
    first: bool,
    fq: FrameQuant,
    preferred: Option<PredictionMode>,
    bands: Option<Seq<u8>>,
    copies: bool,
    x: Setting,
    s: int,
    m: int,
    v: int,
)
    requires
        p.ok(),
        fits(x, p),
        x.ct == ct,
        within(fq, bands, s),
        bounds::small(p.px, m),
        0 <= m <= 0xc00,
        even_image(p, v),
        0 <= v <= 0x1_0000,
        ({
            let r = adaptive::adaptive(
                p,
                ct,
                block_size,
                first,
                fq,
                preferred,
                bands,
                copies,
            );
            r is Ok && r->Ok_0.data.len() <= u32::MAX
        }),
    ensures
        ({
            let d = adaptive::adaptive(
                p,
                ct,
                block_size,
                first,
                fq,
                preferred,
                bands,
                copies,
            )->Ok_0.data;
            let r = rec::frame_result(d, x);
            r is Ok && close::close(r->Ok_0, p.px, image_loss(fq, s, m, v))
        }),
{
    let e = image_loss(fq, s, m, v);
    assert(x.ok());
    assert(loss(s, m) <= e);
    if ct == CompressionType::GolombRice && p.c == 3 {
        lemma_planar(p, block_size, fq, bands, x, s, m, v);
        let body = enc_planar::planar_payload(p, ct, block_size, fq, bands)->Ok_0;
        let some = Some(body);
        lemma_contest(p, ct, block_size, first, fq, preferred, bands, some, copies, x, s, m, e);
    } else {
        lemma_contest(p, ct, block_size, first, fq, preferred, bands, None, copies, x, s, m, e);
    }
}

/// Coded as residuals only, the shortest frame decodes to within half a step and two.
pub proof fn law_simple_close(
    p: Pic,
    ct: CompressionType,
    block_size: u16,
    first: bool,
    fq: FrameQuant,
    preferred: Option<PredictionMode>,
    bands: Option<Seq<u8>>,
    copies: bool,
    x: Setting,
    s: int,
    m: int,
)
    requires
        p.ok(),
        fits(x, p),
        x.ct == ct,
        ct != CompressionType::GolombRice,
        quant::steps_within(fq.step, bands, s),
        bounds::small(p.px, m),
        0 <= m <= exact::plane_bound(),
        ({
            let r = adaptive::adaptive(
                p,
                ct,
                block_size,
                first,
                fq,
                preferred,
                bands,
                copies,
            );
            r is Ok && r->Ok_0.data.len() <= u32::MAX
        }),
    ensures
        ({
            let d = adaptive::adaptive(
                p,
                ct,
                block_size,
                first,
                fq,
                preferred,
                bands,
                copies,
            )->Ok_0.data;
            let r = rec::frame_result(d, x);
            r is Ok && close::close(r->Ok_0, p.px, s / 2 + 2)
        }),
{
    let (a, b) = (cand::lead_mode(p, preferred), cand::next_mode(p, preferred));
    law_plain_close(p, ct, block_size, a, first, fq, bands, x, s, m);
    law_plain_close(p, ct, block_size, b, first, fq, bands, x, s, m);
    let e = cand::opening(p, ct, block_size, first, fq, preferred, bands)->Ok_0;
    lemma_any(e.data, p, x, s / 2 + 2, s / 2 + 2);
}

} // verus!

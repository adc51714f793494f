//! Every frame that the encoder makes can be decoded, whether or not anything is lost.

use vstd::prelude::*;
use crate::common::arith;
use crate::common::blocks;
use crate::common::config::Setup;
use crate::common::domain;
use crate::common::domain::{CompressionType, FrameHeader, PredictionMode};
use crate::common::error::Fault;
use crate::common::framing;
use crate::common::lic;
use crate::decoder::exact;
use crate::decoder::exact::fits;
use crate::decoder::intra_transform;
use crate::decoder::lossless;
use crate::decoder::palette;
use crate::decoder::playback;
use crate::decoder::reconstruct as rec;
use crate::decoder::reconstruct::Setting;
use crate::decoder::rle_cabac;
use crate::encoder::candidate as cand;
use crate::encoder::candidate::Entry;
use crate::encoder::chain;
use crate::encoder::chain::{Past, Reel};
use crate::encoder::film;
use crate::encoder::film::Still;
use crate::encoder::frame;
use crate::encoder::frame::{Coded, FrameQuant, Pic};
use crate::encoder::frame_form;
use crate::encoder::lengths;
use crate::encoder::planar as enc_planar;
use crate::encoder::sequence;

verus! {

/// A frame that is not one of three planes can be decoded, unless lengths do not fit their fields.
pub open spec fn readable(data: Seq<u8>, x: Setting) -> bool {
    data.len() <= u32::MAX ==> rec::flat_result(data, x) is Ok
}

/// A frame can be decoded, unless lengths do not fit their fields.
pub open spec fn readable_any(data: Seq<u8>, x: Setting) -> bool {
    data.len() <= u32::MAX ==> rec::frame_result(data, x) is Ok
}

proof fn lemma_any(data: Seq<u8>, x: Setting)
    requires
        readable(data, x),
    ensures
        readable_any(data, x),
{
    reveal(rec::flat_result);
}

/// A frame of residuals.
proof fn lemma_residuals(p: Pic, c: Coded, pred_mode: u8, x: Setting)
    requires
        x.golomb() ==> c.kind == 0 || c.kind == 1 || c.kind == 5 || c.kind == 6,
        forall|fh: FrameHeader|
            fh.frame_type == c.kind && fh.coding_params == c.param
                ==> #[trigger] rec::residuals_result(c.body, fh, x) is Ok,
    ensures
        readable(frame::frame_bytes(p, c, pred_mode), x),
{
    exact::lemma_frame_parts(p, c, pred_mode);
    reveal(rec::flat_result);
    let fh = FrameHeader::parsed(frame::frame_bytes(p, c, pred_mode));
    assert(rec::residuals_result(c.body, fh, x) is Ok);
}

/// A frame of one prediction mode.
proof fn lemma_plain(
    p: Pic,
    ct: CompressionType,
    block_size: u16,
    mode: PredictionMode,
    first: bool,
    fq: FrameQuant,
    bands: Option<Seq<u8>>,
    x: Setting,
)
    requires
        x.ct == ct,
    ensures
        ({
            let r = frame::plain_frame(p, ct, block_size, mode, first, fq, bands);
            r is Ok ==> readable(r->Ok_0, x)
        }),
{
    let res = frame::frame_residuals(p, mode, fq, bands);
    let r = frame::coded(p, res, ct, block_size, first);
    if r is Ok {
        let c = r->Ok_0;
        if ct == CompressionType::Transform {
            assert(c.body[0] == block_size as u8);
        }
        lemma_residuals(p, c, mode.code(), x);
    }
}

/// A frame on top of the range coder.
proof fn lemma_cabac(p: Pic, res: Seq<i32>, mode: PredictionMode, x: Setting)
    requires
        x.golomb(),
    ensures
        readable(
            frame::frame_bytes(p, cand::cabac_coded(res, (p.w * p.c) as usize), mode.code()),
            x,
        ),
{
    let stride = (p.w * p.c) as usize;
    let c = cand::cabac_coded(res, stride);
    rle_cabac::lemma_body_ok(res, Some(stride));
    assert(c.body.skip(1) =~= crate::encoder::rle_cabac::cabac_body(res, Some(stride)));
    lemma_residuals(p, c, mode.code(), x);
}

proof fn lemma_levels(levels: Seq<i32>, v: cand::Variant, searched: bool)
    ensures
        cand::levels_body(levels, v, searched).len() >= 2,
        rle_cabac::body_ok(cand::levels_body(levels, v, searched).skip(1)),
{
    rle_cabac::lemma_body_ok(levels, None);
    exact::lemma_body_longer(levels);
    assert(cand::levels_body(levels, v, searched).skip(1)
        =~= crate::encoder::rle_cabac::cabac_body(levels, None));
}

/// A frame of transformed blocks.
proof fn lemma_dct(p: Pic, fq: FrameQuant, x: Setting)
    requires
        x.golomb(),
    ensures
        ({
            let body = cand::best_dct_body(p, fq);
            readable(cand::entry(p, body, body[0] % 16, 6).data, x)
        }),
{
    let v = cand::variants(fq)[cand::best_variant(p, fq, cand::variants(fq).len())];
    let body = cand::best_dct_body(p, fq);
    reveal(cand::dct_body);
    reveal(cand::searched_body);
    lemma_levels(cand::levels_of(p, fq, v), v, false);
    lemma_levels(
        crate::encoder::rdoq::trellis_interleaved(
            p.px,
            p.w,
            p.h,
            p.c,
            fq.step,
            v.bw as int,
            v.bh as int,
            crate::common::dct::qm_table(v.bw as int, v.bh as int),
        ),
        v,
        true,
    );
    lemma_residuals(
        p,
        Coded { body, param: body[0] % 16, kind: 6 },
        domain::PRED_MODE_UNSET,
        x,
    );
}

/// A frame of predicted and transformed blocks.
proof fn lemma_intra(p: Pic, fq: FrameQuant, x: Setting)
    requires
        fits(x, p),
        x.golomb(),
        p.c == 3,
    ensures
        readable(
            cand::entry(
                p,
                crate::encoder::intra_transform::intra_payload(
                    p.px,
                    p.w,
                    p.h,
                    fq.step,
                    fq.bias,
                    fq.chroma_step,
                    fq.chroma_bias,
                ),
                0,
                8,
            ).data,
            x,
        ),
{
    let body = crate::encoder::intra_transform::intra_payload(
        p.px,
        p.w,
        p.h,
        fq.step,
        fq.bias,
        fq.chroma_step,
        fq.chroma_bias,
    );
    exact::lemma_frame_parts(p, Coded { body, param: 0, kind: 8 }, domain::PRED_MODE_UNSET);
    reveal(rec::flat_result);
    if body.len() <= u32::MAX {
        intra_transform::lemma_intra_reads(
            p.px,
            p.w,
            p.h,
            fq.step,
            fq.bias,
            fq.chroma_step,
            fq.chroma_bias,
        );
    }
}

/// The frames that lose nothing.
proof fn lemma_exact_frames(p: Pic, first: bool, copies: bool, e: Entry, flat: bool, x: Setting)
    requires
        p.ok(),
        fits(x, p),
        x.ok(),
        x.golomb(),
        readable_any(e.data, x),
        flat ==> readable(e.data, x),
    ensures
        readable_any(cand::with_exact(e, p, first, copies).data, x),
        flat ==> readable(cand::with_exact(e, p, first, copies).data, x),
{
    exact::lemma_banded(p, x);
    lemma_any(cand::entry(p, cand::bands_of(p).0, cand::bands_of(p).1, 2).data, x);
    if crate::encoder::palette::palette_fits(p.px) {
        let body = crate::encoder::palette::palette_bytes(p.px, p.w as nat);
        let d = cand::entry(p, body, 1, 4).data;
        exact::lemma_frame_parts(p, Coded { body, param: 1, kind: 4 }, domain::PRED_MODE_UNSET);
        assert(readable(d, x)) by {
            reveal(rec::flat_result);
            if body.len() <= u32::MAX {
                palette::lemma_palette_reads(p.px, p.w as nat);
            }
        }
        lemma_any(d, x);
    }
    exact::lemma_copies(p, x);
    lemma_any(cand::entry(p, cand::copies_of(p), 0, 7).data, x);
}

/// Every frame in the contest.
proof fn lemma_contest(
    p: Pic,
    ct: CompressionType,
    block_size: u16,
    first: bool,
    fq: FrameQuant,
    preferred: Option<PredictionMode>,
    bands: Option<Seq<u8>>,
    planar: Option<Seq<u8>>,
    copies: bool,
    x: Setting,
)
    requires
        p.ok(),
        fits(x, p),
        x.ok(),
        x.ct == ct,
        planar matches Some(body) ==> readable_any(cand::entry(p, body, 0, 3).data, x),
    ensures
        ({
            let r = cand::contest(
                p,
                ct,
                block_size,
                first,
                fq,
                preferred,
                bands,
                planar,
                copies,
            );
            r is Ok ==> readable_any(r->Ok_0.data, x) && (planar is None ==> readable(
                r->Ok_0.data,
                x,
            ))
        }),
{
    let (a, b) = (cand::lead_mode(p, preferred), cand::next_mode(p, preferred));
    lemma_plain(p, ct, block_size, a, first, fq, bands, x);
    lemma_plain(p, ct, block_size, b, first, fq, bands, x);
    let o = cand::opening(p, ct, block_size, first, fq, preferred, bands);
    if o is Ok {
        let e0 = o->Ok_0;
        lemma_any(e0.data, x);
        if ct == CompressionType::GolombRice {
            let e1 = cand::with_planar(e0, p, planar);
            lemma_exact_frames(p, first, copies, e1, planar is None, x);
            let m = cand::lead_mode(p, preferred);
            let res = frame::frame_residuals(p, m, fq, bands);
            lemma_cabac(p, res, m, x);
            lemma_any(
                frame::frame_bytes(p, cand::cabac_coded(res, (p.w * p.c) as usize), m.code()),
                x,
            );
            lemma_dct(p, fq, x);
            let body = cand::best_dct_body(p, fq);
            lemma_any(cand::entry(p, body, body[0] % 16, 6).data, x);
            if p.c == 3 {
                lemma_intra(p, fq, x);
                lemma_any(
                    cand::entry(
                        p,
                        crate::encoder::intra_transform::intra_payload(
                            p.px,
                            p.w,
                            p.h,
                            fq.step,
                            fq.bias,
                            fq.chroma_step,
                            fq.chroma_bias,
                        ),
                        0,
                        8,
                    ).data,
                    x,
                );
            }
        }
    }
}

/// One of three planes.
proof fn lemma_sub_frame(
    p: Pic,
    block_size: u16,
    fq: FrameQuant,
    preferred: Option<PredictionMode>,
    bands: Option<Seq<u8>>,
    x: Setting,
)
    requires
        p.ok(),
        fits(x, p),
        x.ok(),
        x.golomb(),
    ensures
        ({
            let r = enc_planar::sub_frame(
                p,
                CompressionType::GolombRice,
                block_size,
                fq,
                preferred,
                bands,
            );
            r is Ok ==> readable(r->Ok_0.data, x)
        }),
{
    reveal(enc_planar::sub_frame);
    lemma_contest(
        p,
        CompressionType::GolombRice,
        enc_planar::sub_block(block_size, p.w),
        false,
        fq,
        preferred,
        bands,
        None,
        true,
        x,
    );
}

/// The planes have the sizes that a decoder takes them to have.
pub proof fn lemma_plane_sizes(p: Pic, half: bool, x: Setting)
    requires
        p.ok(),
        p.c == 3,
        fits(x, p),
        x.ok(),
    ensures
        ({
            let (y, a, b) = enc_planar::planes_of(p, half);
            let (xs, xc) = (rec::plane_setting(x, false), rec::plane_setting(x, half));
            &&& y.ok() && a.ok() && b.ok()
            &&& xs.ok() && xc.ok()
            &&& fits(xs, y) && fits(xc, a) && fits(xc, b)
        }),
{
    enc_planar::lemma_planes(p);
    rec::lemma_plane_setting(x, false);
    rec::lemma_plane_setting(x, half);
    rec::lemma_setting(x);
    let (cw, ch) = (blocks::tiles_along(p.w, 2), blocks::tiles_along(p.h, 2));
    assert(p.h * (p.w * 1) == p.h * p.w && ch * (cw * 1) == cw * ch && ch * cw == cw * ch)
        by (nonlinear_arith);
}

/// The frame of three planes.
proof fn lemma_planar(p: Pic, block_size: u16, fq: FrameQuant, bands: Option<Seq<u8>>, x: Setting)
    requires
        p.ok(),
        fits(x, p),
        x.ok(),
        x.golomb(),
        p.c == 3,
    ensures
        ({
            let r = enc_planar::planar_payload(
                p,
                CompressionType::GolombRice,
                block_size,
                fq,
                bands,
            );
            r is Ok ==> readable_any(cand::entry(p, r->Ok_0, 0, 3).data, x)
        }),
{
    let ct = CompressionType::GolombRice;
    let r = enc_planar::planar_payload(p, ct, block_size, fq, bands);
    if r is Ok {
        let body = r->Ok_0;
        let data = cand::entry(p, body, 0, 3).data;
        exact::lemma_frame_parts(p, Coded { body, param: 0, kind: 3 }, domain::PRED_MODE_UNSET);
        if data.len() <= u32::MAX {
            let half = fq.spec_lossy() && fq.chroma_half_res;
            let (y, a, b) = enc_planar::planes_of(p, half);
            let cq = enc_planar::chroma_quant(fq);
            let cb = enc_planar::chroma_bands(bands, half);
            let (xs, xc) = (rec::plane_setting(x, false), rec::plane_setting(x, half));
            lemma_plane_sizes(p, half, x);
            let e = enc_planar::sub_frame(y, ct, block_size, fq, None, bands)->Ok_0;
            let g = enc_planar::sub_frame(a, ct, block_size, cq, e.mode, cb)->Ok_0;
            let k = enc_planar::sub_frame(b, ct, block_size, cq, g.mode, cb)->Ok_0;
            lemma_sub_frame(y, block_size, fq, None, bands, xs);
            lemma_sub_frame(a, block_size, cq, e.mode, cb, xc);
            lemma_sub_frame(b, block_size, cq, g.mode, cb, xc);
            let head = enc_planar::head_of(p, half);
            exact::lemma_plane_parts(head, e.data, g.data, k.data);
            let ps = seq![e.data, g.data, k.data];
            framing::lemma_framed_len(ps, 0);
            framing::lemma_framed_len(ps, 1);
            framing::lemma_framed_len(ps, 2);
            assert(ps[0] == e.data && ps[1] == g.data && ps[2] == k.data);
            let q0 = 6 + e.data.len() as int;
            let q1 = 10 + e.data.len() + g.data.len() as int;
            assert(rec::plane_at(body, 2, xs) is Ok);
            assert(rec::plane_at(body, q0, xc) is Ok);
            assert(rec::plane_at(body, q1, xc) is Ok);
        }
    }
}

/// Every coded frame.
pub proof fn lemma_shot_reads(
    x: Reel,
    px: Seq<i32>,
    first: bool,
    fq: FrameQuant,
    bands: Option<Seq<u8>>,
)
    requires
        x.ok(),
        px.len() == x.n(),
    ensures
        x.shot(px, first, fq, bands) is Ok ==> readable_any(
            x.shot(px, first, fq, bands)->Ok_0,
            x.setting(),
        ),
{
    reveal(Reel::shot);
    let s = x.setup;
    let p = x.pic(px);
    let t = x.setting();
    assert(p.ok());
    if s.adaptive {
        let c = s.switches.copies;
        let body = enc_planar::planar_payload(p, s.ct, s.block_size, fq, bands);
        if s.ct == CompressionType::GolombRice && p.c == 3 {
            lemma_planar(p, s.block_size, fq, bands, t);
            if body is Ok {
                let some = Some(body->Ok_0);
                lemma_contest(p, s.ct, s.block_size, first, fq, None, bands, some, c, t);
            }
        } else {
            lemma_contest(p, s.ct, s.block_size, first, fq, None, bands, None, c, t);
        }
    } else {
        lemma_plain(p, s.ct, s.block_size, s.mode, first, fq, None, t);
        if x.shot(px, first, fq, bands) is Ok {
            lemma_any(x.shot(px, first, fq, bands)->Ok_0, t);
        }
    }
}

/// A code fits its length field.
pub open spec fn fitting(r: Result<Seq<u8>, Fault>) -> bool {
    r is Ok ==> r->Ok_0.len() <= u32::MAX
}

/// The codes that are tried for the first frame fit.
pub open spec fn first_fits(x: Reel, px: Seq<i32>) -> bool {
    let p = if x.soft() {
        chain::softened(px)
    } else {
        px
    };
    &&& fitting(x.shot(chain::coloured(p, x.c()), true, x.quant(0), None))
    &&& fitting(x.shot(p, true, x.quant(0), None))
}

/// The codes that may be tried for frame `i` fit: differences to the first frame, to a change of
/// illumination of it, to the frame before and to the one before that.
pub open spec fn next_fits(x: Reel, px: Seq<i32>, past: Past, i: int) -> bool {
    &&& fitting(x.golden_shot(px, past.golden, i))
    &&& lic::search(past.golden, px) matches Some(t) ==> fitting(
        x.golden_shot(px, arith::lic_spec(past.golden, t.a_num as int, t.b as int), i),
    )
    &&& fitting(x.change_shot(px, past.previous, i))
    &&& past.before is Some ==> fitting(x.change_shot(px, past.before->0, i))
}

/// With Golomb-Rice codes, every frame has a code.
proof fn lemma_shot_ok(x: Reel, px: Seq<i32>, first: bool, fq: FrameQuant, bands: Option<Seq<u8>>)
    requires
        x.setup.ct == CompressionType::GolombRice,
    ensures
        x.shot(px, first, fq, bands) is Ok,
{
    reveal(Reel::shot);
    let s = x.setup;
    let p = x.pic(px);
    if s.adaptive {
        let c = s.switches.copies;
        lengths::lemma_planar_ok(p, s.block_size, fq, bands);
        let body = enc_planar::planar_payload(p, s.ct, s.block_size, fq, bands)->Ok_0;
        frame_form::lemma_contest_framed(
            p,
            s.ct,
            s.block_size,
            first,
            fq,
            None,
            bands,
            Some(body),
            c,
        );
        frame_form::lemma_contest_framed(p, s.ct, s.block_size, first, fq, None, bands, None, c);
    }
}

/// A frame that has a code that fits can be seen.
proof fn lemma_seen(
    x: Reel,
    px: Seq<i32>,
    first: bool,
    fq: FrameQuant,
    bands: Option<Seq<u8>>,
    plain: bool,
)
    requires
        x.ok(),
        px.len() == x.n(),
        x.setup.ct == CompressionType::GolombRice,
        fitting(x.shot(px, first, fq, bands)),
    ensures
        x.shot(px, first, fq, bands) is Ok,
        x.seen(x.shot(px, first, fq, bands)->Ok_0, plain) is Ok,
{
    lemma_shot_ok(x, px, first, fq, bands);
    lemma_shot_reads(x, px, first, fq, bands);
}

/// The first frame can be coded.
proof fn lemma_opened(x: Reel, px: Seq<i32>)
    requires
        x.ok(),
        px.len() == x.n(),
        x.setup.ct == CompressionType::GolombRice,
        first_fits(x, px),
    ensures
        x.opened(px) is Ok,
        x.opened(px)->Ok_0.2.sized(x.n()),
{
    let p = if x.soft() {
        chain::softened(px)
    } else {
        px
    };
    let c = chain::coloured(p, x.c());
    lemma_seen(x, c, true, x.quant(0), None, false);
    lemma_seen(x, p, true, x.quant(0), None, true);
    let (d, plain) = x.first_shot(px)->Ok_0;
    rec::lemma_frame_samples(d, x.setting());
}

/// A later frame can be coded.
proof fn lemma_follows(x: Reel, px: Seq<i32>, past: Past, i: int)
    requires
        x.ok(),
        px.len() == x.n(),
        past.sized(x.n()),
        x.setup.ct == CompressionType::GolombRice,
        next_fits(x, px, past, i),
    ensures
        x.followed(px, past, i) is Ok,
        x.followed(px, past, i)->Ok_0.1.sized(x.n()),
{
    lemma_golden_shot(x, px, past.golden, i);
    if let Some(t) = lic::search(past.golden, px) {
        lemma_golden_shot(
            x,
            px,
            arith::lic_spec(past.golden, t.a_num as int, t.b as int),
            i,
        );
    }
    playback::lemma_golden_framed(x, px, past.golden, i);
    lemma_change_shot(x, px, past.previous, i);
    if past.before is Some {
        lemma_change_shot(x, px, past.before->0, i);
    }
    let g = x.golden_pick(px, past.golden, i)->Ok_0;
    let p = x.picked(px, past, g, i)->Ok_0;
    assert(x.seen(p.data, false) is Ok);
    playback::lemma_signed(p, x.setting());
    assert(x.seen(p.signed(), false) == x.seen(p.data, false));
    rec::lemma_frame_samples(p.signed(), x.setting());
}

proof fn lemma_golden_shot(x: Reel, px: Seq<i32>, reference: Seq<i32>, i: int)
    requires
        x.ok(),
        px.len() == x.n(),
        reference.len() == x.n(),
        x.setup.ct == CompressionType::GolombRice,
        fitting(x.golden_shot(px, reference, i)),
    ensures
        x.golden_shot(px, reference, i) is Ok,
        x.seen(x.golden_shot(px, reference, i)->Ok_0, false) is Ok,
{
    let d = x.prepared(px, reference);
    lemma_seen(x, d, false, x.quant(i), x.bands(d, x.quant(i).step), false);
}

proof fn lemma_change_shot(x: Reel, px: Seq<i32>, reference: Seq<i32>, i: int)
    requires
        x.ok(),
        px.len() == x.n(),
        reference.len() == x.n(),
        x.setup.ct == CompressionType::GolombRice,
        fitting(x.change_shot(px, reference, i)),
    ensures
        x.change_shot(px, reference, i) is Ok,
        x.seen(x.change_shot(px, reference, i)->Ok_0, false) is Ok,
        frame_form::well_framed(x.change_shot(px, reference, i)->Ok_0),
{
    let d = chain::coloured(x.change(px, reference, i), x.c());
    lemma_seen(x, d, false, x.quant(i), None, false);
    playback::lemma_change_framed(x, px, reference, i);
}

/// Frames of one size and of the colours of the first, with as many samples as it tells.
pub open spec fn regular(s: Seq<Still>) -> bool {
    &&& s.len() >= 2
    &&& s[0].shape.width >= 1
    &&& s[0].shape.height >= 1
    &&& 1 <= s[0].shape.bit_depth <= 16
    &&& s[0].shape.samples() <= domain::MAX_SAMPLES
    &&& forall|k: int|
        0 <= k < s.len() ==> (#[trigger] s[k]).shape == s[0].shape && s[k].px.len()
            == s[0].shape.samples()
}

/// The codes that are tried for the frames of a sequence fit, as far as it can be coded.
pub open spec fn all_fit(setup: Setup, s: Seq<Still>) -> bool {
    let x = sequence::reel_of(setup, s[0]);
    &&& first_fits(x, s[0].px)
    &&& forall|k: int|
        1 <= k < s.len() && film::filmed(setup, s.take(k)) is Ok ==> next_fits(
            x,
            #[trigger] s[k].px,
            film::filmed(setup, s.take(k))->Ok_0.past,
            k,
        )
}

proof fn lemma_film(setup: Setup, s: Seq<Still>, k: nat)
    requires
        regular(s),
        s.len() <= film::STREAMING_MAX_FRAMES,
        k < s.len(),
        setup.ct == CompressionType::GolombRice,
        all_fit(setup, s),
    ensures
        ({
            let a = film::started(setup, s[0]);
            let y = a->Ok_0.with_all(s.skip(1), k);
            let x = sequence::reel_of(setup, s[0]);
            &&& a is Ok
            &&& y is Ok
            &&& y->Ok_0.reel == x
            &&& y->Ok_0.depth == s[0].shape.bit_depth
            &&& y->Ok_0.past.sized(x.n())
            &&& y->Ok_0.datas.len() == k + 1
        }),
    decreases k,
{
    let x = sequence::reel_of(setup, s[0]);
    lossless::lemma_reel_count(x);
    assert(s[0].px.len() == x.n());
    if k == 0 {
        lemma_opened(x, s[0].px);
    } else {
        let j = (k - 1) as nat;
        lemma_film(setup, s, j);
        let y = film::started(setup, s[0])->Ok_0.with_all(s.skip(1), j)->Ok_0;
        let f = s.skip(1)[j as int];
        playback::lemma_filmed_part(setup, s, k as int);
        assert(f == s[k as int]);
        assert(next_fits(x, s[k as int].px, y.past, k as int));
        lemma_follows(x, f.px, y.past, k as int);
    }
}

/// With Golomb-Rice codes, any sequence of up to 65535 frames of one size can be coded, whatever
/// the quality, as long as the codes that are tried fit their length fields.
pub proof fn law_only_length_stops(setup: Setup, s: Seq<Still>)
    requires
        regular(s),
        s.len() <= film::STREAMING_MAX_FRAMES,
        setup.ct == CompressionType::GolombRice,
        all_fit(setup, s),
    ensures
        sequence::film_file(setup, s) is Ok,
{
    lemma_film(setup, s, (s.len() - 1) as nat);
}

} // verus!

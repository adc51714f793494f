//! How far the frames of a decoded sequence are from those that it was made of.

use vstd::prelude::*;
use crate::common::arith;
use crate::common::bounds;
use crate::common::close;
use crate::common::config;
use crate::common::config::{KernelLossyConfig, LossyOptionsV2, Setup};
use crate::common::domain;
use crate::common::domain::{CompressionType, CrfHeader, PredictionMode, REF_PREV2, REF_PREVIOUS};
use crate::common::error::Fault;
use crate::common::lic;
use crate::common::noise;
use crate::common::plane;
use crate::common::quant;
use crate::decoder::exact;
use crate::decoder::fidelity;
use crate::decoder::lossless;
use crate::decoder::planar;
use crate::decoder::playback;
use crate::decoder::reconstruct;
use crate::decoder::session;
use crate::decoder::session::Raw;
use crate::decoder::streaming;
use crate::encoder::batch;
use crate::encoder::candidate::Entry;
use crate::encoder::chain;
use crate::encoder::chain::{Past, Reel};
use crate::encoder::dct_path;
use crate::encoder::film;
use crate::encoder::film::Still;
use crate::encoder::frame;
use crate::encoder::frame::FrameQuant;
use crate::encoder::frame_form;
use crate::encoder::sequence;

verus! {

/// Frames may be coded as transformed blocks, or as three planes.
pub open spec fn mixed(x: Reel) -> bool {
    x.setup.adaptive && x.setup.ct == CompressionType::GolombRice
}

/// What a frame of samples within `m` may be off: half a step and two if it is coded as residuals.
pub open spec fn frame_loss(x: Reel, fq: FrameQuant, s: int, m: int) -> int {
    if mixed(x) {
        fidelity::image_loss(fq, s, m, 2 * m)
    } else {
        s / 2 + 2
    }
}

/// What a frame may be off whose colours were transformed, where it has three.
pub open spec fn coded_loss(x: Reel, fq: FrameQuant, s: int, m: int) -> int {
    if x.c() == 3 {
        2 * frame_loss(x, fq, s, 2 * m + 2) + 1
    } else {
        frame_loss(x, fq, s, m)
    }
}

/// How far from zero the samples of a frame may be.
pub open spec fn in_range(x: Reel, m: int) -> bool {
    0 <= m <= 0xf_0000 && (mixed(x) ==> m <= 0x5f0)
}

/// No step of frame `i` is larger than `s`.
pub open spec fn steps_within(x: Reel, i: int, s: int) -> bool {
    &&& 1 <= s <= 255
    &&& x.quant(i).step <= s
    &&& mixed(x) ==> x.quant(i).chroma_step <= s
    &&& x.textured() || x.noisy() ==> s == 255
}

/// A frame of samples within `m` is even to twice that.
proof fn lemma_even(x: Reel, px: Seq<i32>, m: int)
    requires
        x.ok(),
        px.len() == x.n(),
        bounds::small(px, m),
    ensures
        fidelity::even_image(x.pic(px), 2 * m),
{
    let p = x.pic(px);
    frame::lemma_counts(x.w(), x.h(), x.c());
    let n = (x.w() * x.h()) as nat;
    assert(n >= 0 && px.len() == n * x.c()) by (nonlinear_arith)
        requires
            n == x.w() * x.h(),
            x.w() >= 0,
            x.h() >= 0,
            px.len() == x.w() * x.h() * x.c(),
    ;
    assert(fidelity::even_image(p, 2 * m)) by {
        assert forall|k: int| 0 <= k < p.c implies planar::even(
            #[trigger] plane::component(p.px, p.c, k),
            p.w,
            p.h,
            2 * m,
        ) by {
            dct_path::lemma_component_small(px, x.c(), k, n, m);
            planar::lemma_small_even(plane::component(px, x.c(), k), x.w(), x.h(), m);
        }
    }
}

/// A frame, decoded.
proof fn lemma_shot_close(
    x: Reel,
    px: Seq<i32>,
    first: bool,
    fq: FrameQuant,
    bands: Option<Seq<u8>>,
    s: int,
    m: int,
)
    requires
        x.ok(),
        px.len() == x.n(),
        quant::steps_within(fq.step, bands, s),
        mixed(x) ==> fq.chroma_step <= s,
        bounds::small(px, m),
        0 <= m <= exact::plane_bound(),
        mixed(x) ==> m <= 0xc00,
        x.shot(px, first, fq, bands) is Ok,
        x.shot(px, first, fq, bands)->Ok_0.len() <= u32::MAX,
    ensures
        ({
            let r = reconstruct::frame_result(x.shot(px, first, fq, bands)->Ok_0, x.setting());
            r is Ok && close::close(r->Ok_0, px, frame_loss(x, fq, s, m))
        }),
{
    reveal(Reel::shot);
    let t = x.setup;
    let p = x.pic(px);
    let y = x.setting();
    assert(p.ok());
    assert(exact::fits(y, p));
    if mixed(x) {
        lemma_even(x, px, m);
        fidelity::law_frame_close(
            p,
            t.ct,
            t.block_size,
            first,
            fq,
            None,
            bands,
            t.switches.copies,
            y,
            s,
            m,
            2 * m,
        );
    } else if t.adaptive {
        fidelity::law_simple_close(
            p,
            t.ct,
            t.block_size,
            first,
            fq,
            None,
            bands,
            t.switches.copies,
            y,
            s,
            m,
        );
    } else {
        fidelity::law_plain_close(p, t.ct, t.block_size, t.mode, first, fq, None, y, s, m);
        fidelity::lemma_any(x.shot(px, first, fq, bands)->Ok_0, p, y, s / 2 + 2, s / 2 + 2);
    }
}

/// A frame whose colours were transformed, decoded.
proof fn lemma_coloured_close(
    x: Reel,
    px: Seq<i32>,
    first: bool,
    fq: FrameQuant,
    bands: Option<Seq<u8>>,
    s: int,
    m: int,
)
    requires
        x.ok(),
        px.len() == x.n(),
        quant::steps_within(fq.step, bands, s),
        mixed(x) ==> fq.chroma_step <= s,
        bounds::small(px, m),
        in_range(x, m),
        x.shot(chain::coloured(px, x.c()), first, fq, bands) is Ok,
        x.shot(chain::coloured(px, x.c()), first, fq, bands)->Ok_0.len() <= u32::MAX,
    ensures
        ({
            let r = x.seen(x.shot(chain::coloured(px, x.c()), first, fq, bands)->Ok_0, false);
            r is Ok && close::close(r->Ok_0, px, coded_loss(x, fq, s, m))
        }),
{
    lossless::lemma_reel_count(x);
    let c = chain::coloured(px, x.c());
    if x.c() == 3 {
        close::lemma_rct_near(px, m);
        arith::law_rct_roundtrip(px);
        lemma_shot_close(x, c, first, fq, bands, s, 2 * m + 2);
        let e = frame_loss(x, fq, s, 2 * m + 2);
        let r = reconstruct::frame_result(x.shot(c, first, fq, bands)->Ok_0, x.setting())->Ok_0;
        close::lemma_close_small(r, c, e, 2 * m + 2);
        bounds::lemma_small_wider(r, 2 * m + 2 + e, 0x800_0000);
        bounds::lemma_small_wider(c, 2 * m + 2, 0x800_0000);
        close::law_unrct_close(r, c, e);
    } else {
        lemma_shot_close(x, c, first, fq, bands, s, m);
    }
}

/// The first frame comes back to within what its code loses, and one if faint samples are dropped.
pub proof fn law_first_close(x: Reel, px: Seq<i32>, s: int, m: int)
    requires
        x.ok(),
        px.len() == x.n(),
        steps_within(x, 0, s),
        bounds::small(px, m),
        in_range(x, m),
        x.opened(px) is Ok,
        x.opened(px)->Ok_0.0.len() <= u32::MAX,
    ensures
        close::close(
            x.opened(px)->Ok_0.2.golden,
            px,
            coded_loss(x, x.quant(0), s, m) + (if x.soft() {
                1int
            } else {
                0
            }),
        ),
        x.opened(px)->Ok_0.2.previous == x.opened(px)->Ok_0.2.golden,
{
    let fq = x.quant(0);
    let soft = if x.soft() {
        1int
    } else {
        0
    };
    let p = if x.soft() {
        chain::softened(px)
    } else {
        px
    };
    assert(close::close(p, px, soft) && bounds::small(p, m)) by {
        assert forall|i: int| 0 <= i < p.len() implies -soft <= #[trigger] p[i] - px[i] <= soft
            && -m <= p[i] <= m by {
            chain::law_softened(px, i);
            assert(-m <= px[i] <= m);
        }
    }
    let (d, plain) = x.first_shot(px)->Ok_0;
    let e = coded_loss(x, fq, s, m);
    let r = x.seen(d, plain)->Ok_0;
    if plain {
        bounds::lemma_small_wider(p, m, 2 * m + 2);
        lemma_shot_close(x, p, true, fq, None, s, 2 * m + 2);
        close::lemma_close_wider(r, p, frame_loss(x, fq, s, 2 * m + 2), e);
    } else {
        lemma_coloured_close(x, p, true, fq, None, s, m);
    }
    close::lemma_close_steps(r, p, px, e, soft);
}

/// A coded difference `f`, decoded and added to what it refers to, gives the frame to within what the
/// code loses and what `f` itself is off.
proof fn lemma_added(
    px: Seq<i32>,
    reference: Seq<i32>,
    f: Seq<i32>,
    r: Seq<i32>,
    d: int,
    e: int,
)
    requires
        px.len() == reference.len(),
        f.len() == px.len(),
        bounds::small(px, 0x10_0000),
        bounds::small(reference, 0x20_0100),
        bounds::small(f, 0x40_0000),
        0 <= d <= 0x100_0000,
        0 <= e <= 0x100_0000,
        close::close(f, arith::sub_spec(px, reference), d),
        close::close(r, f, e),
    ensures
        close::close(arith::add_spec(reference, r), px, d + e),
{
    let a = arith::add_spec(reference, r);
    assert forall|i: int| 0 <= i < a.len() implies -(d + e) <= #[trigger] a[i] - px[i] <= d + e by {
        arith::law_difference(px, reference, i);
        assert(-0x10_0000 <= px[i] <= 0x10_0000);
        assert(-0x20_0100 <= reference[i] <= 0x20_0100);
        assert(-0x40_0000 <= f[i] <= 0x40_0000);
        assert(-d <= f[i] - arith::sub_spec(px, reference)[i] <= d);
        assert(-e <= r[i] - f[i] <= e);
        arith::law_difference(reference, r, i);
    }
}

/// A frame that refers to another one comes back to within what its code loses and half a step.
pub proof fn law_change_restored(x: Reel, px: Seq<i32>, reference: Seq<i32>, i: int, s: int, m: int)
    requires
        x.ok(),
        px.len() == x.n(),
        reference.len() == x.n(),
        steps_within(x, i, s),
        bounds::small(px, 0x10_0000),
        bounds::small(reference, 0x20_0100),
        bounds::small(arith::sub_spec(px, reference), m),
        in_range(x, m),
        x.change_shot(px, reference, i) is Ok,
        x.change_shot(px, reference, i)->Ok_0.len() <= u32::MAX,
    ensures
        ({
            let r = x.seen(x.change_shot(px, reference, i)->Ok_0, false);
            r is Ok && close::close(
                arith::add_spec(reference, r->Ok_0),
                px,
                s / 2 + coded_loss(x, x.quant(i), s, m),
            )
        }),
{
    let d = arith::sub_spec(px, reference);
    let f = x.change(px, reference, i);
    let h = s / 2;
    assert forall|k: int| 0 <= k < x.n() implies -h <= #[trigger] f[k] - d[k] <= h && -m <= f[k]
        <= m by {
        assert(-0x10_0000 <= px[k] <= 0x10_0000);
        assert(-0x20_0100 <= reference[k] <= 0x20_0100);
        arith::law_difference(px, reference, k);
        chain::law_change_close(x, px, reference, i, k);
        assert(-m <= d[k] <= m);
    }
    lemma_change_len(x, px, reference, i);
    assert(close::close(f, d, h));
    assert forall|k: int| 0 <= k < f.len() implies -m <= #[trigger] f[k] <= m by {
        assert(-h <= f[k] - d[k] <= h);
    }
    lemma_coloured_close(x, f, false, x.quant(i), None, s, m);
    let r = x.seen(x.change_shot(px, reference, i)->Ok_0, false)->Ok_0;
    bounds::lemma_small_wider(f, m, 0x40_0000);
    lemma_added(px, reference, f, r, h, coded_loss(x, x.quant(i), s, m));
}

proof fn lemma_change_len(x: Reel, px: Seq<i32>, reference: Seq<i32>, i: int)
    requires
        px.len() == reference.len(),
    ensures
        x.change(px, reference, i).len() == px.len(),
{
}

/// What is taken off a difference to the first frame: one if faint samples are dropped, and noise.
pub open spec fn smoothing(x: Reel, m: int) -> int {
    (if x.soft() {
        1int
    } else {
        0
    }) + (if x.noisy() {
        m
    } else {
        0
    })
}

/// The steps of bands are steps.
proof fn lemma_bands_within(x: Reel, d: Seq<i32>, i: int, s: int)
    requires
        steps_within(x, i, s),
    ensures
        quant::steps_within(x.quant(i).step, x.bands(d, x.quant(i).step), s),
{
}

/// A frame that refers to the first one, or to a change of illumination of it, comes back to within
/// what its code loses and what is taken off.
pub proof fn law_golden_restored(x: Reel, px: Seq<i32>, reference: Seq<i32>, i: int, s: int, m: int)
    requires
        x.ok(),
        px.len() == x.n(),
        reference.len() == x.n(),
        steps_within(x, i, s),
        bounds::small(px, 0x10_0000),
        bounds::small(reference, 0x20_0100),
        bounds::small(arith::sub_spec(px, reference), m),
        in_range(x, m),
        x.golden_shot(px, reference, i) is Ok,
        x.golden_shot(px, reference, i)->Ok_0.len() <= u32::MAX,
    ensures
        ({
            let r = x.seen(x.golden_shot(px, reference, i)->Ok_0, false);
            r is Ok && close::close(
                arith::add_spec(reference, r->Ok_0),
                px,
                smoothing(x, m) + coded_loss(x, x.quant(i), s, m),
            )
        }),
{
    let d = arith::sub_spec(px, reference);
    let e = if x.soft() {
        chain::softened(d)
    } else {
        d
    };
    let tau = x.setup.kernel.noise_tau_x100;
    let stride = x.w() * x.c();
    let f = if x.noisy() {
        noise::denoised(e, stride, x.h(), tau)
    } else {
        e
    };
    let c = smoothing(x, m);
    assert(bounds::small(e, m)) by {
        assert forall|k: int| 0 <= k < e.len() implies -m <= #[trigger] e[k] <= m by {
            chain::law_softened(d, k);
            assert(-m <= d[k] <= m);
        }
    }
    if x.noisy() {
        assert(noise::image_ok(e, stride, x.h())) by {
            assert(1 <= stride <= 0x4_0000) by (nonlinear_arith)
                requires
                    stride == x.w() * x.c(),
                    1 <= x.w() <= 0xffff,
                    x.c() == 3,
            ;
        }
    }
    assert forall|k: int| 0 <= k < f.len() implies -c <= #[trigger] f[k] - d[k] <= c && -m <= f[k]
        <= m by {
        chain::law_softened(d, k);
        assert(-m <= d[k] <= m);
        assert(-m <= e[k] <= m);
        if x.noisy() {
            assert forall|j: int|
                0 <= j < e.len() && j / stride / 32 == k / stride / 32 implies -m
                <= #[trigger] e[j] <= m by {}
            noise::law_denoised(e, stride, x.h(), tau, k, m);
        }
    }
    assert(close::close(f, d, c));
    assert forall|k: int| 0 <= k < f.len() implies -m <= #[trigger] f[k] <= m by {
        assert(-c <= f[k] - d[k] <= c);
    }
    let p = x.prepared(px, reference);
    assert(p == chain::coloured(f, x.c()));
    let b = x.bands(p, x.quant(i).step);
    lemma_bands_within(x, p, i, s);
    lemma_coloured_close(x, f, false, x.quant(i), b, s, m);
    let r = x.seen(x.golden_shot(px, reference, i)->Ok_0, false)->Ok_0;
    bounds::lemma_small_wider(f, m, 0x40_0000);
    lemma_added(px, reference, f, r, c, coded_loss(x, x.quant(i), s, m));
}

/// What a frame of a sequence may be off whose samples, and those of the frames it refers to, are
/// within `a`: a difference is at most three times as far from zero, and the offset of illumination.
pub open spec fn restored_loss(x: Reel, i: int, s: int, a: int) -> int {
    s / 2 + smoothing(x, 3 * a + 128) + coded_loss(x, x.quant(i), s, 3 * a + 128)
}

/// The frame that refers to the first one comes back.
proof fn lemma_golden_pick(x: Reel, px: Seq<i32>, golden: Seq<i32>, i: int, s: int, a: int)
    requires
        x.ok(),
        px.len() == x.n(),
        golden.len() == x.n(),
        steps_within(x, i, s),
        a >= 0,
        bounds::small(px, a),
        bounds::small(golden, a),
        in_range(x, 3 * a + 128),
        x.golden_pick(px, golden, i) is Ok,
        x.golden_pick(px, golden, i)->Ok_0.data.len() <= u32::MAX,
    ensures
        ({
            let g = x.golden_pick(px, golden, i)->Ok_0;
            let r = x.seen(g.data, false);
            r is Ok && close::close(
                arith::add_spec(arith::weighted_spec(golden, g.a, g.b), r->Ok_0),
                px,
                smoothing(x, 3 * a + 128) + coded_loss(x, x.quant(i), s, 3 * a + 128),
            )
        }),
{
    let g = x.golden_pick(px, golden, i)->Ok_0;
    let m = 3 * a + 128;
    bounds::lemma_small_wider(px, a, 0x10_0000);
    if g.a == 0 {
        if let Some(t) = lic::search(golden, px) {
            lic::lemma_best_fit(
                golden,
                px,
                lic::looked_at(golden.len() as int) as nat,
                lic::LIC_A_COUNT as nat,
            );
        }
        assert(x.golden_shot(px, golden, i) == Ok::<Seq<u8>, Fault>(g.data));
        bounds::lemma_sub_small(px, golden, a, a);
        bounds::lemma_small_wider(arith::sub_spec(px, golden), a + a, m);
        bounds::lemma_small_wider(golden, a, 0x20_0100);
        law_golden_restored(x, px, golden, i, s, m);
    } else {
        let t = lic::search(golden, px)->0;
        lic::lemma_best_fit(
            golden,
            px,
            lic::looked_at(golden.len() as int) as nat,
            lic::LIC_A_COUNT as nat,
        );
        assert(domain::byte_signed(g.b) == t.b);
        assert(g.a == t.a_num);
        let reference = arith::lic_spec(golden, t.a_num as int, t.b as int);
        bounds::lemma_lic_small(golden, t.a_num as int, t.b as int, a);
        bounds::lemma_sub_small(px, reference, a, 2 * a + 128);
        bounds::lemma_small_wider(reference, 2 * a + 128, 0x20_0100);
        law_golden_restored(x, px, reference, i, s, m);
    }
}

/// The frame that refers to another one comes back.
proof fn lemma_change_pick(x: Reel, px: Seq<i32>, reference: Seq<i32>, i: int, s: int, a: int)
    requires
        x.ok(),
        px.len() == x.n(),
        reference.len() == x.n(),
        steps_within(x, i, s),
        a >= 0,
        bounds::small(px, a),
        bounds::small(reference, a),
        in_range(x, 3 * a + 128),
        x.change_shot(px, reference, i) is Ok,
        x.change_shot(px, reference, i)->Ok_0.len() <= u32::MAX,
    ensures
        ({
            let r = x.seen(x.change_shot(px, reference, i)->Ok_0, false);
            r is Ok && close::close(
                arith::add_spec(reference, r->Ok_0),
                px,
                s / 2 + coded_loss(x, x.quant(i), s, 3 * a + 128),
            )
        }),
{
    let m = 3 * a + 128;
    bounds::lemma_small_wider(px, a, 0x10_0000);
    bounds::lemma_sub_small(px, reference, a, a);
    bounds::lemma_small_wider(arith::sub_spec(px, reference), a + a, m);
    bounds::lemma_small_wider(reference, a, 0x20_0100);
    law_change_restored(x, px, reference, i, s, m);
}

/// Whatever a later frame refers to, the first frame, a change of illumination of it, the frame before
/// or the one before that, it comes back to within a bound that goes with the step.
pub proof fn law_next_close(x: Reel, px: Seq<i32>, past: Past, i: int, s: int, a: int)
    requires
        x.ok(),
        px.len() == x.n(),
        past.sized(x.n()),
        steps_within(x, i, s),
        a >= 0,
        bounds::small(px, a),
        bounds::small(past.golden, a),
        bounds::small(past.previous, a),
        past.before is Some ==> bounds::small(past.before->0, a),
        in_range(x, 3 * a + 128),
        x.followed(px, past, i) is Ok,
        x.followed(px, past, i)->Ok_0.0.len() <= u32::MAX,
    ensures
        close::close(x.followed(px, past, i)->Ok_0.1.previous, px, restored_loss(x, i, s, a)),
{
    let p = playback::lemma_followed(x, px, past, i);
    playback::lemma_signed(p, x.setting());
    let g = x.golden_pick(px, past.golden, i)->Ok_0;
    let e = restored_loss(x, i, s, a);
    let c = coded_loss(x, x.quant(i), s, 3 * a + 128);
    let back = x.followed(px, past, i)->Ok_0.1.previous;
    if p.kind == REF_PREVIOUS {
        lemma_change_pick(x, px, past.previous, i, s, a);
        close::lemma_close_wider(back, px, s / 2 + c, e);
    } else if p.kind == REF_PREV2 {
        lemma_change_pick(x, px, past.before->0, i, s, a);
        close::lemma_close_wider(back, px, s / 2 + c, e);
    } else {
        assert(p == g);
        lemma_golden_pick(x, px, past.golden, i, s, a);
        close::lemma_close_wider(back, px, smoothing(x, 3 * a + 128) + c, e);
    }
}

/// A frame with as many samples as its size tells, none of them further than `a` from zero.
pub open spec fn near_still(s: Still, a: int) -> bool {
    s.px.len() == s.shape.samples() && s.shape.samples() <= domain::MAX_SAMPLES && bounds::small(
        s.px,
        a,
    )
}

proof fn lemma_film_close(setup: Setup, s: Still, t: Seq<Still>, k: nat, q: int, a: int)
    requires
        film::started(setup, s) is Ok,
        k <= t.len(),
        film::started(setup, s)->Ok_0.with_all(t, k) is Ok,
        playback::fitting(playback::film_at(film::started(setup, s)->Ok_0, t, k).datas),
        near_still(s, a),
        forall|j: int| 0 <= j < t.len() ==> near_still(#[trigger] t[j], a),
        a >= 0,
        in_range(film::started(setup, s)->Ok_0.reel, 3 * a + 128),
        forall|j: nat|
            j < k ==> bounds::small(
                #[trigger] playback::shown(film::started(setup, s)->Ok_0, t, j),
                a,
            ),
        forall|j: int|
            0 <= j <= k ==> #[trigger] steps_within(film::started(setup, s)->Ok_0.reel, j, q),
    ensures
        ({
            let x = film::started(setup, s)->Ok_0;
            &&& x.reel.ok()
            &&& playback::film_at(x, t, k).past.sized(x.reel.n())
            &&& close::close(
                playback::shown(x, t, k),
                lossless::nth(s, t, k).px,
                restored_loss(x.reel, k as int, q, a),
            )
            &&& lossless::nth(s, t, k).px.len() == x.reel.n()
        }),
    decreases k,
{
    let x = film::started(setup, s)->Ok_0;
    playback::lemma_fresh(setup, s);
    lossless::lemma_reel_count(x.reel);
    let y = playback::film_at(x, t, k);
    playback::lemma_film_at(x, t, k);
    assert(steps_within(x.reel, k as int, q));
    if k == 0 {
        assert(y.datas[0].len() <= u32::MAX);
        let m = 3 * a + 128;
        bounds::lemma_small_wider(s.px, a, m);
        law_first_close(x.reel, s.px, q, m);
        close::lemma_close_wider(
            playback::shown(x, t, 0),
            s.px,
            coded_loss(x.reel, x.reel.quant(0), q, m) + (if x.reel.soft() {
                1int
            } else {
                0
            }),
            restored_loss(x.reel, 0, q, a),
        );
    } else {
        let m = (k - 1) as nat;
        let z = playback::film_at(x, t, m);
        assert(playback::fitting(z.datas)) by {
            assert forall|j: int| 0 <= j < z.datas.len() implies (#[trigger] z.datas[j]).len()
                <= u32::MAX by {
                assert(y.datas.drop_last()[j] == z.datas[j]);
                assert(y.datas[j] == z.datas[j]);
            }
        }
        lemma_film_close(setup, s, t, m, q, a);
        playback::lemma_film_at(x, t, m);
        let f = t[k - 1];
        assert(near_still(f, a));
        assert(bounds::small(playback::shown(x, t, 0), a));
        assert(bounds::small(playback::shown(x, t, m), a));
        if m > 0 {
            assert(bounds::small(playback::shown(x, t, (m - 1) as nat), a));
        }
        assert(y.datas[k as int].len() <= u32::MAX);
        law_next_close(x.reel, f.px, z.past, k as int, q, a);
    }
}

/// Decoding the file of a sequence gives each frame to within a bound that goes with the step,
/// whatever frames refer to, as long as the samples of frames and of what is restored are within `a`
/// and lengths fit their fields.
pub proof fn law_sequence_close(setup: Setup, s: Seq<Still>, q: int, a: int)
    requires
        s.len() >= 2,
        a >= 0,
        forall|k: int| 0 <= k < s.len() ==> near_still(#[trigger] s[k], a),
        film::filmed(setup, s) is Ok,
        film::filmed(setup, s)->Ok_0.file() is Ok,
        playback::fitting(film::filmed(setup, s)->Ok_0.datas),
        in_range(sequence::reel_of(setup, s[0]), 3 * a + 128),
        forall|k: int|
            0 <= k < s.len() ==> #[trigger] steps_within(sequence::reel_of(setup, s[0]), k, q),
        ({
            let r = streaming::stream_result(film::filmed(setup, s)->Ok_0.file()->Ok_0)->Ok_0;
            forall|k: int| 0 <= k < s.len() ==> bounds::small(#[trigger] r[k], a)
        }),
    ensures
        ({
            let r = streaming::stream_result(film::filmed(setup, s)->Ok_0.file()->Ok_0);
            let x = sequence::reel_of(setup, s[0]);
            &&& r is Ok
            &&& r->Ok_0.len() == s.len()
            &&& forall|k: int|
                0 <= k < s.len() ==> close::close(
                    #[trigger] r->Ok_0[k],
                    s[k].px,
                    restored_loss(x, k, q, a),
                )
        }),
{
    playback::law_file_plays(setup, s);
    let t = s.skip(1);
    let n = (s.len() - 1) as nat;
    let x = film::started(setup, s[0])->Ok_0;
    let r = streaming::stream_result(film::filmed(setup, s)->Ok_0.file()->Ok_0)->Ok_0;
    assert(x.reel == sequence::reel_of(setup, s[0]));
    assert forall|j: int| 0 <= j < t.len() implies near_still(#[trigger] t[j], a) by {
        assert(t[j] == s[j + 1]);
    }
    assert forall|j: nat| j <= n implies bounds::small(#[trigger] playback::shown(x, t, j), a) by {
        playback::lemma_filmed_part(setup, s, j as int + 1);
        assert(bounds::small(r[j as int], a));
    }
    playback::lemma_fresh(setup, s[0]);
    assert forall|k: int| 0 <= k < s.len() implies close::close(
        #[trigger] r[k],
        s[k].px,
        restored_loss(x.reel, k, q, a),
    ) by {
        playback::lemma_filmed_part(setup, s, k + 1);
        lemma_fits_upto(x, t, k as nat, n);
        lemma_film_close(setup, s[0], t, k as nat, q, a);
        assert(lossless::nth(s[0], t, k as nat) == s[k]);
    }
}

/// What fits of a film fits of its beginning.
proof fn lemma_fits_upto(x: film::Film, t: Seq<Still>, k: nat, n: nat)
    requires
        playback::fresh(x),
        k <= n,
        x.with_all(t, n) is Ok,
        playback::fitting(playback::film_at(x, t, n).datas),
    ensures
        x.with_all(t, k) is Ok,
        playback::fitting(playback::film_at(x, t, k).datas),
    decreases n,
{
    if k < n {
        playback::lemma_film_at(x, t, n);
        let m = (n - 1) as nat;
        let (y, z) = (playback::film_at(x, t, n), playback::film_at(x, t, m));
        assert forall|j: int| 0 <= j < z.datas.len() implies (#[trigger] z.datas[j]).len()
            <= u32::MAX by {
            assert(y.datas.drop_last()[j] == z.datas[j]);
            assert(y.datas[j] == z.datas[j]);
        }
        lemma_fits_upto(x, t, k, m);
    }
}

/// Frames coded as residuals, of which no noise is taken out, stay in range when they are restored.
proof fn lemma_film_range(setup: Setup, s: Still, t: Seq<Still>, k: nat, q: int, a: int)
    requires
        film::started(setup, s) is Ok,
        k <= t.len(),
        film::started(setup, s)->Ok_0.with_all(t, k) is Ok,
        playback::fitting(playback::film_at(film::started(setup, s)->Ok_0, t, k).datas),
        near_still(s, a),
        forall|j: int| 0 <= j < t.len() ==> near_still(#[trigger] t[j], a),
        0 <= a <= 0x4_0000,
        !mixed(film::started(setup, s)->Ok_0.reel),
        !film::started(setup, s)->Ok_0.reel.noisy(),
        forall|j: int|
            0 <= j <= k ==> #[trigger] steps_within(film::started(setup, s)->Ok_0.reel, j, q),
    ensures
        forall|j: nat|
            j <= k ==> bounds::small(
                #[trigger] playback::shown(film::started(setup, s)->Ok_0, t, j),
                a + 0x200,
            ),
    decreases k,
{
    let x = film::started(setup, s)->Ok_0;
    let b = a + 0x200;
    playback::lemma_fresh(setup, s);
    if k > 0 {
        lemma_fits_upto(x, t, (k - 1) as nat, k);
        lemma_film_range(setup, s, t, (k - 1) as nat, q, a);
    }
    assert forall|j: nat| j < k implies bounds::small(#[trigger] playback::shown(x, t, j), b) by {}
    bounds::lemma_small_wider(s.px, a, b);
    assert forall|j: int| 0 <= j < t.len() implies near_still(#[trigger] t[j], b) by {
        assert(near_still(t[j], a));
        bounds::lemma_small_wider(t[j].px, a, b);
    }
    lemma_film_close(setup, s, t, k, q, b);
    assert(steps_within(x.reel, 0, q));
    let e = restored_loss(x.reel, k as int, q, b);
    assert(e <= 0x200);
    let f = lossless::nth(s, t, k);
    assert(near_still(f, a));
    close::lemma_close_small(playback::shown(x, t, k), f.px, e, a);
    bounds::lemma_small_wider(playback::shown(x, t, k), a + e, b);
}

/// Decoding the file of a sequence whose frames are coded as residuals, of which no noise is taken out,
/// gives each frame to within one and a half steps and six, whatever frames refer to.
pub proof fn law_residual_sequence_close(setup: Setup, s: Seq<Still>, q: int, a: int)
    requires
        s.len() >= 2,
        0 <= a <= 0x4_0000,
        forall|k: int| 0 <= k < s.len() ==> near_still(#[trigger] s[k], a),
        film::filmed(setup, s) is Ok,
        film::filmed(setup, s)->Ok_0.file() is Ok,
        playback::fitting(film::filmed(setup, s)->Ok_0.datas),
        !mixed(sequence::reel_of(setup, s[0])),
        !sequence::reel_of(setup, s[0]).noisy(),
        forall|k: int|
            0 <= k < s.len() ==> #[trigger] steps_within(sequence::reel_of(setup, s[0]), k, q),
    ensures
        ({
            let r = streaming::stream_result(film::filmed(setup, s)->Ok_0.file()->Ok_0);
            &&& r is Ok
            &&& r->Ok_0.len() == s.len()
            &&& forall|k: int|
                0 <= k < s.len() ==> close::close(
                    #[trigger] r->Ok_0[k],
                    s[k].px,
                    3 * (q / 2) + 6,
                )
        }),
{
    playback::law_file_plays(setup, s);
    let t = s.skip(1);
    let n = (s.len() - 1) as nat;
    let x = film::started(setup, s[0])->Ok_0;
    let r = streaming::stream_result(film::filmed(setup, s)->Ok_0.file()->Ok_0)->Ok_0;
    let b = a + 0x200;
    assert(x.reel == sequence::reel_of(setup, s[0]));
    assert forall|j: int| 0 <= j < t.len() implies near_still(#[trigger] t[j], a) by {
        assert(t[j] == s[j + 1]);
    }
    assert(film::filmed(setup, s) == x.with_all(t, n));
    lemma_film_range(setup, s[0], t, n, q, a);
    assert forall|k: int| 0 <= k < s.len() implies near_still(#[trigger] s[k], b) by {
        assert(near_still(s[k], a));
        bounds::lemma_small_wider(s[k].px, a, b);
    }
    assert forall|k: int| 0 <= k < s.len() implies bounds::small(#[trigger] r[k], b) by {
        playback::lemma_filmed_part(setup, s, k + 1);
        assert(bounds::small(playback::shown(x, t, k as nat), b));
    }
    law_sequence_close(setup, s, q, b);
    assert forall|k: int| 0 <= k < s.len() implies close::close(
        #[trigger] r[k],
        s[k].px,
        3 * (q / 2) + 6,
    ) by {
        assert(steps_within(x.reel, k, q));
        let e = restored_loss(x.reel, k, q, b);
        assert(close::close(r[k], s[k].px, e));
        close::lemma_close_wider(r[k], s[k].px, e, 3 * (q / 2) + 6);
    }
}

/// The quality of a sequence is a promise on every sample: coded as residuals with a quality of `o`
/// hundredths, and neither noise taken out nor steps following the texture, what is restored is off by
/// three thousandths of what the quality lacks, and six, at most.
pub proof fn law_quality_close(setup: Setup, o: LossyOptionsV2, s: Seq<Still>, a: int, k: int, i: int)
    requires
        setup.kernel == KernelLossyConfig::spec_from_options(o),
        0 < o.quality_x100 <= 10000,
        o.first_frame_offset_x100 == 0,
        !o.perceptual.noise_adaptive,
        o.perceptual.activity_masking_x100 == 100,
        o.perceptual.flat_area_protection_x100 == 100,
        o.perceptual.edge_protection_x100 == 100,
        !mixed(sequence::reel_of(setup, s[0])),
        s.len() >= 2,
        0 <= a <= 0x4_0000,
        forall|j: int| 0 <= j < s.len() ==> near_still(#[trigger] s[j], a),
        film::filmed(setup, s) is Ok,
        film::filmed(setup, s)->Ok_0.file() is Ok,
        playback::fitting(film::filmed(setup, s)->Ok_0.datas),
        0 <= k < s.len(),
        0 <= i < s[k].px.len(),
    ensures
        ({
            let r = streaming::stream_result(film::filmed(setup, s)->Ok_0.file()->Ok_0);
            let lack = 10000 - o.quality_x100;
            &&& r is Ok
            &&& r->Ok_0.len() == s.len()
            &&& r->Ok_0[k].len() == s[k].px.len()
            &&& -(3 * lack + 6000) <= 1000 * (r->Ok_0[k][i] - s[k].px[i]) <= 3 * lack + 6000
        }),
{
    let x = sequence::reel_of(setup, s[0]);
    let kn = setup.kernel;
    let q = o.quality_x100 as int;
    config::law_step_of_quality(q, q);
    let step = config::step_of_quality(q) as int;
    let t = if step == 0 {
        1
    } else {
        step
    };
    assert(!x.noisy() && !x.textured());
    assert forall|j: int| 0 <= j < s.len() implies #[trigger] steps_within(x, j, t) by {
        batch::law_quant_of_index(
            j,
            setup.spec_step(),
            kn,
            kn.deadzone_bias,
            if kn.anchor_interval == 0 {
                1
            } else {
                kn.anchor_interval as int
            },
            kn.q95_perceptual,
        );
    }
    law_residual_sequence_close(setup, s, t, a);
    let r = streaming::stream_result(film::filmed(setup, s)->Ok_0.file()->Ok_0)->Ok_0;
    let e = 3 * (t / 2) + 6;
    assert(close::close(r[k], s[k].px, e));
    assert(-e <= r[k][i] - s[k].px[i] <= e);
}

/// A frame of a chain of differences, decoded.
proof fn lemma_link_close(
    x: Reel,
    px: Seq<i32>,
    first: bool,
    fq: FrameQuant,
    preferred: Option<PredictionMode>,
    s: int,
    m: int,
)
    requires
        x.ok(),
        px.len() == x.n(),
        quant::steps_within(fq.step, None, s),
        mixed(x) ==> fq.chroma_step <= s,
        bounds::small(px, m),
        0 <= m <= exact::plane_bound(),
        mixed(x) ==> m <= 0xc00,
        ({
            let r = sequence::link(x, px, first, fq, preferred);
            r is Ok && r->Ok_0.data.len() <= u32::MAX
        }),
    ensures
        ({
            let d = sequence::link(x, px, first, fq, preferred)->Ok_0.data;
            let r = reconstruct::frame_result(d, x.setting());
            &&& playback::sized(d)
            &&& r is Ok
            &&& close::close(r->Ok_0, px, frame_loss(x, fq, s, m))
        }),
{
    reveal(sequence::link);
    let t = x.setup;
    let p = x.pic(px);
    let y = x.setting();
    assert(p.ok());
    assert(exact::fits(y, p));
    if t.adaptive {
        frame_form::lemma_adaptive_framed(
            p,
            t.ct,
            t.block_size,
            first,
            fq,
            preferred,
            None,
            t.switches.copies,
        );
    } else {
        frame_form::lemma_plain_framed(p, t.ct, t.block_size, t.mode, first, fq, None);
    }
    if mixed(x) {
        lemma_even(x, px, m);
        fidelity::law_frame_close(
            p,
            t.ct,
            t.block_size,
            first,
            fq,
            preferred,
            None,
            t.switches.copies,
            y,
            s,
            m,
            2 * m,
        );
    } else if t.adaptive {
        fidelity::law_simple_close(
            p,
            t.ct,
            t.block_size,
            first,
            fq,
            preferred,
            None,
            t.switches.copies,
            y,
            s,
            m,
        );
    } else {
        fidelity::law_plain_close(p, t.ct, t.block_size, t.mode, first, fq, None, y, s, m);
        fidelity::lemma_any(
            sequence::link(x, px, first, fq, preferred)->Ok_0.data,
            p,
            y,
            s / 2 + 2,
            s / 2 + 2,
        );
    }
}

/// How frame `i` of a chain is quantised.
pub open spec fn chain_quant(x: Reel, i: int) -> FrameQuant {
    let k = x.setup.kernel;
    if i == 0 {
        FrameQuant::spec_lossless()
    } else {
        batch::quant_of_chain(i, x.setup.spec_step(), k, k.deadzone_bias)
    }
}

/// What frame `i` of a chain may be off.
pub open spec fn chain_loss(x: Reel, i: int, s: int, m: int) -> int {
    coded_loss(x, chain_quant(x, i), s, m)
}

/// No step of the chain is larger than `s`.
pub open spec fn chain_within(x: Reel, s: int) -> bool {
    1 <= s <= 255 && forall|i: int|
        0 <= i ==> (#[trigger] chain_quant(x, i)).step <= s && (mixed(x) ==> chain_quant(
            x,
            i,
        ).chroma_step <= s)
}

/// A frame of a chain with its colours back as the header tells.
spec fn chain_seen(x: Reel, plain: bool, d: Seq<u8>, k: int) -> Seq<i32> {
    let px = reconstruct::frame_result(d, x.setting())->Ok_0;
    if plain && k == 0 {
        px
    } else {
        chain::uncoloured(px, x.c())
    }
}

/// A coded frame of a chain is close.
spec fn chain_close(x: Reel, plain: bool, d: Seq<u8>, px: Seq<i32>, k: int, s: int, m: int) -> bool {
    &&& playback::sized(d)
    &&& reconstruct::frame_result(d, x.setting()) is Ok
    &&& close::close(chain_seen(x, plain, d, k), px, chain_loss(x, k, s, m))
}

proof fn lemma_coloured_link(
    x: Reel,
    px: Seq<i32>,
    first: bool,
    preferred: Option<PredictionMode>,
    k: int,
    s: int,
    m: int,
)
    requires
        x.ok(),
        px.len() == x.n(),
        k >= 0,
        chain_within(x, s),
        bounds::small(px, m),
        in_range(x, m),
        ({
            let r = sequence::link(
                x,
                chain::coloured(px, x.c()),
                first,
                chain_quant(x, k),
                preferred,
            );
            r is Ok && r->Ok_0.data.len() <= u32::MAX
        }),
    ensures
        ({
            let d = sequence::link(
                x,
                chain::coloured(px, x.c()),
                first,
                chain_quant(x, k),
                preferred,
            )->Ok_0.data;
            chain_close(x, false, d, px, k, s, m)
        }),
{
    lossless::lemma_reel_count(x);
    let fq = chain_quant(x, k);
    let c = chain::coloured(px, x.c());
    if x.c() == 3 {
        close::lemma_rct_near(px, m);
        arith::law_rct_roundtrip(px);
        lemma_link_close(x, c, first, fq, preferred, s, 2 * m + 2);
        let e = frame_loss(x, fq, s, 2 * m + 2);
        let d = sequence::link(x, c, first, fq, preferred)->Ok_0.data;
        let r = reconstruct::frame_result(d, x.setting())->Ok_0;
        close::lemma_close_small(r, c, e, 2 * m + 2);
        bounds::lemma_small_wider(r, 2 * m + 2 + e, 0x800_0000);
        bounds::lemma_small_wider(c, 2 * m + 2, 0x800_0000);
        close::law_unrct_close(r, c, e);
    } else {
        lemma_link_close(x, c, first, fq, preferred, s, m);
    }
}

proof fn lemma_links_close(
    x: Reel,
    t: Seq<Still>,
    first: Entry,
    plain: bool,
    n: nat,
    s: int,
    m: int,
)
    requires
        x.ok(),
        1 <= n <= t.len(),
        chain_within(x, s),
        in_range(x, m),
        forall|k: int| 0 <= k < t.len() ==> near_still(#[trigger] t[k], m),
        forall|k: int| 0 <= k < t.len() ==> (#[trigger] t[k]).px.len() == x.n(),
        sequence::first_link(x, t[0].px) == Ok::<(Entry, bool), Fault>((first, plain)),
        sequence::links(x, t, first, n) is Ok,
        playback::fitting(sequence::links(x, t, first, n)->Ok_0),
    ensures
        ({
            let ds = sequence::links(x, t, first, n)->Ok_0;
            &&& ds.len() == n
            &&& plain ==> x.c() == 3
            &&& forall|j: int|
                0 <= j < n ==> chain_close(x, plain, #[trigger] ds[j], t[j].px, j, s, m)
        }),
    decreases n,
{
    let ds = sequence::links(x, t, first, n)->Ok_0;
    assert(near_still(t[n - 1], m));
    assert(t[n - 1].px.len() == x.n());
    assert(chain_quant(x, n - 1).step <= s);
    if n == 1 {
        assert(ds[0].len() <= u32::MAX);
        let px = t[0].px;
        if plain {
            bounds::lemma_small_wider(px, m, 2 * m + 2);
            lemma_link_close(x, px, true, chain_quant(x, 0), None, s, 2 * m + 2);
            let r = reconstruct::frame_result(ds[0], x.setting())->Ok_0;
            let e = frame_loss(x, chain_quant(x, 0), s, 2 * m + 2);
            close::lemma_close_wider(r, px, e, chain_loss(x, 0, s, m));
        } else {
            lemma_coloured_link(x, px, true, None, 0, s, m);
        }
    } else {
        let k = (n - 1) as nat;
        let before = sequence::links(x, t, first, k)->Ok_0;
        assert(ds.drop_last() =~= before);
        assert(playback::fitting(before)) by {
            assert forall|j: int| 0 <= j < before.len() implies (#[trigger] before[j]).len()
                <= u32::MAX by {
                assert(ds[j] == before[j]);
            }
        }
        lemma_links_close(x, t, first, plain, k, s, m);
        assert(ds[n - 1].len() <= u32::MAX);
        lemma_coloured_link(x, t[n - 1].px, false, first.mode, n - 1, s, m);
        assert forall|j: int| 0 <= j < n implies chain_close(
            x,
            plain,
            #[trigger] ds[j],
            t[j].px,
            j,
            s,
            m,
        ) by {
            if j < k {
                assert(ds[j] == before[j]);
            }
        }
    }
}

proof fn lemma_unmixed_close(h: CrfHeader, x: Reel, plain: bool, ds: Seq<Seq<u8>>, rs: Seq<Raw>, n: nat)
    requires
        h.flags.has_rct == (x.c() == 3),
        h.flags.first_frame_no_rct == plain,
        h.color_format == x.format,
        plain ==> x.c() == 3,
        n <= rs.len(),
        rs.len() == ds.len(),
        forall|j: int|
            0 <= j < rs.len() ==> (#[trigger] rs[j]).px == reconstruct::frame_result(
                ds[j],
                x.setting(),
            )->Ok_0,
    ensures
        session::unmixed_all(h, rs, n) == Ok::<Seq<Seq<i32>>, Fault>(
            Seq::new(n, |k: int| chain_seen(x, plain, ds[k], k)),
        ),
    decreases n,
{
    if n == 0 {
        assert(Seq::new(0nat, |k: int| chain_seen(x, plain, ds[k], k)) =~= Seq::<
            Seq<i32>,
        >::empty());
    } else {
        let m = (n - 1) as nat;
        lemma_unmixed_close(h, x, plain, ds, rs, m);
        assert(rs[m as int].px == reconstruct::frame_result(ds[m as int], x.setting())->Ok_0);
        assert(Seq::new(n, |k: int| chain_seen(x, plain, ds[k], k)) =~= Seq::new(
            m,
            |k: int| chain_seen(x, plain, ds[k], k),
        ).push(chain_seen(x, plain, ds[m as int], m as int)));
    }
}

/// Decoding the file of a frame and differences gives each of them to within a bound that goes with the
/// step, as long as lengths fit their fields.
pub proof fn law_chain_close(setup: Setup, t: Seq<Still>, s: int, m: int)
    requires
        sequence::refused(t) is None,
        forall|k: int| 0 <= k < t.len() ==> near_still(#[trigger] t[k], m),
        chain_within(sequence::reel_of(setup, t[0]), s),
        in_range(sequence::reel_of(setup, t[0]), m),
        sequence::chain_file(setup, t) is Ok,
        playback::fitting(lossless::chain_datas(setup, t)),
    ensures
        ({
            let d = session::decode_result(sequence::chain_file(setup, t)->Ok_0);
            let x = sequence::reel_of(setup, t[0]);
            &&& d is Ok
            &&& d->Ok_0.frames.len() == t.len()
            &&& forall|k: int|
                0 <= k < t.len() ==> close::close(
                    #[trigger] d->Ok_0.frames[k],
                    t[k].px,
                    chain_loss(x, k, s, m),
                )
        }),
{
    let x = sequence::reel_of(setup, t[0]);
    let (e, plain) = sequence::first_link(x, t[0].px)->Ok_0;
    let ds = lossless::chain_datas(setup, t);
    let h = setup.header(
        t.len() as u16,
        x.width,
        x.height,
        t[0].shape.bit_depth,
        x.format,
        plain,
    );
    lossless::lemma_reel_count(x);
    assert(near_still(t[0], m));
    assert forall|k: int| 0 <= k < t.len() implies (#[trigger] t[k]).px.len() == x.n() by {
        assert(near_still(t[k], m));
        sequence::lemma_fitting(t, t.len(), k);
    }
    lemma_links_close(x, t, e, plain, t.len(), s, m);
    let pxs = Seq::new(
        t.len(),
        |k: int| reconstruct::frame_result(ds[k], x.setting())->Ok_0,
    );
    assert(reconstruct::setting_of(&h) == x.setting());
    assert forall|j: int| 0 <= j < ds.len() implies playback::sized(#[trigger] ds[j])
        && reconstruct::frame_result(ds[j], x.setting()) == Ok::<Seq<i32>, Fault>(pxs[j]) by {
        assert(chain_close(x, plain, ds[j], t[j].px, j, s, m));
    }
    lossless::lemma_raw_file(h, ds, pxs, t.len());
    playback::lemma_file_header(h, ds);
    let f = batch::file_bytes(h, ds);
    let rs = session::raw_frames(f, h, t.len())->Ok_0.0;
    lemma_unmixed_close(h, x, plain, ds, rs, t.len());
    playback::lemma_file_len(h, ds);
    assert forall|k: int| 0 <= k < t.len() implies close::close(
        #[trigger] session::decode_result(f)->Ok_0.frames[k],
        t[k].px,
        chain_loss(x, k, s, m),
    ) by {
        assert(chain_close(x, plain, ds[k], t[k].px, k, s, m));
    }
}

} // verus!

//! Sequences that lose nothing.

use vstd::prelude::*;
use crate::common::arith;
use crate::common::bounds;
use crate::common::config::{Setup, ToolMode};
use crate::common::domain;
use crate::common::domain::{
    CrfHeader,
    FrameHeader,
    PredictionMode,
    REF_PREV2,
    REF_PREVIOUS,
};
use crate::common::error::Fault;
use crate::common::lic;
use crate::decoder::exact;
use crate::decoder::playback;
use crate::decoder::reconstruct;
use crate::decoder::session;
use crate::decoder::session::Raw;
use crate::decoder::streaming;
use crate::encoder::batch;
use crate::encoder::candidate::Entry;
use crate::encoder::chain;
use crate::encoder::chain::{Past, Reel};
use crate::encoder::film;
use crate::encoder::film::Still;
use crate::encoder::frame::FrameQuant;
use crate::encoder::frame_form;
use crate::encoder::sequence;
use crate::encoder::sequence_tools;

verus! {

/// How far from zero the samples of a sequence may be for nothing to be lost.
pub open spec fn sample_bound() -> int {
    0x1_0000
}

/// A frame with as many samples as its size tells, none of them far from zero.
pub open spec fn plain_still(s: Still) -> bool {
    s.px.len() == s.shape.samples() && s.shape.samples() <= domain::MAX_SAMPLES && bounds::small(
        s.px,
        sample_bound(),
    )
}

/// Facts on the number of samples of frames.
pub proof fn lemma_reel_count(x: Reel)
    ensures
        x.c() == 3 ==> x.n() % 3 == 0,
        x.n() == x.width as nat * x.height as nat * x.format.spec_count(),
{
    crate::encoder::frame::lemma_counts(x.w(), x.h(), x.c());
    if x.c() == 3 {
        let a = x.w() * x.h();
        assert((a * 3) % 3 == 0);
    }
}

/// Coding a frame without loss, and decoding it, gives the frame.
pub proof fn lemma_shot_back(x: Reel, px: Seq<i32>, first: bool, bands: Option<Seq<u8>>)
    requires
        x.ok(),
        px.len() == x.n(),
        bounds::small(px, exact::image_bound()),
        ({
            let r = x.shot(px, first, FrameQuant::spec_lossless(), bands);
            r is Ok && r->Ok_0.len() <= u32::MAX
        }),
    ensures
        reconstruct::frame_result(
            x.shot(px, first, FrameQuant::spec_lossless(), bands)->Ok_0,
            x.setting(),
        ) == Ok::<Seq<i32>, Fault>(px),
{
    reveal(Reel::shot);
    let s = x.setup;
    let p = x.pic(px);
    assert(p.ok());
    if s.adaptive {
        exact::law_frame_lossless(
            p,
            s.ct,
            s.block_size,
            first,
            None,
            bands,
            s.switches.copies,
            x.setting(),
        );
    } else {
        bounds::lemma_small_wider(px, exact::image_bound(), exact::plane_bound());
        exact::law_plain_frame_lossless(
            p,
            s.ct,
            s.block_size,
            s.mode,
            first,
            None,
            x.setting(),
        );
    }
}

/// So does coding it with its colours transformed.
pub proof fn lemma_coloured_back(x: Reel, px: Seq<i32>, first: bool, bands: Option<Seq<u8>>)
    requires
        x.ok(),
        px.len() == x.n(),
        bounds::small(px, 0x3_ffff),
        ({
            let r = x.shot(
                chain::coloured(px, x.c()),
                first,
                FrameQuant::spec_lossless(),
                bands,
            );
            r is Ok && r->Ok_0.len() <= u32::MAX
        }),
    ensures
        x.seen(
            x.shot(
                chain::coloured(px, x.c()),
                first,
                FrameQuant::spec_lossless(),
                bands,
            )->Ok_0,
            false,
        ) == Ok::<Seq<i32>, Fault>(px),
{
    lemma_reel_count(x);
    if x.c() == 3 {
        bounds::lemma_rct_small(px, 0x3_ffff);
        arith::law_rct_roundtrip(px);
    }
    lemma_shot_back(x, chain::coloured(px, x.c()), first, bands);
}

/// The first frame comes back.
proof fn lemma_first_back(x: Reel, px: Seq<i32>)
    requires
        x.ok(),
        !x.setup.kernel.enabled,
        px.len() == x.n(),
        bounds::small(px, sample_bound()),
        x.opened(px) is Ok,
        x.opened(px)->Ok_0.0.len() <= u32::MAX,
    ensures
        x.opened(px)->Ok_0.2.golden == px,
{
    let fq = FrameQuant::spec_lossless();
    assert(x.quant(0) == fq);
    assert(!x.soft());
    let (d, plain) = x.first_shot(px)->Ok_0;
    if plain {
        lemma_shot_back(x, px, true, None);
    } else {
        lemma_coloured_back(x, px, true, None);
    }
}

/// A difference to (a change of illumination of) the first frame comes back.
proof fn lemma_golden_shot_back(x: Reel, px: Seq<i32>, reference: Seq<i32>, i: int)
    requires
        x.ok(),
        !x.setup.kernel.enabled,
        px.len() == x.n(),
        reference.len() == x.n(),
        bounds::small(px, sample_bound()),
        bounds::small(reference, 2 * sample_bound() + 128),
        x.golden_shot(px, reference, i) is Ok,
        x.golden_shot(px, reference, i)->Ok_0.len() <= u32::MAX,
    ensures
        x.seen(x.golden_shot(px, reference, i)->Ok_0, false) == Ok::<Seq<i32>, Fault>(
            arith::sub_spec(px, reference),
        ),
{
    let d = arith::sub_spec(px, reference);
    bounds::lemma_sub_small(px, reference, sample_bound(), 2 * sample_bound() + 128);
    bounds::lemma_small_wider(d, 3 * sample_bound() + 128, 0x3_ffff);
    assert(x.quant(i) == FrameQuant::spec_lossless());
    assert(x.prepared(px, reference) == chain::coloured(d, x.c()));
    lemma_coloured_back(x, d, false, x.bands(x.prepared(px, reference), 0));
}

/// The frame that refers to the first one comes back as a difference to what it refers to.
pub proof fn lemma_golden_back(x: Reel, px: Seq<i32>, golden: Seq<i32>, i: int)
    requires
        x.ok(),
        !x.setup.kernel.enabled,
        px.len() == x.n(),
        golden.len() == x.n(),
        bounds::small(px, sample_bound()),
        bounds::small(golden, sample_bound()),
        x.golden_pick(px, golden, i) is Ok,
        x.golden_pick(px, golden, i)->Ok_0.data.len() <= u32::MAX,
    ensures
        ({
            let g = x.golden_pick(px, golden, i)->Ok_0;
            x.seen(g.data, false) == Ok::<Seq<i32>, Fault>(
                arith::sub_spec(px, arith::weighted_spec(golden, g.a, g.b)),
            )
        }),
{
    let g = x.golden_pick(px, golden, i)->Ok_0;
    if g.a == 0 {
        bounds::lemma_small_wider(golden, sample_bound(), 2 * sample_bound() + 128);
        if let Some(t) = lic::search(golden, px) {
            lic::lemma_best_fit(
                golden,
                px,
                lic::looked_at(golden.len() as int) as nat,
                lic::LIC_A_COUNT as nat,
            );
        }
        assert(x.golden_shot(px, golden, i) == Ok::<Seq<u8>, Fault>(g.data));
        lemma_golden_shot_back(x, px, golden, i);
    } else {
        let t = lic::search(golden, px)->0;
        lic::lemma_best_fit(
            golden,
            px,
            lic::looked_at(golden.len() as int) as nat,
            lic::LIC_A_COUNT as nat,
        );
        assert(domain::byte_signed(g.b) == t.b);
        assert(g.a == t.a_num);
        let reference = arith::lic_spec(golden, t.a_num as int, t.b as int);
        bounds::lemma_lic_small(golden, t.a_num as int, t.b as int, sample_bound());
        lemma_golden_shot_back(x, px, reference, i);
    }
}

/// Tiles without any change differ in nothing.
pub proof fn lemma_change_exact(x: Reel, px: Seq<i32>, reference: Seq<i32>, i: int)
    requires
        !x.setup.kernel.enabled,
        px.len() == reference.len(),
    ensures
        x.change(px, reference, i) == arith::sub_spec(px, reference),
{
    let d = arith::sub_spec(px, reference);
    assert(x.quant(i).step == 0);
    if x.setup.kernel.change_mask != ToolMode::Off {
        let (w, h, c, ts) = (x.w(), x.h(), x.c(), x.tile());
        let mask = sequence_tools::mask_spec(px, reference, w, h, c, ts, 0);
        let m = sequence_tools::masked(d, mask, w, h, c, ts);
        assert forall|j: int| 0 <= j < d.len() implies m[j] == d[j] by {
            let t = sequence_tools::tile_of(j, w, c, ts);
            if m[j] != d[j] {
                assert(j < w * h * c && t < mask.len() && !mask[t]);
                assert(w >= 1) by (nonlinear_arith)
                    requires
                        0 < w * h * c,
                        w >= 0,
                ;
                lemma_tile_positive(j, w, c, ts);
                assert(!sequence_tools::tile_changed(
                    px,
                    reference,
                    w,
                    c,
                    ts,
                    0,
                    w * h * c,
                    t,
                ));
                assert(!sequence_tools::differs(px, reference, 0, j));
                assert(px[j] == reference[j]);
                assert(d[j] == px[j].wrapping_sub(reference[j]));
            }
        }
        assert(m =~= d);
    }
}

proof fn lemma_tile_positive(j: int, w: int, c: int, ts: int)
    requires
        j >= 0,
        w >= 1,
        c >= 1,
        ts >= 1,
    ensures
        sequence_tools::tile_of(j, w, c, ts) >= 0,
{
    vstd::arithmetic::div_mod::lemma_div_pos_is_pos(j, c);
    let p = j / c;
    vstd::arithmetic::div_mod::lemma_div_pos_is_pos(p, w);
    vstd::arithmetic::div_mod::lemma_div_pos_is_pos(p / w, ts);
    vstd::arithmetic::div_mod::lemma_div_pos_is_pos(p % w, ts);
    crate::common::blocks::lemma_tiles_along(w, ts, 0);
    let (a, n) = ((p / w) / ts, crate::common::blocks::tiles_along(w, ts));
    assert(a * n >= 0) by (nonlinear_arith)
        requires
            a >= 0,
            n >= 0,
    ;
}

/// A difference to another frame comes back.
pub proof fn lemma_change_back(x: Reel, px: Seq<i32>, reference: Seq<i32>, i: int)
    requires
        x.ok(),
        !x.setup.kernel.enabled,
        px.len() == x.n(),
        reference.len() == x.n(),
        bounds::small(px, sample_bound()),
        bounds::small(reference, sample_bound()),
        x.change_shot(px, reference, i) is Ok,
        x.change_shot(px, reference, i)->Ok_0.len() <= u32::MAX,
    ensures
        x.seen(x.change_shot(px, reference, i)->Ok_0, false) == Ok::<Seq<i32>, Fault>(
            arith::sub_spec(px, reference),
        ),
{
    let d = arith::sub_spec(px, reference);
    lemma_change_exact(x, px, reference, i);
    bounds::lemma_sub_small(px, reference, sample_bound(), sample_bound());
    bounds::lemma_small_wider(d, 2 * sample_bound(), 0x3_ffff);
    assert(x.quant(i) == FrameQuant::spec_lossless());
    lemma_coloured_back(x, d, false, None);
}

/// A later frame comes back.
proof fn lemma_follow_back(x: Reel, px: Seq<i32>, past: Past, i: int)
    requires
        x.ok(),
        !x.setup.kernel.enabled,
        px.len() == x.n(),
        bounds::small(px, sample_bound()),
        past.sized(x.n()),
        bounds::small(past.golden, sample_bound()),
        bounds::small(past.previous, sample_bound()),
        past.before is Some ==> bounds::small(past.before->0, sample_bound()),
        x.followed(px, past, i) is Ok,
        x.followed(px, past, i)->Ok_0.0.len() <= u32::MAX,
    ensures
        x.followed(px, past, i)->Ok_0.1.previous == px,
{
    let p = playback::lemma_followed(x, px, past, i);
    playback::lemma_signed(p, x.setting());
    let g = x.golden_pick(px, past.golden, i)->Ok_0;
    if p.kind == REF_PREVIOUS {
        lemma_change_back(x, px, past.previous, i);
    } else if p.kind == REF_PREV2 {
        lemma_change_back(x, px, past.before->0, i);
    } else {
        assert(p == g);
        lemma_golden_back(x, px, past.golden, i);
    }
    assert(x.seen(p.signed(), false) == Ok::<Seq<i32>, Fault>(
        arith::sub_spec(px, p.base(past)),
    ));
    arith::law_difference_roundtrip(px, p.base(past));
}

/// Frame `k` of a sequence that starts with `s`.
pub open spec fn nth(s: Still, t: Seq<Still>, k: nat) -> Still {
    if k == 0 {
        s
    } else {
        t[k - 1]
    }
}

pub proof fn lemma_lossless_film(setup: Setup, s: Still, t: Seq<Still>, k: nat)
    requires
        !setup.kernel.enabled,
        film::started(setup, s) is Ok,
        k <= t.len(),
        film::started(setup, s)->Ok_0.with_all(t, k) is Ok,
        playback::fitting(playback::film_at(film::started(setup, s)->Ok_0, t, k).datas),
        plain_still(s),
        forall|j: int| 0 <= j < t.len() ==> plain_still(#[trigger] t[j]),
    ensures
        ({
            let x = film::started(setup, s)->Ok_0;
            &&& x.reel.ok()
            &&& playback::film_at(x, t, k).past.sized(x.reel.n())
            &&& forall|j: nat|
                j <= k ==> #[trigger] playback::shown(x, t, j) == nth(s, t, j).px
            &&& nth(s, t, k).px.len() == x.reel.n()
        }),
    decreases k,
{
    let x = film::started(setup, s)->Ok_0;
    playback::lemma_fresh(setup, s);
    lemma_reel_count(x.reel);
    let y = playback::film_at(x, t, k);
    playback::lemma_film_at(x, t, k);
    if k == 0 {
        assert(y.datas[0].len() <= u32::MAX);
        lemma_first_back(x.reel, s.px);
    } else {
        let m = (k - 1) as nat;
        let z = playback::film_at(x, t, m);
        assert(playback::fitting(z.datas)) by {
            assert forall|j: int| 0 <= j < z.datas.len() implies (#[trigger] z.datas[j]).len()
                <= u32::MAX by {
                assert(y.datas.drop_last()[j] == z.datas[j]);
                assert(y.datas[j] == z.datas[j]);
            }
        }
        lemma_lossless_film(setup, s, t, m);
        playback::lemma_film_at(x, t, m);
        let f = t[k - 1];
        assert(plain_still(f));
        assert(playback::shown(x, t, 0) == nth(s, t, 0).px);
        assert(playback::shown(x, t, m) == nth(s, t, m).px);
        if m > 0 {
            assert(playback::shown(x, t, (m - 1) as nat) == nth(s, t, (m - 1) as nat).px);
        }
        assert(y.datas[k as int].len() <= u32::MAX);
        lemma_follow_back(x.reel, f.px, z.past, k as int);
        assert(playback::shown(x, t, k) == f.px);
    }
}

/// Encoding a sequence of original frames without loss, and decoding it, gives the frames, as long
/// as their samples are no further from zero than the colour and illumination arithmetic allows and
/// lengths fit their fields.
pub proof fn law_sequence_lossless(setup: Setup, s: Seq<Still>)
    requires
        !setup.kernel.enabled,
        s.len() >= 2,
        forall|k: int| 0 <= k < s.len() ==> plain_still(#[trigger] s[k]),
        film::filmed(setup, s) is Ok,
        film::filmed(setup, s)->Ok_0.file() is Ok,
        playback::fitting(film::filmed(setup, s)->Ok_0.datas),
    ensures
        streaming::stream_result(film::filmed(setup, s)->Ok_0.file()->Ok_0) == Ok::<
            Seq<Seq<i32>>,
            Fault,
        >(Seq::new(s.len(), |k: int| s[k].px)),
        ({
            let d = session::decode_result(film::filmed(setup, s)->Ok_0.file()->Ok_0);
            d is Ok && streaming::restored(d->Ok_0, s.len()) == Seq::new(
                s.len(),
                |k: int| s[k].px,
            )
        }),
{
    playback::law_file_plays(setup, s);
    streaming::law_streaming_restores(film::filmed(setup, s)->Ok_0.file()->Ok_0);
    let t = s.skip(1);
    let n = (s.len() - 1) as nat;
    let x = film::started(setup, s[0])->Ok_0;
    assert forall|j: int| 0 <= j < t.len() implies plain_still(#[trigger] t[j]) by {
        assert(t[j] == s[j + 1]);
    }
    lemma_lossless_film(setup, s[0], t, n);
    let a = Seq::new(s.len(), |k: int| film::filmed(setup, s.take(k + 1))->Ok_0.past.previous);
    let b = Seq::new(s.len(), |k: int| s[k].px);
    assert forall|k: int| 0 <= k < s.len() implies a[k] == b[k] by {
        playback::lemma_filmed_part(setup, s, k + 1);
        assert(playback::shown(x, t, k as nat) == nth(s[0], t, k as nat).px);
    }
    assert(a =~= b);
    let d = session::decode_result(film::filmed(setup, s)->Ok_0.file()->Ok_0)->Ok_0;
    streaming::lemma_restored_len(d, d.frames.len());
}

/// Frames of a file, and the samples they stand for.
pub proof fn lemma_raw_file(h: CrfHeader, datas: Seq<Seq<u8>>, pxs: Seq<Seq<i32>>, k: nat)
    requires
        h.is_valid(),
        h.flags.has_index,
        h.frame_count == datas.len(),
        pxs.len() == datas.len(),
        k <= datas.len(),
        playback::fitting(datas),
        forall|j: int| 0 <= j < datas.len() ==> playback::sized(#[trigger] datas[j]),
        forall|j: int|
            0 <= j < datas.len() ==> reconstruct::frame_result(
                #[trigger] datas[j],
                reconstruct::setting_of(&h),
            ) == Ok::<Seq<i32>, Fault>(pxs[j]),
    ensures
        session::raw_frames(batch::file_bytes(h, datas), h, k) == Ok::<(Seq<Raw>, int), Fault>(
            (
                Seq::new(k, |j: int| Raw { head: FrameHeader::parsed(datas[j]), px: pxs[j] }),
                playback::start_of(datas, k as int),
            ),
        ),
    decreases k,
{
    playback::lemma_file_header(h, datas);
    if k == 0 {
        assert(datas.take(0) =~= Seq::<Seq<u8>>::empty());
        assert(Seq::new(
            0nat,
            |j: int| Raw { head: FrameHeader::parsed(datas[j]), px: pxs[j] },
        ) =~= Seq::<Raw>::empty());
    } else {
        let m = (k - 1) as nat;
        lemma_raw_file(h, datas, pxs, m);
        playback::lemma_file_frame(h, datas, m as int);
        assert(Seq::new(k, |j: int| Raw { head: FrameHeader::parsed(datas[j]), px: pxs[j] })
            =~= Seq::new(
            m,
            |j: int| Raw { head: FrameHeader::parsed(datas[j]), px: pxs[j] },
        ).push(Raw { head: FrameHeader::parsed(datas[m as int]), px: pxs[m as int] }));
    }
}

/// The code of a frame of a chain is well framed, and comes back.
proof fn lemma_link_back(
    x: Reel,
    px: Seq<i32>,
    first: bool,
    preferred: Option<PredictionMode>,
)
    requires
        x.ok(),
        px.len() == x.n(),
        bounds::small(px, exact::image_bound()),
        ({
            let r = sequence::link(x, px, first, FrameQuant::spec_lossless(), preferred);
            r is Ok && r->Ok_0.data.len() <= u32::MAX
        }),
    ensures
        ({
            let d = sequence::link(
                x,
                px,
                first,
                FrameQuant::spec_lossless(),
                preferred,
            )->Ok_0.data;
            &&& playback::sized(d)
            &&& reconstruct::frame_result(d, x.setting()) == Ok::<Seq<i32>, Fault>(px)
        }),
{
    reveal(sequence::link);
    let s = x.setup;
    let p = x.pic(px);
    let fq = FrameQuant::spec_lossless();
    assert(p.ok());
    if s.adaptive {
        frame_form::lemma_adaptive_framed(
            p,
            s.ct,
            s.block_size,
            first,
            fq,
            preferred,
            None,
            s.switches.copies,
        );
        exact::law_frame_lossless(
            p,
            s.ct,
            s.block_size,
            first,
            preferred,
            None,
            s.switches.copies,
            x.setting(),
        );
    } else {
        bounds::lemma_small_wider(px, exact::image_bound(), exact::plane_bound());
        frame_form::lemma_plain_framed(p, s.ct, s.block_size, s.mode, first, fq, None);
        exact::law_plain_frame_lossless(p, s.ct, s.block_size, s.mode, first, None, x.setting());
    }
}

/// The samples of frame `k` of a chain as they are coded.
pub open spec fn as_coded(x: Reel, s: Seq<Still>, plain: bool, k: int) -> Seq<i32> {
    if plain && k == 0 {
        s[k].px
    } else {
        chain::coloured(s[k].px, x.c())
    }
}

proof fn lemma_coloured_small(x: Reel, px: Seq<i32>)
    requires
        px.len() == x.n(),
        bounds::small(px, difference_bound()),
    ensures
        bounds::small(chain::coloured(px, x.c()), exact::image_bound()),
        chain::coloured(px, x.c()).len() == x.n(),
        chain::uncoloured(chain::coloured(px, x.c()), x.c()) == px,
{
    lemma_reel_count(x);
    if x.c() == 3 {
        bounds::lemma_rct_small(px, difference_bound());
        arith::law_rct_roundtrip(px);
    }
}

/// How far from zero the samples of a chain may be for nothing to be lost.
pub open spec fn difference_bound() -> int {
    0x3_ffff
}

/// A frame of a chain with as many samples as its size tells, none of them far from zero.
pub open spec fn chain_still(s: Still) -> bool {
    s.px.len() == s.shape.samples() && s.shape.samples() <= domain::MAX_SAMPLES && bounds::small(
        s.px,
        difference_bound(),
    )
}

proof fn lemma_links_back(
    x: Reel,
    s: Seq<Still>,
    first: Entry,
    plain: bool,
    n: nat,
)
    requires
        x.ok(),
        !x.setup.kernel.enabled,
        1 <= n <= s.len(),
        forall|k: int| 0 <= k < s.len() ==> chain_still(#[trigger] s[k]),
        forall|k: int| 0 <= k < s.len() ==> (#[trigger] s[k]).px.len() == x.n(),
        sequence::first_link(x, s[0].px) == Ok::<(Entry, bool), Fault>((first, plain)),
        sequence::links(x, s, first, n) is Ok,
        playback::fitting(sequence::links(x, s, first, n)->Ok_0),
    ensures
        ({
            let ds = sequence::links(x, s, first, n)->Ok_0;
            &&& ds.len() == n
            &&& plain ==> x.c() == 3
            &&& forall|j: int|
                0 <= j < n ==> playback::sized(#[trigger] ds[j]) && reconstruct::frame_result(
                    ds[j],
                    x.setting(),
                ) == Ok::<Seq<i32>, Fault>(as_coded(x, s, plain, j))
        }),
    decreases n,
{
    let ds = sequence::links(x, s, first, n)->Ok_0;
    assert(chain_still(s[n - 1]));
    assert(s[n - 1].px.len() == x.n());
    lemma_coloured_small(x, s[n - 1].px);
    if n == 1 {
        assert(ds[0].len() <= u32::MAX);
        assert(s[0].px.len() == x.n());
        bounds::lemma_small_wider(s[0].px, difference_bound(), exact::image_bound());
        if plain {
            lemma_link_back(x, s[0].px, true, None);
        } else {
            lemma_link_back(x, chain::coloured(s[0].px, x.c()), true, None);
        }
    } else {
        let m = (n - 1) as nat;
        let before = sequence::links(x, s, first, m)->Ok_0;
        assert(ds.drop_last() =~= before);
        assert(playback::fitting(before)) by {
            assert forall|j: int| 0 <= j < before.len() implies (#[trigger] before[j]).len()
                <= u32::MAX by {
                assert(ds[j] == before[j]);
            }
        }
        lemma_links_back(x, s, first, plain, m);
        assert(ds[n - 1].len() <= u32::MAX);
        let k = x.setup.kernel;
        assert(batch::quant_of_chain(n - 1, x.setup.spec_step(), k, k.deadzone_bias)
            == FrameQuant::spec_lossless());
        lemma_link_back(x, chain::coloured(s[n - 1].px, x.c()), false, first.mode);
        assert forall|j: int| 0 <= j < n implies playback::sized(#[trigger] ds[j])
            && reconstruct::frame_result(ds[j], x.setting()) == Ok::<Seq<i32>, Fault>(
            as_coded(x, s, plain, j),
        ) by {
            if j < m {
                assert(ds[j] == before[j]);
            }
        }
    }
}

proof fn lemma_unmixed_chain(
    h: CrfHeader,
    x: Reel,
    s: Seq<Still>,
    plain: bool,
    rs: Seq<Raw>,
    n: nat,
)
    requires
        h.flags.has_rct == (x.c() == 3),
        h.flags.first_frame_no_rct == plain,
        h.color_format == x.format,
        plain ==> x.c() == 3,
        n <= rs.len(),
        n <= s.len(),
        forall|k: int| 0 <= k < s.len() ==> chain_still(#[trigger] s[k]),
        forall|k: int| 0 <= k < s.len() ==> (#[trigger] s[k]).px.len() == x.n(),
        forall|j: int| 0 <= j < rs.len() ==> (#[trigger] rs[j]).px == as_coded(x, s, plain, j),
    ensures
        session::unmixed_all(h, rs, n) == Ok::<Seq<Seq<i32>>, Fault>(
            Seq::new(n, |k: int| s[k].px),
        ),
    decreases n,
{
    if n == 0 {
        assert(Seq::new(0nat, |k: int| s[k].px) =~= Seq::<Seq<i32>>::empty());
    } else {
        let m = (n - 1) as nat;
        lemma_unmixed_chain(h, x, s, plain, rs, m);
        assert(chain_still(s[m as int]));
        assert(s[m as int].px.len() == x.n());
        lemma_coloured_small(x, s[m as int].px);
        assert(rs[m as int].px == as_coded(x, s, plain, m as int));
        assert(Seq::new(n, |k: int| s[k].px) =~= Seq::new(m, |k: int| s[k].px).push(
            s[m as int].px,
        ));
    }
}

/// The frames of a chain's file.
pub open spec fn chain_datas(setup: Setup, s: Seq<Still>) -> Seq<Seq<u8>> {
    let x = sequence::reel_of(setup, s[0]);
    sequence::links(x, s, sequence::first_link(x, s[0].px)->Ok_0.0, s.len())->Ok_0
}

/// Encoding a frame and differences without loss, and decoding the file, gives the frame and the
/// differences, as long as their samples are no further from zero than the colour arithmetic allows
/// and lengths fit their fields.
pub proof fn law_chain_lossless(setup: Setup, s: Seq<Still>)
    requires
        !setup.kernel.enabled,
        sequence::refused(s) is None,
        forall|k: int| 0 <= k < s.len() ==> chain_still(#[trigger] s[k]),
        sequence::chain_file(setup, s) is Ok,
        playback::fitting(chain_datas(setup, s)),
    ensures
        ({
            let d = session::decode_result(sequence::chain_file(setup, s)->Ok_0);
            d is Ok && d->Ok_0.frames == Seq::new(s.len(), |k: int| s[k].px)
        }),
{
    let x = sequence::reel_of(setup, s[0]);
    let (e, plain) = sequence::first_link(x, s[0].px)->Ok_0;
    let ds = chain_datas(setup, s);
    let h = setup.header(
        s.len() as u16,
        x.width,
        x.height,
        s[0].shape.bit_depth,
        x.format,
        plain,
    );
    lemma_reel_count(x);
    assert(chain_still(s[0]));
    assert forall|k: int| 0 <= k < s.len() implies (#[trigger] s[k]).px.len() == x.n() by {
        assert(chain_still(s[k]));
        sequence::lemma_fitting(s, s.len(), k);
    }
    lemma_links_back(x, s, e, plain, s.len());
    let pxs = Seq::new(s.len(), |k: int| as_coded(x, s, plain, k));
    assert(reconstruct::setting_of(&h) == x.setting());
    lemma_raw_file(h, ds, pxs, s.len());
    playback::lemma_file_header(h, ds);
    let f = batch::file_bytes(h, ds);
    let rs = session::raw_frames(f, h, s.len())->Ok_0.0;
    lemma_unmixed_chain(h, x, s, plain, rs, s.len());
    playback::lemma_file_len(h, ds);
}

} // verus!

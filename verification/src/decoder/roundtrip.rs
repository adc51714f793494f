//! Sequences that can be coded without loss, and come back.

use vstd::prelude::*;
use crate::common::arith;
use crate::common::bounds;
use crate::common::config;
use crate::common::config::{EncodeParams, Setup, Switches};
use crate::common::domain;
use crate::common::domain::{CompressionType, CrfHeader, PredictionMode};
use crate::common::error::Fault;
use crate::common::lic;
use crate::decoder::footer;
use crate::decoder::lossless;
use crate::decoder::lossless::nth;
use crate::decoder::playback;
use crate::decoder::session;
use crate::decoder::streaming;
use crate::encoder::batch;
use crate::encoder::candidate::Entry;
use crate::encoder::chain;
use crate::encoder::chain::{Past, Reel};
use crate::encoder::film;
use crate::encoder::film::Still;
use crate::encoder::frame::FrameQuant;
use crate::encoder::lengths;
use crate::encoder::sequence;

verus! {

/// Frames with `w` samples to a row, no further than `m` from zero, take up no more than their
/// length field can hold.
pub open spec fn roomy(setup: Setup, w: int, h: int, m: int) -> bool {
    &&& lengths::blocks_fit(setup.ct, setup.block_size)
    &&& lengths::coded_samples(w, h, setup.ct, setup.block_size) * (if setup.ct
        == CompressionType::Transform {
        7 * m + 349
    } else {
        m + 81
    }) <= 0x7_ffff_ff00
}

/// The sequence is coded without loss, and its samples are small enough.
pub open spec fn exact_reel(x: Reel, m: int) -> bool {
    &&& x.ok()
    &&& !x.setup.kernel.enabled
    &&& 0 <= m <= lossless::sample_bound()
    &&& roomy(x.setup, x.w() * x.c(), x.h(), m)
}

/// How far from zero the samples of differences are, with their colours transformed.
pub open spec fn coded_bound(m: int) -> int {
    12 * m + 516
}

/// Frames of such samples fit.
proof fn lemma_room(x: Reel, m: int, len: nat)
    requires
        exact_reel(x, m),
        8 * len <= lengths::frame_bits(
            x.w() * x.c(),
            x.h(),
            x.setup.ct,
            x.setup.block_size,
            coded_bound(m),
        ),
    ensures
        len <= u32::MAX,
{
    let s = x.setup;
    let w = x.w() * x.c();
    let n = lengths::coded_samples(w, x.h(), s.ct, s.block_size);
    let per = lengths::bits_for(s.ct, coded_bound(m));
    let most = if s.ct == CompressionType::Transform {
        7 * m + 349
    } else {
        m + 81
    };
    assert(w >= 0 && w * x.h() >= 0) by (nonlinear_arith)
        requires
            w == x.w() * x.c(),
            x.h() >= 1,
            x.w() >= 1,
            x.c() >= 0,
    ;
    if s.ct == CompressionType::Transform {
        let g = crate::encoder::transform::square(w, x.h(), s.block_size as int);
        crate::common::blocks::lemma_count(g);
        assert(g.count() * (s.block_size * s.block_size) >= 0) by (nonlinear_arith)
            requires
                g.count() >= 0,
                s.block_size >= 0,
        ;
    }
    assert(per <= most);
    assert(n * per <= n * most) by (nonlinear_arith)
        requires
            n >= 0,
            per <= most,
    ;
}

proof fn lemma_shot_ok(x: Reel, px: Seq<i32>, first: bool, bands: Option<Seq<u8>>, m: int)
    requires
        exact_reel(x, m),
        px.len() == x.n(),
        bounds::small(px, coded_bound(m)),
    ensures
        ({
            let r = x.shot(px, first, FrameQuant::spec_lossless(), bands);
            r is Ok && r->Ok_0.len() <= u32::MAX
        }),
{
    lengths::lemma_shot_len(x, px, first, bands, coded_bound(m));
    lemma_room(x, m, x.shot(px, first, FrameQuant::spec_lossless(), bands)->Ok_0.len());
}

/// So can frames with their colours transformed.
proof fn lemma_coloured_ok(x: Reel, px: Seq<i32>, first: bool, bands: Option<Seq<u8>>, m: int)
    requires
        exact_reel(x, m),
        px.len() == x.n(),
        bounds::small(px, 3 * m + 128),
    ensures
        ({
            let r = x.shot(
                chain::coloured(px, x.c()),
                first,
                FrameQuant::spec_lossless(),
                bands,
            );
            r is Ok && r->Ok_0.len() <= u32::MAX
        }),
{
    lossless::lemma_reel_count(x);
    if x.c() == 3 {
        bounds::lemma_rct_small(px, 3 * m + 128);
    } else {
        bounds::lemma_small_wider(px, 3 * m + 128, coded_bound(m));
    }
    lemma_shot_ok(x, chain::coloured(px, x.c()), first, bands, m);
}

/// The first frame can be coded.
proof fn lemma_opened_ok(x: Reel, px: Seq<i32>, m: int)
    requires
        exact_reel(x, m),
        px.len() == x.n(),
        bounds::small(px, m),
    ensures
        x.opened(px) is Ok,
        x.opened(px)->Ok_0.0.len() <= u32::MAX,
{
    assert(x.quant(0) == FrameQuant::spec_lossless());
    assert(!x.soft());
    bounds::lemma_small_wider(px, m, 3 * m + 128);
    bounds::lemma_small_wider(px, m, coded_bound(m));
    bounds::lemma_small_wider(px, m, 0x3_ffff);
    bounds::lemma_small_wider(px, m, crate::decoder::exact::image_bound());
    lemma_coloured_ok(x, px, true, None, m);
    lemma_shot_ok(x, px, true, None, m);
    let (d, plain) = x.first_shot(px)->Ok_0;
    if plain {
        lossless::lemma_shot_back(x, px, true, None);
    } else {
        lossless::lemma_coloured_back(x, px, true, None);
    }
}

proof fn lemma_golden_shot_ok(x: Reel, px: Seq<i32>, reference: Seq<i32>, i: int, m: int)
    requires
        exact_reel(x, m),
        px.len() == x.n(),
        reference.len() == x.n(),
        bounds::small(px, m),
        bounds::small(reference, 2 * m + 128),
    ensures
        x.golden_shot(px, reference, i) is Ok,
        x.golden_shot(px, reference, i)->Ok_0.len() <= u32::MAX,
{
    let d = arith::sub_spec(px, reference);
    bounds::lemma_sub_small(px, reference, m, 2 * m + 128);
    assert(x.quant(i) == FrameQuant::spec_lossless());
    assert(x.prepared(px, reference) == chain::coloured(d, x.c()));
    lemma_coloured_ok(x, d, false, x.bands(x.prepared(px, reference), 0), m);
}

/// A difference to the first frame can be coded.
proof fn lemma_golden_ok(x: Reel, px: Seq<i32>, golden: Seq<i32>, i: int, m: int)
    requires
        exact_reel(x, m),
        px.len() == x.n(),
        golden.len() == x.n(),
        bounds::small(px, m),
        bounds::small(golden, m),
    ensures
        x.golden_pick(px, golden, i) is Ok,
        x.golden_pick(px, golden, i)->Ok_0.data.len() <= u32::MAX,
{
    bounds::lemma_small_wider(golden, m, 2 * m + 128);
    lemma_golden_shot_ok(x, px, golden, i, m);
    if let Some(t) = lic::search(golden, px) {
        lic::lemma_best_fit(
            golden,
            px,
            lic::looked_at(golden.len() as int) as nat,
            lic::LIC_A_COUNT as nat,
        );
        bounds::lemma_lic_small(golden, t.a_num as int, t.b as int, m);
        lemma_golden_shot_ok(
            x,
            px,
            arith::lic_spec(golden, t.a_num as int, t.b as int),
            i,
            m,
        );
    }
}

/// A difference to another frame can be coded.
proof fn lemma_change_ok(x: Reel, px: Seq<i32>, reference: Seq<i32>, i: int, m: int)
    requires
        exact_reel(x, m),
        px.len() == x.n(),
        reference.len() == x.n(),
        bounds::small(px, m),
        bounds::small(reference, m),
    ensures
        x.change_shot(px, reference, i) is Ok,
        x.change_shot(px, reference, i)->Ok_0.len() <= u32::MAX,
{
    let d = arith::sub_spec(px, reference);
    lossless::lemma_change_exact(x, px, reference, i);
    bounds::lemma_sub_small(px, reference, m, m);
    bounds::lemma_small_wider(d, 2 * m, 3 * m + 128);
    assert(x.quant(i) == FrameQuant::spec_lossless());
    lemma_coloured_ok(x, d, false, None, m);
}

/// A later frame can be coded.
proof fn lemma_follow_ok(x: Reel, px: Seq<i32>, past: Past, i: int, m: int)
    requires
        exact_reel(x, m),
        px.len() == x.n(),
        bounds::small(px, m),
        past.sized(x.n()),
        bounds::small(past.golden, m),
        bounds::small(past.previous, m),
        past.before is Some ==> bounds::small(past.before->0, m),
    ensures
        x.followed(px, past, i) is Ok,
        x.followed(px, past, i)->Ok_0.0.len() <= u32::MAX,
{
    let big = lossless::sample_bound();
    lemma_golden_ok(x, px, past.golden, i, m);
    let g = x.golden_pick(px, past.golden, i)->Ok_0;
    bounds::lemma_small_wider(px, m, big);
    bounds::lemma_small_wider(past.golden, m, big);
    bounds::lemma_small_wider(past.previous, m, big);
    playback::lemma_golden_framed(x, px, past.golden, i);
    lossless::lemma_golden_back(x, px, past.golden, i);
    lemma_change_ok(x, px, past.previous, i, m);
    playback::lemma_change_framed(x, px, past.previous, i);
    lossless::lemma_change_back(x, px, past.previous, i);
    if past.before is Some {
        bounds::lemma_small_wider(past.before->0, m, big);
        lemma_change_ok(x, px, past.before->0, i, m);
        playback::lemma_change_framed(x, px, past.before->0, i);
        lossless::lemma_change_back(x, px, past.before->0, i);
    }
    let p = x.picked(px, past, g, i)->Ok_0;
    playback::lemma_signed(p, x.setting());
    assert(x.seen(p.data, false) is Ok);
    assert(x.seen(p.signed(), false) == x.seen(p.data, false));
}

/// Frames of one size, with as many samples as it tells, none further than `m` from zero, coded
/// without loss.
pub open spec fn exact_sequence(setup: Setup, s: Seq<Still>, m: int) -> bool {
    &&& !setup.kernel.enabled
    &&& s.len() >= 2
    &&& s[0].shape.width >= 1
    &&& s[0].shape.height >= 1
    &&& 1 <= s[0].shape.bit_depth <= 16
    &&& s[0].shape.samples() <= domain::MAX_SAMPLES
    &&& 0 <= m <= lossless::sample_bound()
    &&& roomy(
        setup,
        s[0].shape.width * s[0].shape.color_format.spec_count(),
        s[0].shape.height as int,
        m,
    )
    &&& forall|k: int| 0 <= k < s.len() ==> fits(#[trigger] s[k], s[0], m)
}

/// A frame of the size and colours of `first`, none of its samples further than `m` from zero.
pub open spec fn fits(s: Still, first: Still, m: int) -> bool {
    &&& s.shape == first.shape
    &&& s.px.len() == s.shape.samples()
    &&& bounds::small(s.px, m)
}

proof fn lemma_film_ok(setup: Setup, s: Seq<Still>, k: nat, m: int)
    requires
        exact_sequence(setup, s, m),
        s.len() <= film::STREAMING_MAX_FRAMES,
        k < s.len(),
    ensures
        ({
            let a = film::started(setup, s[0]);
            &&& a is Ok
            &&& a->Ok_0.with_all(s.skip(1), k) is Ok
            &&& playback::fitting(playback::film_at(a->Ok_0, s.skip(1), k).datas)
        }),
    decreases k,
{
    let t = s.skip(1);
    let x = sequence::reel_of(setup, s[0]);
    lossless::lemma_reel_count(x);
    assert(fits(s[0], s[0], m));
    assert(exact_reel(x, m));
    if k == 0 {
        lemma_opened_ok(x, s[0].px, m);
        let a = film::started(setup, s[0])->Ok_0;
        assert(playback::film_at(a, t, 0) == a);
    } else {
        let j = (k - 1) as nat;
        lemma_film_ok(setup, s, j, m);
        let a = film::started(setup, s[0])->Ok_0;
        assert forall|i: int| 0 <= i < t.len() implies lossless::plain_still(#[trigger] t[i]) by {
            assert(fits(s[i + 1], s[0], m));
            bounds::lemma_small_wider(t[i].px, m, lossless::sample_bound());
        }
        bounds::lemma_small_wider(s[0].px, m, lossless::sample_bound());
        lossless::lemma_lossless_film(setup, s[0], t, j);
        playback::lemma_fresh(setup, s[0]);
        playback::lemma_film_at(a, t, j);
        let z = playback::film_at(a, t, j);
        assert(playback::shown(a, t, 0) == nth(s[0], t, 0).px);
        assert(playback::shown(a, t, j) == nth(s[0], t, j).px);
        assert(nth(s[0], t, j) == s[j as int]);
        assert(fits(s[j as int], s[0], m));
        if j > 0 {
            let i = (j - 1) as nat;
            assert(playback::shown(a, t, i) == nth(s[0], t, i).px);
            assert(nth(s[0], t, i) == s[i as int]);
            assert(fits(s[i as int], s[0], m));
        }
        let f = t[j as int];
        assert(f == s[k as int]);
        assert(fits(s[k as int], s[0], m));
        lemma_follow_ok(x, f.px, z.past, k as int, m);
        assert(z.reel == x);
        assert(film::alike(z.reel, f));
        let y = a.with_all(t, k)->Ok_0;
        assert(y.datas == z.datas.push(x.followed(f.px, z.past, k as int)->Ok_0.0));
        assert forall|i: int| 0 <= i < y.datas.len() implies (#[trigger] y.datas[i]).len()
            <= u32::MAX by {
            if i < z.datas.len() {
                assert(y.datas[i] == z.datas[i]);
            }
        }
    }
}

/// Every sequence of up to 65535 frames of one size is coded without loss if no quality is asked
/// for, and decoding the file gives its frames, one by one or all together.
pub proof fn law_roundtrip(setup: Setup, s: Seq<Still>, m: int)
    requires
        exact_sequence(setup, s, m),
        s.len() <= film::STREAMING_MAX_FRAMES,
    ensures
        sequence::film_file(setup, s) is Ok,
        ({
            let f = sequence::film_file(setup, s)->Ok_0;
            let frames = Seq::new(s.len(), |k: int| s[k].px);
            let d = session::checked_result(f);
            &&& streaming::stream_result(f) == Ok::<Seq<Seq<i32>>, Fault>(frames)
            &&& d is Ok
            &&& d == session::decode_result(f)
            &&& streaming::restored(d->Ok_0, s.len()) == frames
        }),
{
    let n = (s.len() - 1) as nat;
    let t = s.skip(1);
    lemma_film_ok(setup, s, n, m);
    let a = film::started(setup, s[0])->Ok_0;
    playback::lemma_fresh(setup, s[0]);
    playback::lemma_film_at(a, t, n);
    let y = film::filmed(setup, s)->Ok_0;
    assert(y.header().is_valid());
    assert forall|k: int| 0 <= k < s.len() implies lossless::plain_still(#[trigger] s[k]) by {
        assert(fits(s[k], s[0], m));
        bounds::lemma_small_wider(s[k].px, m, lossless::sample_bound());
    }
    lossless::law_sequence_lossless(setup, s);
    lemma_sealed(y.header(), y.datas);
}

/// A file passes its checksum.
proof fn lemma_sealed(h: CrfHeader, ds: Seq<Seq<u8>>)
    ensures
        session::checked_result(batch::file_bytes(h, ds)) == session::decode_result(
            batch::file_bytes(h, ds),
        ),
{
    footer::law_sealed_passes(
        h.bytes() + batch::index_bytes(batch::places(ds)) + batch::joined(ds),
    );
}

/// A frame of a chain can be coded.
proof fn lemma_link_ok(
    x: Reel,
    px: Seq<i32>,
    first: bool,
    preferred: Option<PredictionMode>,
    m: int,
)
    requires
        exact_reel(x, m),
        px.len() == x.n(),
        bounds::small(px, coded_bound(m)),
    ensures
        ({
            let r = sequence::link(x, px, first, FrameQuant::spec_lossless(), preferred);
            r is Ok && r->Ok_0.data.len() <= u32::MAX
        }),
{
    reveal(sequence::link);
    let s = x.setup;
    let p = x.pic(px);
    assert(p.ok());
    if s.adaptive {
        lengths::lemma_adaptive_len(
            p,
            s.ct,
            s.block_size,
            first,
            preferred,
            None,
            s.switches.copies,
            coded_bound(m),
        );
    } else {
        lengths::lemma_plain_len(p, s.ct, s.block_size, s.mode, first, None, coded_bound(m));
    }
    lemma_room(
        x,
        m,
        sequence::link(
            x,
            px,
            first,
            FrameQuant::spec_lossless(),
            preferred,
        )->Ok_0.data.len(),
    );
}

/// Samples with their colours transformed are within bounds.
proof fn lemma_coloured_bound(x: Reel, px: Seq<i32>, m: int)
    requires
        exact_reel(x, m),
        px.len() == x.n(),
        bounds::small(px, m),
    ensures
        bounds::small(px, coded_bound(m)),
        bounds::small(chain::coloured(px, x.c()), coded_bound(m)),
        chain::coloured(px, x.c()).len() == x.n(),
{
    lossless::lemma_reel_count(x);
    bounds::lemma_small_wider(px, m, coded_bound(m));
    if x.c() == 3 {
        bounds::lemma_rct_small(px, m);
        bounds::lemma_small_wider(arith::rct_spec(px), 4 * m + 4, coded_bound(m));
    }
}

proof fn lemma_links_ok(x: Reel, s: Seq<Still>, first: Entry, n: nat, m: int)
    requires
        exact_reel(x, m),
        1 <= n <= s.len(),
        first.data.len() <= u32::MAX,
        forall|k: int|
            0 <= k < s.len() ==> (#[trigger] s[k]).px.len() == x.n() && bounds::small(s[k].px, m),
    ensures
        sequence::links(x, s, first, n) is Ok,
        playback::fitting(sequence::links(x, s, first, n)->Ok_0),
    decreases n,
{
    if n > 1 {
        let j = (n - 1) as nat;
        lemma_links_ok(x, s, first, j, m);
        assert(s[n - 1].px.len() == x.n() && bounds::small(s[n - 1].px, m));
        lemma_coloured_bound(x, s[n - 1].px, m);
        let k = x.setup.kernel;
        assert(batch::quant_of_chain(n - 1, x.setup.spec_step(), k, k.deadzone_bias)
            == FrameQuant::spec_lossless());
        lemma_link_ok(x, chain::coloured(s[n - 1].px, x.c()), false, first.mode, m);
        let before = sequence::links(x, s, first, j)->Ok_0;
        let ds = sequence::links(x, s, first, n)->Ok_0;
        assert forall|i: int| 0 <= i < ds.len() implies (#[trigger] ds[i]).len() <= u32::MAX by {
            if i < before.len() {
                assert(ds[i] == before[i]);
            }
        }
    }
}

/// A frame and differences are coded without loss if no quality is asked for, and decoding the file
/// gives the frame and the differences.
pub proof fn law_chain_roundtrip(setup: Setup, s: Seq<Still>, m: int)
    requires
        exact_sequence(setup, s, m),
        sequence::refused(s) is None,
    ensures
        sequence::chain_file(setup, s) is Ok,
        ({
            let f = sequence::chain_file(setup, s)->Ok_0;
            let d = session::checked_result(f);
            &&& d is Ok
            &&& d == session::decode_result(f)
            &&& d->Ok_0.frames == Seq::new(s.len(), |k: int| s[k].px)
        }),
{
    let x = sequence::reel_of(setup, s[0]);
    lossless::lemma_reel_count(x);
    assert(fits(s[0], s[0], m));
    assert(exact_reel(x, m));
    assert forall|k: int| 0 <= k < s.len() implies (#[trigger] s[k]).px.len() == x.n()
        && bounds::small(s[k].px, m) && lossless::chain_still(s[k]) by {
        assert(fits(s[k], s[0], m));
        bounds::lemma_small_wider(s[k].px, m, lossless::difference_bound());
    }
    lemma_coloured_bound(x, s[0].px, m);
    lemma_link_ok(x, chain::coloured(s[0].px, x.c()), true, None, m);
    lemma_link_ok(x, s[0].px, true, None, m);
    let (e, plain) = sequence::first_link(x, s[0].px)->Ok_0;
    lemma_links_ok(x, s, e, s.len(), m);
    lossless::law_chain_lossless(setup, s);
    let ds = lossless::chain_datas(setup, s);
    let h = setup.header(
        s.len() as u16,
        x.width,
        x.height,
        s[0].shape.bit_depth,
        x.format,
        plain,
    );
    lemma_sealed(h, ds);
}

/// Encoding between two and fifty frames of one size without a quality succeeds, unless they need
/// too much memory, and decoding gives the frames, whatever the other parameters are: restored, if
/// they were original frames, else as they were given.
pub proof fn law_encode_decode(p: &EncodeParams, on: Switches, s: Seq<Still>, m: int)
    requires
        p.valid(),
        p.options() is None,
        exact_sequence(config::setup_of(p, on), s, m),
        s.len() <= sequence::BATCH_MAX_FRAMES,
        !sequence::too_big(s),
    ensures
        sequence::sequence_result(p, on, s) is Ok,
        ({
            let d = session::checked_result(sequence::sequence_result(p, on, s)->Ok_0);
            let frames = Seq::new(s.len(), |k: int| s[k].px);
            d is Ok && frames == if p.input_original_frames {
                streaming::restored(d->Ok_0, s.len())
            } else {
                d->Ok_0.frames
            }
        }),
{
    let setup = config::setup_of(p, on);
    lemma_no_misfit(setup, s, m, s.len());
    if p.input_original_frames {
        law_roundtrip(setup, s, m);
    } else {
        law_chain_roundtrip(setup, s, m);
    }
}

proof fn lemma_no_misfit(setup: Setup, s: Seq<Still>, m: int, n: nat)
    requires
        exact_sequence(setup, s, m),
        n <= s.len(),
    ensures
        sequence::misfit(s, n) is None,
    decreases n,
{
    if n > 1 {
        lemma_no_misfit(setup, s, m, (n - 1) as nat);
        assert(fits(s[n - 1], s[0], m));
    }
}

} // verus!

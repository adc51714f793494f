//! What a decoder makes of a file is what the encoder took it to make.

use vstd::prelude::*;
use crate::common::arith;
use crate::common::config::Setup;
use crate::common::domain;
use crate::common::domain::{
    CrfHeader,
    FrameHeader,
    FrameIndexEntry,
    FRAME_HEADER_SIZE,
    HEADER_SIZE,
    REF_GOLDEN,
    REF_PREV2,
    REF_PREVIOUS,
};
use crate::common::error::Fault;
use crate::common::le;
use crate::decoder::reconstruct;
use crate::decoder::reconstruct::Setting;
use crate::decoder::session;
use crate::decoder::streaming;
use crate::encoder::batch;
use crate::encoder::chain;
use crate::encoder::chain::{Past, Pick, Reel};
use crate::encoder::film;
use crate::encoder::film::{Film, Still};
use crate::encoder::frame_form;

verus! {

/// A frame whose header tells its length.
pub open spec fn sized(d: Seq<u8>) -> bool {
    d.len() >= FRAME_HEADER_SIZE && (d.len() <= u32::MAX ==> FrameHeader::parsed(d).frame_size
        + FRAME_HEADER_SIZE == d.len())
}

/// The frames are no longer than their headers can tell.
pub open spec fn fitting(datas: Seq<Seq<u8>>) -> bool {
    forall|k: int| 0 <= k < datas.len() ==> (#[trigger] datas[k]).len() <= u32::MAX
}

/// Where frame `k` of a file starts.
pub open spec fn start_of(datas: Seq<Seq<u8>>, k: int) -> int {
    HEADER_SIZE + 8 * datas.len() + batch::joined(datas.take(k)).len()
}

proof fn lemma_index_len(es: Seq<FrameIndexEntry>)
    ensures
        batch::index_bytes(es).len() == 8 * es.len(),
    decreases es.len(),
{
    if es.len() > 0 {
        lemma_index_len(es.drop_last());
    }
}

proof fn lemma_joined(datas: Seq<Seq<u8>>, m: int)
    requires
        0 <= m <= datas.len(),
    ensures
        batch::joined(datas.take(m)).len() <= batch::joined(datas).len(),
        batch::joined(datas).take(batch::joined(datas.take(m)).len() as int) == batch::joined(
            datas.take(m),
        ),
    decreases datas.len(),
{
    if m == datas.len() {
        assert(datas.take(m) =~= datas);
        assert(batch::joined(datas).take(batch::joined(datas).len() as int) =~= batch::joined(
            datas,
        ));
    } else {
        let d = datas.drop_last();
        lemma_joined(d, m);
        assert(d.take(m) =~= datas.take(m));
        let n = batch::joined(datas.take(m)).len() as int;
        assert(batch::joined(datas).take(n) =~= batch::joined(d).take(n));
    }
}

/// The frames of a file are found again.
pub proof fn lemma_file_frame(h: CrfHeader, datas: Seq<Seq<u8>>, k: int)
    requires
        0 <= k < datas.len(),
        sized(datas[k]),
        datas[k].len() <= u32::MAX,
        h.bytes().len() == HEADER_SIZE,
    ensures
        session::frame_at(batch::file_bytes(h, datas), start_of(datas, k)) == Ok::<
            (Seq<u8>, int),
            Fault,
        >((datas[k], start_of(datas, k + 1))),
{
    let f = batch::file_bytes(h, datas);
    let es = batch::places(datas);
    let d = datas[k];
    lemma_index_len(es);
    lemma_joined(datas, k + 1);
    let (a, b) = (batch::joined(datas.take(k)), batch::joined(datas.take(k + 1)));
    assert(datas.take(k + 1).drop_last() =~= datas.take(k));
    assert(b == a + d);
    let all = batch::joined(datas);
    let head = h.bytes() + batch::index_bytes(es);
    let (from, to) = (start_of(datas, k), start_of(datas, k + 1));
    assert(head.len() == HEADER_SIZE + 8 * datas.len());
    assert(to == from + d.len());
    assert(f.len() >= head.len() + all.len());
    assert forall|i: int| 0 <= i < d.len() implies f[from + i] == d[i] by {
        let j = a.len() + i;
        assert(f[from + i] == all[j]);
        assert(all.take(b.len() as int)[j] == all[j]);
        assert(b[j] == d[i]);
    }
    assert(f.subrange(from, to) =~= d);
    assert(le::le32_at(f, from) == le::le32_at(d, 0)) by {
        assert(f[from + 0] == d[0] && f[from + 1] == d[1] && f[from + 2] == d[2] && f[from + 3]
            == d[3]);
    }
    le::lemma_le32_back(d, 0);
}

/// The header of a file is found again.
pub proof fn lemma_file_header(h: CrfHeader, datas: Seq<Seq<u8>>)
    requires
        h.is_valid(),
    ensures
        session::header_result(batch::file_bytes(h, datas)) == Ok::<CrfHeader, Fault>(h),
        h.bytes().len() == HEADER_SIZE,
{
    let f = batch::file_bytes(h, datas);
    let es = batch::places(datas);
    let d = h.bytes() + batch::index_bytes(es) + batch::joined(datas);
    let tail = batch::index_bytes(es) + batch::joined(datas) + le::le32(
        crate::common::crc::crc32_spec(d),
    ) + domain::footer_magic();
    domain::law_header_roundtrip(h, tail);
    assert(f =~= h.bytes() + tail);
}

/// A file is longer than its header and index.
pub proof fn lemma_file_len(h: CrfHeader, datas: Seq<Seq<u8>>)
    requires
        h.bytes().len() == HEADER_SIZE,
    ensures
        batch::file_bytes(h, datas).len() >= HEADER_SIZE + 8 * datas.len(),
{
    lemma_index_len(batch::places(datas));
}

/// What a frame refers to is in its header, and nothing else changes.
pub proof fn lemma_signed(p: Pick, x: Setting)
    requires
        frame_form::well_framed(p.data),
    ensures
        sized(p.signed()),
        p.signed().len() == p.data.len(),
        FrameHeader::parsed(p.signed()).reference_type == p.kind,
        FrameHeader::parsed(p.signed()).lic_a_num == p.a,
        FrameHeader::parsed(p.signed()).lic_b == p.b,
        reconstruct::frame_result(p.signed(), x) == reconstruct::frame_result(p.data, x),
{
    reveal(reconstruct::flat_result);
    let (d, e) = (p.data, p.signed());
    let (g, h) = (FrameHeader::parsed(d), FrameHeader::parsed(e));
    assert(g.frame_size == h.frame_size && g.pixel_count == h.pixel_count);
    assert(g.frame_type == h.frame_type && g.coding_params == h.coding_params && g.pred_mode
        == h.pred_mode);
    assert(d.skip(FRAME_HEADER_SIZE as int) =~= e.skip(FRAME_HEADER_SIZE as int));
}

/// The code of a later frame comes from a choice of what it refers to.
pub proof fn lemma_followed(x: Reel, px: Seq<i32>, past: Past, i: int) -> (p: Pick)
    requires
        x.followed(px, past, i) is Ok,
    ensures
        frame_form::well_framed(p.data),
        x.golden_pick(px, past.golden, i) is Ok,
        x.picked(px, past, x.golden_pick(px, past.golden, i)->Ok_0, i) == Ok::<Pick, Fault>(p),
        x.seen(p.signed(), false) is Ok,
        x.followed(px, past, i)->Ok_0 == (
            p.signed(),
            past.with(arith::add_spec(p.base(past), x.seen(p.signed(), false)->Ok_0)),
        ),
        p.kind == REF_GOLDEN || p.kind == REF_PREVIOUS || p.kind == REF_PREV2,
        p.kind != REF_GOLDEN ==> p.a == 0,
        p.kind == REF_PREV2 ==> past.before is Some,
{
    let g = x.golden_pick(px, past.golden, i)->Ok_0;
    let p = x.picked(px, past, g, i)->Ok_0;
    lemma_golden_framed(x, px, past.golden, i);
    lemma_change_framed(x, px, past.previous, i);
    if past.before is Some {
        lemma_change_framed(x, px, past.before->0, i);
    }
    p
}

proof fn lemma_golden_shot_framed(x: Reel, px: Seq<i32>, reference: Seq<i32>, i: int)
    ensures
        x.golden_shot(px, reference, i) is Ok ==> frame_form::well_framed(
            x.golden_shot(px, reference, i)->Ok_0,
        ),
{
    let d = x.prepared(px, reference);
    chain::lemma_shot(x, d, false, x.quant(i), x.bands(d, x.quant(i).step));
}

pub proof fn lemma_golden_framed(x: Reel, px: Seq<i32>, golden: Seq<i32>, i: int)
    ensures
        ({
            let r = x.golden_pick(px, golden, i);
            r is Ok ==> frame_form::well_framed(r->Ok_0.data) && r->Ok_0.kind == REF_GOLDEN
        }),
{
    lemma_golden_shot_framed(x, px, golden, i);
    if let Some(t) = crate::common::lic::search(golden, px) {
        lemma_golden_shot_framed(
            x,
            px,
            arith::lic_spec(golden, t.a_num as int, t.b as int),
            i,
        );
    }
}

pub proof fn lemma_change_framed(x: Reel, px: Seq<i32>, reference: Seq<i32>, i: int)
    ensures
        x.change_shot(px, reference, i) is Ok ==> frame_form::well_framed(
            x.change_shot(px, reference, i)->Ok_0,
        ),
{
    chain::lemma_shot(
        x,
        chain::coloured(x.change(px, reference, i), x.c()),
        false,
        x.quant(i),
        None,
    );
}

/// The film after `k` more frames.
pub open spec fn film_at(x: Film, t: Seq<Still>, k: nat) -> Film {
    x.with_all(t, k)->Ok_0
}

/// Frame `k` as the encoder takes a decoder to have it.
pub open spec fn shown(x: Film, t: Seq<Still>, k: nat) -> Seq<i32> {
    film_at(x, t, k).past.previous
}

/// A film with one frame.
pub open spec fn fresh(x: Film) -> bool {
    &&& x.datas.len() == 1
    &&& sized(x.datas[0])
    &&& x.past.golden == x.past.previous
    &&& x.past.before is None
    &&& x.plain ==> x.reel.c() == 3
    &&& x.reel.seen(x.datas[0], x.plain) == Ok::<Seq<i32>, Fault>(x.past.golden)
}

/// Films start with one frame.
pub proof fn lemma_fresh(setup: Setup, s: Still)
    ensures
        film::started(setup, s) is Ok ==> fresh(film::started(setup, s)->Ok_0),
{
    if film::started(setup, s) is Ok {
        let x = film::started(setup, s)->Ok_0.reel;
        let p = if x.soft() {
            chain::softened(s.px)
        } else {
            s.px
        };
        chain::lemma_shot(x, chain::coloured(p, x.c()), true, x.quant(0), None);
        chain::lemma_shot(x, p, true, x.quant(0), None);
    }
}

/// What a film remembers after `k` more frames.
pub proof fn lemma_film_at(x: Film, t: Seq<Still>, k: nat)
    requires
        fresh(x),
        x.with_all(t, k) is Ok,
    ensures
        ({
            let y = film_at(x, t, k);
            &&& y.reel == x.reel
            &&& y.plain == x.plain
            &&& y.depth == x.depth
            &&& y.datas.len() == k + 1
            &&& y.past.golden == shown(x, t, 0)
            &&& y.past.before == if k == 0 {
                None
            } else {
                Some(shown(x, t, (k - 1) as nat))
            }
            &&& forall|j: int| 0 <= j <= k ==> sized(#[trigger] y.datas[j])
        }),
        k > 0 ==> x.with_all(t, (k - 1) as nat) is Ok && film_at(x, t, k).datas.drop_last()
            == film_at(x, t, (k - 1) as nat).datas && alike_step(x, t, k),
    decreases k,
{
    if k > 0 {
        let m = (k - 1) as nat;
        lemma_film_at(x, t, m);
        let y = film_at(x, t, m);
        let s = t[k - 1];
        let p = lemma_followed(y.reel, s.px, y.past, k as int);
        lemma_signed(p, y.reel.setting());
        let z = film_at(x, t, k);
        assert(z.datas.drop_last() =~= y.datas);
        assert forall|j: int| 0 <= j <= k implies sized(#[trigger] z.datas[j]) by {
            if j < k {
                assert(z.datas[j] == y.datas[j]);
            }
        }
    }
}

/// Frame `k` is like the first one.
pub open spec fn alike_step(x: Film, t: Seq<Still>, k: nat) -> bool {
    film::alike(x.reel, t[k - 1])
}

proof fn lemma_prefix_datas(x: Film, t: Seq<Still>, k: nat, n: nat)
    requires
        fresh(x),
        k <= n,
        x.with_all(t, n) is Ok,
    ensures
        x.with_all(t, k) is Ok,
        film_at(x, t, n).datas.take(k as int + 1) == film_at(x, t, k).datas,
    decreases n,
{
    lemma_film_at(x, t, n);
    if k < n {
        lemma_prefix_datas(x, t, k, (n - 1) as nat);
        let (a, b) = (film_at(x, t, n).datas, film_at(x, t, (n - 1) as nat).datas);
        lemma_film_at(x, t, k);
        assert(a.take(k as int + 1) =~= b.take(k as int + 1)) by {
            assert(a.drop_last() == b);
            assert forall|j: int| 0 <= j < k + 1 implies a[j] == b[j] by {
                assert(a.drop_last()[j] == a[j]);
            }
        }
    } else {
        assert(film_at(x, t, n).datas.take(k as int + 1) =~= film_at(x, t, k).datas);
    }
}

/// The frames as the encoder takes a decoder to have them, up to frame `k`.
pub open spec fn shown_upto(x: Film, t: Seq<Still>, k: nat) -> Seq<Seq<i32>> {
    Seq::new(k, |j: int| shown(x, t, j as nat))
}

proof fn lemma_first_step(x: Film, d: Seq<u8>, h: CrfHeader)
    requires
        fresh(x),
        reconstruct::setting_of(&h) == x.reel.setting(),
        h.flags.has_rct == (x.reel.c() == 3),
        h.flags.first_frame_no_rct == x.plain,
        h.color_format == x.reel.format,
        d == x.datas[0],
    ensures
        reconstruct::frame_result(d, reconstruct::setting_of(&h)) is Ok,
        session::unmixed(
            h,
            0,
            reconstruct::frame_result(d, reconstruct::setting_of(&h))->Ok_0,
        ) == Ok::<Seq<i32>, Fault>(x.past.golden),
{
}

proof fn lemma_later_step(x: Film, t: Seq<Still>, k: nat, h: CrfHeader)
    requires
        fresh(x),
        k >= 1,
        x.with_all(t, k) is Ok,
        reconstruct::setting_of(&h) == x.reel.setting(),
        h.flags.has_rct == (x.reel.c() == 3),
        h.color_format == x.reel.format,
    ensures
        ({
            let d = film_at(x, t, k).datas[k as int];
            let r = reconstruct::frame_result(d, reconstruct::setting_of(&h));
            &&& r is Ok
            &&& session::unmixed(h, k as int, r->Ok_0) is Ok
            &&& streaming::played(
                shown_upto(x, t, k),
                k as int,
                FrameHeader::parsed(d),
                session::unmixed(h, k as int, r->Ok_0)->Ok_0,
            ) == shown(x, t, k)
        }),
{
    let m = (k - 1) as nat;
    lemma_film_at(x, t, k);
    lemma_film_at(x, t, m);
    let y = film_at(x, t, m);
    let s = t[k - 1];
    let p = lemma_followed(y.reel, s.px, y.past, k as int);
    lemma_signed(p, y.reel.setting());
    let z = film_at(x, t, k);
    let d = z.datas[k as int];
    assert(d == p.signed());
    let q = x.reel.seen(d, false)->Ok_0;
    assert(session::unmixed(
        h,
        k as int,
        reconstruct::frame_result(d, reconstruct::setting_of(&h))->Ok_0,
    ) == Ok::<Seq<i32>, Fault>(q));
    let out = shown_upto(x, t, k);
    let base = session::base_of(out, k as int, p.kind == REF_GOLDEN, p.kind == REF_PREV2);
    if p.kind == REF_PREV2 {
        assert(k >= 2);
        assert(out[k - 2] == shown(x, t, (k - 2) as nat));
        assert(y.past.before == Some(shown(x, t, (m - 1) as nat)));
    } else if p.kind == REF_PREVIOUS {
        assert(out[k - 1] == shown(x, t, m));
    } else {
        assert(out[0] == shown(x, t, 0));
    }
    assert(arith::weighted_spec(base, p.a, p.b) == p.base(y.past));
}

proof fn lemma_plays(x: Film, t: Seq<Still>, n: nat, k: nat)
    requires
        fresh(x),
        x.with_all(t, n) is Ok,
        1 <= k <= n + 1,
        n + 1 <= 0xffff,
        film_at(x, t, n).header().is_valid(),
        fitting(film_at(x, t, n).datas),
    ensures
        ({
            let y = film_at(x, t, n);
            streaming::tape(batch::file_bytes(y.header(), y.datas), y.header(), k) == Ok::<
                (Seq<Seq<i32>>, int),
                Fault,
            >((shown_upto(x, t, k), start_of(y.datas, k as int)))
        }),
    decreases k,
{
    let y = film_at(x, t, n);
    let h = y.header();
    let f = batch::file_bytes(h, y.datas);
    let m = (k - 1) as nat;
    lemma_film_at(x, t, n);
    lemma_file_header(h, y.datas);
    lemma_prefix_datas(x, t, m, n);
    lemma_film_at(x, t, m);
    let d = film_at(x, t, m).datas[m as int];
    assert(y.datas.take(m as int + 1)[m as int] == d);
    assert(y.datas[m as int] == d);
    lemma_file_frame(h, y.datas, m as int);
    assert(reconstruct::setting_of(&h) == x.reel.setting());
    if k == 1 {
        assert(streaming::tape(f, h, 0) == Ok::<(Seq<Seq<i32>>, int), Fault>(
            (Seq::empty(), session::frames_start(h)),
        ));
        assert(y.datas.take(0) =~= Seq::<Seq<u8>>::empty());
        assert(session::frames_start(h) == start_of(y.datas, 0));
        lemma_first_step(x, d, h);
        assert(shown_upto(x, t, 1) =~= Seq::<Seq<i32>>::empty().push(shown(x, t, 0)));
    } else {
        lemma_plays(x, t, n, m);
        lemma_later_step(x, t, m, h);
        assert(shown_upto(x, t, k) =~= shown_upto(x, t, m).push(shown(x, t, m)));
    }
}

proof fn lemma_same_films(x: Film, t: Seq<Still>, k: nat, n: nat)
    requires
        n <= k <= t.len(),
    ensures
        x.with_all(t.take(k as int), n) == x.with_all(t, n),
    decreases n,
{
    if n > 0 {
        lemma_same_films(x, t, k, (n - 1) as nat);
    }
}

/// The film of the first frames of a sequence.
pub proof fn lemma_filmed_part(setup: Setup, s: Seq<Still>, k: int)
    requires
        1 <= k <= s.len(),
        film::started(setup, s[0]) is Ok,
    ensures
        film::filmed(setup, s.take(k)) == film::started(setup, s[0])->Ok_0.with_all(
            s.skip(1),
            (k - 1) as nat,
        ),
{
    let x = film::started(setup, s[0])->Ok_0;
    assert(s.take(k)[0] == s[0]);
    assert(s.take(k).skip(1) =~= s.skip(1).take(k - 1));
    lemma_same_films(x, s.skip(1), (k - 1) as nat, (k - 1) as nat);
}

/// Decoding a file frame by frame gives the frames that the encoder has taken a decoder to have, and
/// that it has let later frames refer to, whether or not anything is lost.
pub proof fn law_file_plays(setup: Setup, s: Seq<Still>)
    requires
        s.len() >= 2,
        film::filmed(setup, s) is Ok,
        film::filmed(setup, s)->Ok_0.file() is Ok,
        fitting(film::filmed(setup, s)->Ok_0.datas),
    ensures
        streaming::stream_result(film::filmed(setup, s)->Ok_0.file()->Ok_0) == Ok::<
            Seq<Seq<i32>>,
            Fault,
        >(
            Seq::new(
                s.len(),
                |k: int| film::filmed(setup, s.take(k + 1))->Ok_0.past.previous,
            ),
        ),
{
    let x = film::started(setup, s[0])->Ok_0;
    let t = s.skip(1);
    let n = (s.len() - 1) as nat;
    lemma_fresh(setup, s[0]);
    lemma_film_at(x, t, n);
    lemma_few(x, t, n);
    let y = film_at(x, t, n);
    lemma_file_header(y.header(), y.datas);
    lemma_plays(x, t, n, n + 1);
    assert(y.header().frame_count == n + 1);
    assert forall|k: int| 0 <= k < s.len() implies #[trigger] shown_upto(
        x,
        t,
        n + 1,
    )[k] == film::filmed(
        setup,
        s.take(k + 1),
    )->Ok_0.past.previous by {
        lemma_filmed_part(setup, s, k + 1);
    }
    assert(shown_upto(x, t, n + 1) =~= Seq::new(
        s.len(),
        |k: int| film::filmed(setup, s.take(k + 1))->Ok_0.past.previous,
    ));
}

/// A film has no more frames than a file can hold.
proof fn lemma_few(x: Film, t: Seq<Still>, n: nat)
    requires
        fresh(x),
        x.with_all(t, n) is Ok,
    ensures
        n + 1 <= 0xffff,
{
    lemma_film_at(x, t, n);
    if n > 0 {
        lemma_film_at(x, t, (n - 1) as nat);
    }
}

proof fn lemma_index_at(es: Seq<FrameIndexEntry>, k: int)
    requires
        0 <= k < es.len(),
    ensures
        batch::index_bytes(es).len() == 8 * es.len(),
        batch::index_bytes(es).subrange(8 * k, 8 * k + 8) == es[k].bytes(),
    decreases es.len(),
{
    lemma_index_len(es);
    let init = es.drop_last();
    lemma_index_len(init);
    let all = batch::index_bytes(es);
    if k < init.len() {
        lemma_index_at(init, k);
        assert(all.subrange(8 * k, 8 * k + 8) =~= batch::index_bytes(init).subrange(
            8 * k,
            8 * k + 8,
        ));
    } else {
        assert(all.subrange(8 * k, 8 * k + 8) =~= es[k].bytes());
    }
}

proof fn lemma_windows(h: Seq<u8>, x: Seq<u8>, j: Seq<u8>, t: Seq<u8>, u: int, v: int, n: int)
    requires
        0 <= u,
        u + 8 <= x.len(),
        0 <= v <= v + n <= j.len(),
    ensures
        ({
            let f = h + x + j + t;
            let (e, a) = (h.len() + u, h.len() + x.len() + v);
            &&& f.subrange(e, e + 4) == x.subrange(u, u + 8).subrange(0, 4)
            &&& f.subrange(e + 4, e + 8) == x.subrange(u, u + 8).subrange(4, 8)
            &&& f.subrange(a, a + n) == j.subrange(v, v + n)
        }),
{
    let f = h + x + j + t;
    let (e, a) = (h.len() + u, h.len() + x.len() + v);
    assert(f.subrange(e, e + 4) =~= x.subrange(u, u + 8).subrange(0, 4));
    assert(f.subrange(e + 4, e + 8) =~= x.subrange(u, u + 8).subrange(4, 8));
    assert(f.subrange(a, a + n) =~= j.subrange(v, v + n));
}

proof fn lemma_joined_part(datas: Seq<Seq<u8>>, k: int)
    requires
        0 <= k < datas.len(),
    ensures
        ({
            let v = batch::joined(datas.take(k)).len() as int;
            let n = datas[k].len() as int;
            &&& v + n <= batch::joined(datas).len()
            &&& batch::joined(datas).subrange(v, v + n) == datas[k]
        }),
{
    lemma_joined(datas, k + 1);
    let (a, b) = (batch::joined(datas.take(k)), batch::joined(datas.take(k + 1)));
    let d = datas[k];
    assert(datas.take(k + 1).drop_last() =~= datas.take(k));
    assert(b == a + d);
    let all = batch::joined(datas);
    assert(all.take(b.len() as int).subrange(a.len() as int, b.len() as int) =~= d);
    assert(all.subrange(a.len() as int, b.len() as int) =~= all.take(b.len() as int).subrange(
        a.len() as int,
        b.len() as int,
    ));
}

/// The index of a file tells where each frame is: at the place and with the length that its entry
/// names stand the bytes of the frame.
pub proof fn law_index_finds(h: CrfHeader, datas: Seq<Seq<u8>>, k: int)
    requires
        0 <= k < datas.len(),
        h.is_valid(),
        batch::file_bytes(h, datas).len() <= u32::MAX,
    ensures
        ({
            let f = batch::file_bytes(h, datas);
            let at = le::le32_at(f, HEADER_SIZE + 8 * k);
            let size = le::le32_at(f, HEADER_SIZE + 8 * k + 4);
            &&& HEADER_SIZE + 8 * datas.len() <= at
            &&& at + size + 8 <= f.len()
            &&& f.subrange(at as int, (at + size) as int) == datas[k]
        }),
{
    let f = batch::file_bytes(h, datas);
    let es = batch::places(datas);
    lemma_file_header(h, datas);
    lemma_index_at(es, k);
    lemma_joined_part(datas, k);
    let (b, x, j) = (h.bytes(), batch::index_bytes(es), batch::joined(datas));
    let t = le::le32(crate::common::crc::crc32_spec(b + x + j)) + domain::footer_magic();
    assert(f =~= b + x + j + t);
    let v = batch::joined(datas.take(k)).len() as int;
    let n = datas[k].len() as int;
    lemma_windows(b, x, j, t, 8 * k, v, n);
    let entry = es[k];
    let (o, z) = (le::le32(entry.offset), le::le32(entry.size));
    assert((o + z).subrange(0, 4) =~= o);
    assert((o + z).subrange(4, 8) =~= z);
    let e = HEADER_SIZE + 8 * k;
    assert(entry.offset == HEADER_SIZE + x.len() + v);
    le::lemma_le32(f, e, entry.offset);
    le::lemma_le32(f, e + 4, entry.size);
}

} // verus!

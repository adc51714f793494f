//! Planes worked on tile by tile, and images taken apart into planes.

use vstd::prelude::*;
use vstd::arithmetic::div_mod::*;
use crate::common::blocks;
use crate::common::blocks::{get_tile, join_tiles, Grid};
use crate::common::transform;
use crate::common::transform::{block_forward, block_inverse};

verus! {

/// A plane with `f` applied to each of its tiles; `f` is told whether the tile is whole.
pub open spec fn mapped(
    px: Seq<i32>,
    g: blocks::Tiling,
    f: spec_fn(Seq<i32>, bool) -> Seq<i32>,
) -> Seq<i32> {
    blocks::untile(
        Seq::new(g.count() as nat, |t: int| f(blocks::tile(px, g, t), g.whole(t))),
        g,
    )
}

/// `f` keeps the number of samples of each tile.
pub open spec fn keeps_len(g: blocks::Tiling, f: spec_fn(Seq<i32>, bool) -> Seq<i32>) -> bool {
    forall|b: Seq<i32>, whole: bool|
        (whole ==> b.len() == g.bw * g.bh) ==> (#[trigger] f(b, whole)).len() == b.len()
}

proof fn lemma_whole_area(g: blocks::Tiling, t: int)
    requires
        g.whole(t),
    ensures
        g.area(t) == g.bw * g.bh,
{
    assert(g.bh * g.bw == g.bw * g.bh) by (nonlinear_arith);
}

proof fn lemma_mapped_fit(px: Seq<i32>, g: blocks::Tiling, f: spec_fn(Seq<i32>, bool) -> Seq<i32>)
    requires
        g.ok(),
        keeps_len(g, f),
    ensures
        blocks::tiles_fit(
            Seq::new(g.count() as nat, |t: int| f(blocks::tile(px, g, t), g.whole(t))),
            g,
        ),
{
    blocks::lemma_count(g);
    let ts = Seq::new(g.count() as nat, |t: int| f(blocks::tile(px, g, t), g.whole(t)));
    assert forall|t: int| 0 <= t < ts.len() implies (#[trigger] ts[t]).len() == g.area(t) by {
        blocks::lemma_tile_dims(g, t);
        if g.whole(t) {
            lemma_whole_area(g, t);
        }
        assert(f(blocks::tile(px, g, t), g.whole(t)).len() == blocks::tile(px, g, t).len());
    }
}

/// Undoing what was done to each tile gives back the plane.
pub proof fn lemma_mapped_undo(
    px: Seq<i32>,
    g: blocks::Tiling,
    f: spec_fn(Seq<i32>, bool) -> Seq<i32>,
    u: spec_fn(Seq<i32>, bool) -> Seq<i32>,
)
    requires
        g.ok(),
        px.len() == g.w * g.h,
        keeps_len(g, f),
        forall|b: Seq<i32>, whole: bool|
            (whole ==> b.len() == g.bw * g.bh) ==> #[trigger] u(f(b, whole), whole) == b,
    ensures
        mapped(mapped(px, g, f), g, u) == px,
        mapped(px, g, f).len() == g.w * g.h,
{
    blocks::lemma_count(g);
    let ts = Seq::new(g.count() as nat, |t: int| f(blocks::tile(px, g, t), g.whole(t)));
    lemma_mapped_fit(px, g, f);
    let m = mapped(px, g, f);
    blocks::lemma_tiles_untile(ts, g);
    let us = Seq::new(g.count() as nat, |t: int| u(blocks::tile(m, g, t), g.whole(t)));
    assert forall|t: int| 0 <= t < us.len() implies us[t] == blocks::tiles(px, g)[t] by {
        assert(blocks::tiles(m, g)[t] == ts[t]);
        blocks::lemma_tile_dims(g, t);
        if g.whole(t) {
            lemma_whole_area(g, t);
        }
        assert(u(f(blocks::tile(px, g, t), g.whole(t)), g.whole(t)) == blocks::tile(px, g, t));
    }
    assert(us =~= blocks::tiles(px, g));
    blocks::lemma_untile_tiles(px, g);
}

/// Applies `f` to each tile of a plane.
pub fn map_plane<F: Fn(&Vec<i32>, bool) -> Vec<i32>>(
    px: &[i32],
    g: Grid,
    f: F,
    Ghost(m): Ghost<spec_fn(Seq<i32>, bool) -> Seq<i32>>,
) -> (out: Vec<i32>)
    requires
        g.ok(),
        px@.len() == g.w * g.h,
        keeps_len(g@, m),
        forall|b: &Vec<i32>, whole: bool|
            (whole ==> b@.len() == g.bw * g.bh) ==> call_requires(f, (b, whole)),
        forall|b: &Vec<i32>, whole: bool, r: Vec<i32>|
            call_ensures(f, (b, whole), r) ==> r@ == m(b@, whole),
    ensures
        out@ == mapped(px@, g@, m),
        out@.len() == px@.len(),
{
    let ghost all = Seq::new(g@.count() as nat, |t: int| m(blocks::tile(px@, g@, t), g@.whole(t)));
    proof {
        blocks::lemma_count(g@);
        lemma_mapped_fit(px@, g@, m);
    }
    let n: usize = g.count();
    let mut ts: Vec<Vec<i32>> = Vec::new();
    let mut t: usize = 0;
    assert(blocks::views(ts@) =~= all.take(0));
    while t < n
        invariant
            g.ok(),
            px@.len() == g.w * g.h,
            n == g@.count(),
            all == Seq::new(
                g@.count() as nat,
                |t: int| m(blocks::tile(px@, g@, t), g@.whole(t)),
            ),
            forall|b: &Vec<i32>, whole: bool|
                (whole ==> b@.len() == g.bw * g.bh) ==> call_requires(f, (b, whole)),
            forall|b: &Vec<i32>, whole: bool, r: Vec<i32>|
                call_ensures(f, (b, whole), r) ==> r@ == m(b@, whole),
            t <= n,
            blocks::views(ts@) == all.take(t as int),
        decreases n - t,
    {
        let b: Vec<i32> = get_tile(px, g, t);
        let (x0, y0, tw, th) = g.rect(t);
        let whole: bool = tw == g.bw && th == g.bh;
        proof {
            blocks::lemma_tile_dims(g@, t as int);
            if whole {
                lemma_whole_area(g@, t as int);
            }
        }
        let r: Vec<i32> = f(&b, whole);
        let ghost before = blocks::views(ts@);
        ts.push(r);
        t = t + 1;
        assert(blocks::views(ts@) =~= before.push(r@));
        assert(blocks::views(ts@) =~= all.take(t as int));
    }
    assert(blocks::views(ts@) =~= all);
    join_tiles(&ts, g)
}

/// A whole tile has the samples of a block.
pub open spec fn tile_ready(b: Seq<i32>, whole: bool, bw: int, bh: int) -> bool {
    whole ==> b.len() == bw * bh && bw >= 1 && bh >= 1
}

/// Transforms whole tiles.
pub open spec fn forward_of(b: Seq<i32>, whole: bool, bw: int, bh: int) -> Seq<i32> {
    if whole {
        transform::forward2(b, bw, bh)
    } else {
        b
    }
}

spec fn is_forward(r: Seq<i32>, b: Seq<i32>, whole: bool, bw: usize, bh: usize) -> bool {
    r == forward_of(b, whole, bw as int, bh as int)
}

pub open spec fn forward_tile(bw: int, bh: int) -> spec_fn(Seq<i32>, bool) -> Seq<i32> {
    |b: Seq<i32>, whole: bool| forward_of(b, whole, bw, bh)
}

/// Undoes the transform of whole tiles.
pub open spec fn inverse_of(b: Seq<i32>, whole: bool, bw: int, bh: int) -> Seq<i32> {
    if whole {
        transform::inverse2(b, bw, bh)
    } else {
        b
    }
}

spec fn is_inverse(r: Seq<i32>, b: Seq<i32>, whole: bool, bw: usize, bh: usize) -> bool {
    r == inverse_of(b, whole, bw as int, bh as int)
}

pub open spec fn inverse_tile(bw: int, bh: int) -> spec_fn(Seq<i32>, bool) -> Seq<i32> {
    |b: Seq<i32>, whole: bool| inverse_of(b, whole, bw, bh)
}

pub open spec fn tiling(w: int, h: int, bw: int, bh: int) -> blocks::Tiling {
    blocks::Tiling { w, h, bw, bh }
}

/// Whether a block shape is one that the transform knows.
pub open spec fn valid_rect(bw: int, bh: int) -> bool {
    (bw == 4 || bw == 8) && (bh == 4 || bh == 8)
}

/// The transform of a plane.
pub open spec fn plane_forward(px: Seq<i32>, w: int, h: int, bw: int, bh: int) -> Seq<i32> {
    mapped(px, tiling(w, h, bw, bh), forward_tile(bw, bh))
}

/// The inverse of [`plane_forward`].
pub open spec fn plane_inverse(px: Seq<i32>, w: int, h: int, bw: int, bh: int) -> Seq<i32> {
    mapped(px, tiling(w, h, bw, bh), inverse_tile(bw, bh))
}

/// The transform of a plane loses nothing, whatever its dimensions.
pub proof fn law_plane_roundtrip(px: Seq<i32>, w: int, h: int, bw: int, bh: int)
    requires
        w >= 0,
        h >= 0,
        valid_rect(bw, bh),
        px.len() == w * h,
    ensures
        plane_inverse(plane_forward(px, w, h, bw, bh), w, h, bw, bh) == px,
        plane_forward(px, w, h, bw, bh).len() == w * h,
{
    let g = tiling(w, h, bw, bh);
    let f = forward_tile(bw, bh);
    let u = inverse_tile(bw, bh);
    assert forall|b: Seq<i32>, whole: bool| (whole ==> b.len() == g.bw * g.bh) implies (
    #[trigger] f(b, whole)).len() == b.len() by {
        if whole {
            transform::law_transform_roundtrip(b, bw, bh);
        }
    }
    assert forall|b: Seq<i32>, whole: bool| (whole ==> b.len() == g.bw * g.bh) implies
        #[trigger] u(f(b, whole), whole) == b by {
        if whole {
            transform::law_transform_roundtrip(b, bw, bh);
        }
    }
    lemma_mapped_undo(px, g, f, u);
}

/// Transforms a plane, whole blocks of the given shape only.
pub fn dct_plane_forward_bs(
    px: &[i32],
    width: usize,
    height: usize,
    bw: usize,
    bh: usize,
) -> (out: Vec<i32>)
    requires
        px@.len() == width * height,
        valid_rect(bw as int, bh as int),
    ensures
        out@ == plane_forward(px@, width as int, height as int, bw as int, bh as int),
        out@.len() == px@.len(),
{
    let n: usize = px.len();
    let g = Grid { w: width, h: height, bw, bh };
    let ghost m = forward_tile(bw as int, bh as int);
    assert forall|b: Seq<i32>, whole: bool| (whole ==> b.len() == g@.bw * g@.bh) implies (
    #[trigger] m(b, whole)).len() == b.len() by {
        if whole {
            transform::law_transform_roundtrip(b, bw as int, bh as int);
        }
    }
    let f = |b: &Vec<i32>, whole: bool| -> (r: Vec<i32>)
        requires
            tile_ready(b@, whole, bw as int, bh as int),
        ensures
            is_forward(r@, b@, whole, bw, bh),
        {
            if whole {
                block_forward(b, bw, bh)
            } else {
                let r: Vec<i32> = b.clone();
                assert(r@ =~= b@);
                r
            }
        };
    map_plane(px, g, f, Ghost(m))
}

/// Undoes [`dct_plane_forward_bs`].
pub fn dct_plane_inverse_bs(
    px: &[i32],
    width: usize,
    height: usize,
    bw: usize,
    bh: usize,
) -> (out: Vec<i32>)
    requires
        px@.len() == width * height,
        valid_rect(bw as int, bh as int),
    ensures
        out@ == plane_inverse(px@, width as int, height as int, bw as int, bh as int),
        out@.len() == px@.len(),
{
    let n: usize = px.len();
    let g = Grid { w: width, h: height, bw, bh };
    let ghost m = inverse_tile(bw as int, bh as int);
    assert forall|b: Seq<i32>, whole: bool| (whole ==> b.len() == g@.bw * g@.bh) implies (
    #[trigger] m(b, whole)).len() == b.len() by {
        if whole {
            transform::lemma_inverse_len(b, bw as int, bh as int);
        }
    }
    let f = |b: &Vec<i32>, whole: bool| -> (r: Vec<i32>)
        requires
            tile_ready(b@, whole, bw as int, bh as int),
        ensures
            is_inverse(r@, b@, whole, bw, bh),
        {
            if whole {
                block_inverse(b, bw, bh)
            } else {
                let r: Vec<i32> = b.clone();
                assert(r@ =~= b@);
                r
            }
        };
    map_plane(px, g, f, Ghost(m))
}

/// Component `k` of an image with `c` samples per pixel.
pub open spec fn component(px: Seq<i32>, c: int, k: int) -> Seq<i32> {
    Seq::new((px.len() as int / c) as nat, |i: int| px[i * c + k])
}

/// The image whose components are `planes`, with `n` pixels.
pub open spec fn interleaved(planes: Seq<Seq<i32>>, n: nat) -> Seq<i32> {
    Seq::new(
        n * planes.len(),
        |i: int| planes[i % planes.len() as int][i / planes.len() as int],
    )
}

/// All components of an image.
pub open spec fn components(px: Seq<i32>, c: int) -> Seq<Seq<i32>> {
    Seq::new(c as nat, |k: int| component(px, c, k))
}

/// Taking an image apart and putting it together gives back the image.
pub proof fn lemma_interleave(px: Seq<i32>, c: int, n: nat)
    requires
        c >= 1,
        px.len() == n * c,
    ensures
        interleaved(components(px, c), n) == px,
        px.len() as int / c == n,
{
    lemma_fundamental_div_mod_converse(px.len() as int, c, n as int, 0);
    let out = interleaved(components(px, c), n);
    assert(components(px, c).len() == c);
    assert forall|i: int| 0 <= i < px.len() implies out[i] == px[i] by {
        lemma_fundamental_div_mod(i, c);
        lemma_div_pos_is_pos(i, c);
        let q = i / c;
        assert(q < n) by (nonlinear_arith)
            requires
                i == c * q + i % c,
                0 <= i % c,
                i < n * c,
                c >= 1,
        ;
        assert(q * c == c * q) by (nonlinear_arith);
    }
    assert(out =~= px);
}

/// Putting planes together and taking the image apart gives back the planes.
pub proof fn lemma_deinterleave(planes: Seq<Seq<i32>>, n: nat)
    requires
        planes.len() >= 1,
        forall|k: int| 0 <= k < planes.len() ==> (#[trigger] planes[k]).len() == n,
    ensures
        components(interleaved(planes, n), planes.len() as int) == planes,
        interleaved(planes, n).len() == n * planes.len(),
{
    let c = planes.len() as int;
    let px = interleaved(planes, n);
    assert(px.len() == n * c);
    lemma_fundamental_div_mod_converse(px.len() as int, c, n as int, 0);
    assert forall|k: int| 0 <= k < c implies component(px, c, k) == planes[k] by {
        assert(planes[k].len() == n);
        assert forall|i: int| 0 <= i < n implies component(px, c, k)[i] == planes[k][i] by {
            let j = i * c + k;
            assert(0 <= j < n * c) by (nonlinear_arith)
                requires
                    j == i * c + k,
                    0 <= i < n,
                    0 <= k < c,
            ;
            lemma_fundamental_div_mod_converse(j, c, i, k);
        }
        assert(component(px, c, k) =~= planes[k]);
    }
    assert(components(px, c) =~= planes);
}

/// Takes component `k` out of an image.
pub fn take_component(px: &[i32], c: usize, k: usize) -> (out: Vec<i32>)
    requires
        k < c,
    ensures
        out@ == component(px@, c as int, k as int),
{
    let n: usize = px.len() / c;
    let ghost all = component(px@, c as int, k as int);
    let mut out: Vec<i32> = Vec::new();
    let mut i: usize = 0;
    proof {
        lemma_fundamental_div_mod(px@.len() as int, c as int);
    }
    while i < n
        invariant
            k < c,
            n == px@.len() as int / c as int,
            c * n <= px@.len() <= usize::MAX,
            all == component(px@, c as int, k as int),
            all.len() == n,
            i <= n,
            out@ == all.take(i as int),
        decreases n - i,
    {
        proof {
            assert(0 <= i * c && i * c + k < c * n) by (nonlinear_arith)
                requires
                    0 <= i < n,
                    0 <= k < c,
            ;
        }
        out.push(px[i * c + k]);
        i = i + 1;
        assert(out@ =~= all.take(i as int));
    }
    assert(out@ =~= all);
    out
}

/// Takes an image apart.
pub fn split_components(px: &[i32], c: usize) -> (planes: Vec<Vec<i32>>)
    requires
        c >= 1,
    ensures
        blocks::views(planes@) == components(px@, c as int),
{
    let mut planes: Vec<Vec<i32>> = Vec::new();
    let mut k: usize = 0;
    let ghost all = components(px@, c as int);
    assert(blocks::views(planes@) =~= all.take(0));
    while k < c
        invariant
            k <= c,
            all == components(px@, c as int),
            blocks::views(planes@) == all.take(k as int),
        decreases c - k,
    {
        let p: Vec<i32> = take_component(px, c, k);
        let ghost before = blocks::views(planes@);
        planes.push(p);
        k = k + 1;
        assert(blocks::views(planes@) =~= before.push(p@));
        assert(blocks::views(planes@) =~= all.take(k as int));
    }
    assert(blocks::views(planes@) =~= all);
    planes
}

/// Puts planes of `n` samples together.
pub fn interleave(planes: &Vec<Vec<i32>>, n: usize) -> (px: Vec<i32>)
    requires
        planes@.len() >= 1,
        n * planes@.len() <= usize::MAX,
        forall|k: int| 0 <= k < planes@.len() ==> (#[trigger] planes@[k])@.len() == n,
    ensures
        px@ == interleaved(blocks::views(planes@), n as nat),
{
    let c: usize = planes.len();
    let ghost all = interleaved(blocks::views(planes@), n as nat);
    let total: usize = n * c;
    let mut px: Vec<i32> = Vec::new();
    let mut i: usize = 0;
    while i < total
        invariant
            c == planes@.len(),
            c >= 1,
            total == n * c,
            forall|k: int| 0 <= k < planes@.len() ==> (#[trigger] planes@[k])@.len() == n,
            all == interleaved(blocks::views(planes@), n as nat),
            all.len() == total,
            i <= total,
            px@ == all.take(i as int),
        decreases total - i,
    {
        proof {
            lemma_fundamental_div_mod(i as int, c as int);
            lemma_div_pos_is_pos(i as int, c as int);
            let q = i as int / c as int;
            assert(q < n) by (nonlinear_arith)
                requires
                    i == c * q + i as int % c as int,
                    0 <= i as int % c as int,
                    i < n * c,
                    c >= 1,
            ;
            assert(planes@[i as int % c as int]@.len() == n);
        }
        let p: &Vec<i32> = &planes[i % c];
        px.push(p[i / c]);
        i = i + 1;
        assert(px@ =~= all.take(i as int));
    }
    assert(px@ =~= all);
    px
}

} // verus!

//! Blocks of an image that repeat what stands further up or to the left.

use vstd::prelude::*;
use vstd::arithmetic::div_mod::*;
use crate::common::blocks;
use crate::common::blocks::{Grid, Tiling};
use crate::common::domain::PredictionMode;
use crate::common::predict;

verus! {

/// Side of a block in pixels.
pub const BS: usize = 8;

/// The blocks of an image `w` pixels wide and `h` high with `c` samples per pixel, as tiles of its
/// samples.
pub open spec fn grid(w: int, h: int, c: int) -> Tiling {
    Tiling { w: w * c, h, bw: 8 * c, bh: 8 }
}

/// Sizes of an image that can be cut into blocks.
pub open spec fn size_ok(w: int, h: int, c: int) -> bool {
    &&& predict::geometry_ok(w, c)
    &&& 0 <= h <= 0xffff
    &&& h * (w * c) < u32::MAX
}

/// Column of the first pixel of block `t`.
pub open spec fn column(w: int, h: int, c: int, t: int) -> int {
    (t % grid(w, h, c).across()) * 8
}

/// Row of the first pixel of block `t`.
pub open spec fn row(w: int, h: int, c: int, t: int) -> int {
    grid(w, h, c).y0(t)
}

/// Whether block `t` may repeat the block at `sx`, `sy`: that one lies in the image, and wholly in
/// what comes before block `t`.
pub open spec fn may_copy(w: int, h: int, c: int, t: int, sx: int, sy: int) -> bool {
    let bx = column(w, h, c, t);
    let by = row(w, h, c, t);
    &&& 0 <= sx
    &&& 0 <= sy
    &&& sx + 8 <= w
    &&& sy + 8 <= h
    &&& sy + 8 <= by || (sx + 8 <= bx && sy <= by)
}

/// How far behind a sample of block `t` the sample that it repeats stands.
pub open spec fn shift(w: int, h: int, c: int, t: int, sx: int, sy: int) -> int {
    (sy - row(w, h, c, t)) * (w * c) + (sx - column(w, h, c, t)) * c
}

pub proof fn lemma_grid(w: int, h: int, c: int)
    requires
        size_ok(w, h, c),
    ensures
        grid(w, h, c).ok(),
        1 <= w * c <= 0xffff * 4,
        (w * c) * h == h * (w * c),
        0 <= h * (w * c),
        0 <= grid(w, h, c).count() <= h * (w * c),
        grid(w, h, c).count() <= 0x400_0000,
{
    assert(1 <= w * c <= 0xffff * 4) by (nonlinear_arith)
        requires
            1 <= w <= 0xffff,
            1 <= c <= 4,
    ;
    assert((w * c) * h == h * (w * c)) by (nonlinear_arith);
    blocks::lemma_count(grid(w, h, c));
    let g = grid(w, h, c);
    assert(0x2000 * (8 * c) >= w * c) by (nonlinear_arith)
        requires
            w <= 0xffff,
            c >= 1,
    ;
    blocks::lemma_tiles_along(w * c, 8 * c, 0x2000);
    blocks::lemma_tiles_along(h, 8, 0x2000);
    assert(g.down() * g.across() <= 0x400_0000) by (nonlinear_arith)
        requires
            0 <= g.down() <= 0x2000,
            0 <= g.across() <= 0x2000,
    ;
}

/// Where a block stands in pixels and in samples.
pub proof fn lemma_column(w: int, h: int, c: int, t: int)
    requires
        size_ok(w, h, c),
        0 <= t < grid(w, h, c).count(),
    ensures
        grid(w, h, c).x0(t) == column(w, h, c, t) * c,
        0 <= column(w, h, c, t) < w,
        0 <= row(w, h, c, t) < h,
        grid(w, h, c).tw(t) == blocks::clip(w, column(w, h, c, t), 8) * c,
        1 <= blocks::clip(w, column(w, h, c, t), 8) <= 8,
{
    let g = grid(w, h, c);
    lemma_grid(w, h, c);
    blocks::lemma_tile_dims(g, t);
    let q = t % g.across();
    assert(q * (8 * c) == (q * 8) * c) by (nonlinear_arith);
    let bx = q * 8;
    assert(bx < w) by (nonlinear_arith)
        requires
            bx * c < w * c,
            c >= 1,
    ;
    assert(w * c - bx * c == (w - bx) * c) by (nonlinear_arith);
    if w - bx < 8 {
        assert((w - bx) * c < 8 * c) by (nonlinear_arith)
            requires
                w - bx < 8,
                c >= 1,
        ;
    } else {
        assert((w - bx) * c >= 8 * c) by (nonlinear_arith)
            requires
                w - bx >= 8,
                c >= 1,
        ;
    }
}

/// What a sample of a block repeats lies in an earlier block.
pub proof fn lemma_source(w: int, h: int, c: int, t: int, j: int, sx: int, sy: int)
    requires
        size_ok(w, h, c),
        0 <= t < grid(w, h, c).count(),
        0 <= j < grid(w, h, c).area(t),
        may_copy(w, h, c, t, sx, sy),
    ensures
        ({
            let g = grid(w, h, c);
            let q = g.pos(t, j) + shift(w, h, c, t, sx, sy);
            &&& 0 <= q < h * (w * c)
            &&& g.tile_of(q) < t
            &&& q == (sy + j / g.tw(t)) * (w * c) + sx * c + j % g.tw(t)
        }),
{
    let g = grid(w, h, c);
    let ww = w * c;
    lemma_grid(w, h, c);
    lemma_column(w, h, c, t);
    blocks::lemma_tile_dims(g, t);
    blocks::lemma_pos(g, t, j);
    let n = g.across();
    let (ty, tx) = (t / n, t % n);
    lemma_fundamental_div_mod(t, n);
    let tw = g.tw(t);
    let (jr, jc) = (j / tw, j % tw);
    let (bx, by) = (column(w, h, c, t), row(w, h, c, t));
    let y = sy + jr;
    let x = sx * c + jc;
    let q = g.pos(t, j) + shift(w, h, c, t, sx, sy);
    assert(q == y * ww + x) by (nonlinear_arith)
        requires
            q == (by + jr) * ww + bx * c + jc + ((sy - by) * ww + (sx - bx) * c),
            y == sy + jr,
            x == sx * c + jc,
    ;
    assert(0 <= x < ww) by (nonlinear_arith)
        requires
            x == sx * c + jc,
            0 <= jc < 8 * c,
            0 <= sx,
            sx + 8 <= w,
            ww == w * c,
            c >= 1,
    ;
    assert(0 <= y < h);
    assert(0 <= q < h * ww) by (nonlinear_arith)
        requires
            q == y * ww + x,
            0 <= y < h,
            0 <= x < ww,
    ;
    lemma_fundamental_div_mod_converse(q, ww, y, x);
    let (qy, qx) = (y / 8, x / (8 * c));
    lemma_fundamental_div_mod(x, 8 * c);
    lemma_div_pos_is_pos(x, 8 * c);
    assert(qx * (8 * c) == (8 * c) * qx) by (nonlinear_arith);
    blocks::lemma_tiles_along(ww, 8 * c, qx);
    assert(t == ty * n + tx) by (nonlinear_arith)
        requires
            t == n * ty + tx,
    ;
    if sy + 8 <= by {
        assert(qy < ty);
        assert(qy * n + qx < ty * n + tx) by (nonlinear_arith)
            requires
                qy + 1 <= ty,
                0 <= qx < n,
                0 <= tx,
        ;
    } else {
        assert(qy <= ty);
        assert(x < tx * (8 * c)) by (nonlinear_arith)
            requires
                x == sx * c + jc,
                jc < 8 * c,
                sx + 8 <= bx,
                bx == tx * 8,
                c >= 1,
        ;
        assert(qx < tx) by (nonlinear_arith)
            requires
                x < tx * (8 * c),
                qx * (8 * c) <= x,
                c >= 1,
        ;
        assert(qy * n + qx < ty * n + tx) by (nonlinear_arith)
            requires
                qy <= ty,
                qx < tx,
                n >= 0,
        ;
    }
}

/// Whether sample `i` lies in a block before block `t`, or in block `t` before its sample `j`.
pub open spec fn before(g: Tiling, i: int, t: int, j: int) -> bool {
    g.tile_of(i) < t || (g.tile_of(i) == t && g.within(i) < j)
}

/// Modes that look only to the left and up, so that blocks can be predicted one by one.
pub open spec fn blockwise(mode: PredictionMode) -> bool {
    mode != PredictionMode::DC && mode != PredictionMode::TopRight
}

/// The column of a sample, in pixels.
pub proof fn lemma_pixel_column(w: int, h: int, c: int, i: int)
    requires
        size_ok(w, h, c),
        0 <= i < h * (w * c),
    ensures
        (i / c) % w == (i % (w * c)) / c,
        0 <= (i / c) % w < w,
{
    let ww = w * c;
    lemma_grid(w, h, c);
    let (y, x) = (i / ww, i % ww);
    lemma_fundamental_div_mod(i, ww);
    lemma_fundamental_div_mod(x, c);
    lemma_div_pos_is_pos(x, c);
    let (p, k) = (x / c, x % c);
    assert(i == (y * w + p) * c + k) by (nonlinear_arith)
        requires
            i == (w * c) * y + x,
            x == c * p + k,
    ;
    lemma_fundamental_div_mod_converse(i, c, y * w + p, k);
    assert(p < w) by (nonlinear_arith)
        requires
            c * p + k < w * c,
            k >= 0,
            c >= 1,
    ;
    lemma_fundamental_div_mod_converse(y * w + p, w, y, p);
}

/// Where two images agree before a sample of a block, the predictions of that sample agree.
pub proof fn lemma_predict_blockwise(
    a: Seq<i32>,
    b: Seq<i32>,
    w: int,
    h: int,
    c: int,
    mode: PredictionMode,
    t: int,
    j: int,
)
    requires
        size_ok(w, h, c),
        a.len() == h * (w * c),
        b.len() == h * (w * c),
        blockwise(mode),
        0 <= t < grid(w, h, c).count(),
        0 <= j < grid(w, h, c).area(t),
        forall|i: int|
            0 <= i < a.len() && #[trigger] before(grid(w, h, c), i, t, j) ==> a[i] == b[i],
    ensures
        predict::predict_spec(a, grid(w, h, c).pos(t, j), w, c, mode) == predict::predict_spec(
            b,
            grid(w, h, c).pos(t, j),
            w,
            c,
            mode,
        ),
{
    let g = grid(w, h, c);
    let ww = w * c;
    lemma_grid(w, h, c);
    blocks::lemma_pos(g, t, j);
    let p = g.pos(t, j);
    lemma_pixel_column(w, h, c, p);
    predict::lemma_neighbour_indices(p, w, c);
    lemma_fundamental_div_mod(p, ww);
    let (y, x) = (p / ww, p % ww);
    let px = (p / c) % w;
    if px > 0 {
        lemma_fundamental_div_mod(x, c);
        assert(x >= c) by (nonlinear_arith)
            requires
                x == c * px + x % c,
                x % c >= 0,
                px >= 1,
                c >= 1,
        ;
        assert(p - c == y * ww + (x - c)) by (nonlinear_arith)
            requires
                p == ww * y + x,
        ;
        lemma_fundamental_div_mod_converse(p - c, ww, y, x - c);
        blocks::lemma_earlier(g, p - c, p);
        assert(before(g, p - c, t, j));
    }
    if p >= ww {
        assert(p - ww == (y - 1) * ww + x) by (nonlinear_arith)
            requires
                p == ww * y + x,
        ;
        lemma_fundamental_div_mod_converse(p - ww, ww, y - 1, x);
        blocks::lemma_earlier(g, p - ww, p);
        assert(before(g, p - ww, t, j));
        if px > 0 {
            assert(p - ww - c == (y - 1) * ww + (x - c)) by (nonlinear_arith)
                requires
                    p == ww * y + x,
            ;
            lemma_fundamental_div_mod_converse(p - ww - c, ww, y - 1, x - c);
            blocks::lemma_earlier(g, p - ww - c, p);
            assert(before(g, p - ww - c, t, j));
        }
    }
}

/// The blocks of an image.
pub fn block_grid(width: usize, height: usize, components: usize) -> (g: Grid)
    requires
        size_ok(width as int, height as int, components as int),
    ensures
        g@ == grid(width as int, height as int, components as int),
        g.ok(),
        g.w == width * components,
        g.h == height,
{
    proof {
        lemma_grid(width as int, height as int, components as int);
    }
    Grid { w: width * components, h: height, bw: BS * components, bh: BS }
}

} // verus!

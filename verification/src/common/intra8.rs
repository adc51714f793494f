//! Blocks of eight by eight samples predicted from what has been rebuilt before them.

use vstd::prelude::*;
use vstd::arithmetic::div_mod::*;
use crate::common::blocks;
use crate::common::blocks::Grid;
use crate::common::predict;
use crate::common::quant;
use crate::common::quant::dequant_exec;
use crate::common::transform;
use crate::common::transform::block_inverse;
use crate::common::zigzag;
use crate::common::zigzag::zigzag_inverse;

verus! {

/// Side of a block.
pub const BLK: usize = 8;

/// Samples in a block.
pub const BLK_AREA: usize = 64;

/// The mean of the neighbours; the residuals are not transformed.
pub const MODE_DC: i32 = 0;

/// The sample to the left of the row.
pub const MODE_H: i32 = 1;

/// The sample above the column.
pub const MODE_V: i32 = 2;

pub open spec fn grid8(w: int, h: int) -> blocks::Tiling {
    blocks::Tiling { w, h, bw: BLK as int, bh: BLK as int }
}

/// The sample at column `x`, row `y`; zero outside the plane.
pub open spec fn sample(r: Seq<i32>, w: int, h: int, x: int, y: int) -> i32 {
    if x < 0 || y < 0 || x >= w || y >= h {
        0
    } else {
        r[y * w + x]
    }
}

/// Sum of the first `n` samples to the left of the block.
pub open spec fn sum_left(r: Seq<i32>, w: int, h: int, x0: int, y0: int, n: nat) -> int
    decreases n,
{
    if n == 0 {
        0
    } else {
        sum_left(r, w, h, x0, y0, (n - 1) as nat) + sample(r, w, h, x0 - 1, y0 + n - 1)
    }
}

/// Sum of the first `n` samples above the block.
pub open spec fn sum_top(r: Seq<i32>, w: int, h: int, x0: int, y0: int, n: nat) -> int
    decreases n,
{
    if n == 0 {
        0
    } else {
        sum_top(r, w, h, x0, y0, (n - 1) as nat) + sample(r, w, h, x0 + n - 1, y0 - 1)
    }
}

/// The mean of the samples to the left and above, rounded toward zero.
pub open spec fn mean(r: Seq<i32>, w: int, h: int, x0: int, y0: int) -> int {
    let l = sum_left(r, w, h, x0, y0, BLK as nat);
    let t = sum_top(r, w, h, x0, y0, BLK as nat);
    if x0 > 0 && y0 > 0 {
        quant::tdiv(l + t, 2 * BLK)
    } else if x0 > 0 {
        quant::tdiv(l, BLK as int)
    } else if y0 > 0 {
        quant::tdiv(t, BLK as int)
    } else {
        0
    }
}

/// `v`, kept between the least and the greatest of three numbers.
pub open spec fn between(v: int, a: int, b: int, c: int) -> int {
    let lo = predict::min2(predict::min2(a, b), c);
    let hi = predict::max2(predict::max2(a, b), c);
    if v < lo {
        lo
    } else if v > hi {
        hi
    } else {
        v
    }
}

/// The prediction of row `br`, column `bc` of the block at column `x0`, row `y0`.
pub open spec fn guess(
    r: Seq<i32>,
    w: int,
    h: int,
    x0: int,
    y0: int,
    mode: i32,
    br: int,
    bc: int,
) -> i32 {
    let a = sample(r, w, h, x0 - 1, y0 + br);
    let b = sample(r, w, h, x0 + bc, y0 - 1);
    let c = sample(r, w, h, x0 - 1, y0 - 1);
    if mode == MODE_H {
        a
    } else if mode == MODE_V {
        b
    } else if mode == MODE_DC {
        mean(r, w, h, x0, y0) as i32
    } else if x0 == 0 && y0 == 0 {
        0
    } else if x0 == 0 {
        b
    } else if y0 == 0 {
        a
    } else {
        between(a + b - c, a as int, b as int, c as int) as i32
    }
}

/// The prediction of a block.
pub open spec fn guesses(r: Seq<i32>, w: int, h: int, x0: int, y0: int, mode: i32) -> Seq<i32> {
    Seq::new(BLK_AREA as nat, |j: int| guess(r, w, h, x0, y0, mode, j / 8, j % 8))
}

/// The residuals that the coded levels `z` stand for.
pub open spec fn residual_block(z: Seq<i32>, q: int, mode: i32) -> Seq<i32> {
    let l = zigzag::unscan(z, 8);
    let d = Seq::new(BLK_AREA as nat, |j: int| quant::dequant(l[j], q));
    if mode == MODE_DC {
        d
    } else {
        transform::inverse2(d, 8, 8)
    }
}

/// The samples of a block: residuals and prediction.
pub open spec fn block_samples(
    r: Seq<i32>,
    w: int,
    h: int,
    x0: int,
    y0: int,
    mode: i32,
    z: Seq<i32>,
    q: int,
) -> Seq<i32> {
    Seq::new(
        BLK_AREA as nat,
        |j: int|
            residual_block(z, q, mode)[j].wrapping_add(guesses(r, w, h, x0, y0, mode)[j]),
    )
}

/// The plane `r` with block `t` replaced.
pub open spec fn put_block(r: Seq<i32>, g: blocks::Tiling, t: int, b: Seq<i32>) -> Seq<i32> {
    Seq::new(
        r.len(),
        |i: int|
            if g.tile_of(i) == t {
                b[(g.within(i) / g.tw(t)) * 8 + g.within(i) % g.tw(t)]
            } else {
                r[i]
            },
    )
}

pub open spec fn mode_at(modes: Seq<i32>, t: int) -> i32 {
    if t < modes.len() {
        modes[t]
    } else {
        MODE_DC
    }
}

/// The plane that the first `n` blocks rebuild.
pub open spec fn rebuilt(
    modes: Seq<i32>,
    zs: Seq<Seq<i32>>,
    q: int,
    w: int,
    h: int,
    n: nat,
) -> Seq<i32>
    decreases n,
{
    if n == 0 {
        Seq::new((w * h) as nat, |i: int| 0i32)
    } else {
        let t = n - 1;
        let r = rebuilt(modes, zs, q, w, h, t as nat);
        let g = grid8(w, h);
        let b = block_samples(r, w, h, g.x0(t), g.y0(t), mode_at(modes, t), zs[t], q);
        put_block(r, g, t, b)
    }
}

pub proof fn lemma_rebuilt_len(
    modes: Seq<i32>,
    zs: Seq<Seq<i32>>,
    q: int,
    w: int,
    h: int,
    n: nat,
)
    requires
        w >= 0,
        h >= 0,
    ensures
        rebuilt(modes, zs, q, w, h, n).len() == w * h,
    decreases n,
{
    assert(w * h >= 0) by (nonlinear_arith)
        requires
            w >= 0,
            h >= 0,
    ;
    if n > 0 {
        lemma_rebuilt_len(modes, zs, q, w, h, (n - 1) as nat);
    }
}

/// The rebuilt plane depends only on the blocks that have been rebuilt.
pub proof fn lemma_rebuilt_prefix(
    m1: Seq<i32>,
    z1: Seq<Seq<i32>>,
    m2: Seq<i32>,
    z2: Seq<Seq<i32>>,
    q: int,
    w: int,
    h: int,
    n: nat,
)
    requires
        n <= m1.len(),
        n <= m2.len(),
        n <= z1.len(),
        n <= z2.len(),
        forall|t: int| 0 <= t < n ==> #[trigger] m1[t] == m2[t],
        forall|t: int| 0 <= t < n ==> #[trigger] z1[t] == z2[t],
    ensures
        rebuilt(m1, z1, q, w, h, n) == rebuilt(m2, z2, q, w, h, n),
    decreases n,
{
    if n > 0 {
        lemma_rebuilt_prefix(m1, z1, m2, z2, q, w, h, (n - 1) as nat);
        assert(m1[n - 1] == m2[n - 1]);
        assert(z1[n - 1] == z2[n - 1]);
    }
}

/// The sample left of column `x1`, above row `y1`.
fn sample_before(r: &Vec<i32>, w: usize, h: usize, x1: usize, y1: usize) -> (v: i32)
    requires
        r@.len() == w * h,
    ensures
        v == sample(r@, w as int, h as int, x1 - 1, y1 - 1),
{
    if x1 == 0 || y1 == 0 || x1 > w || y1 > h {
        0
    } else {
        let total: usize = r.len();
        proof {
            let y = y1 - 1;
            let x = x1 - 1;
            assert(0 <= y * w && y * w + x < w * h) by (nonlinear_arith)
                requires
                    0 <= y < h,
                    0 <= x < w,
            ;
        }
        r[(y1 - 1) * w + (x1 - 1)]
    }
}

proof fn lemma_sum_bounds(r: Seq<i32>, w: int, h: int, x0: int, y0: int, n: nat)
    ensures
        -0x8000_0000 * n <= sum_left(r, w, h, x0, y0, n) <= 0x7fff_ffff * n,
        -0x8000_0000 * n <= sum_top(r, w, h, x0, y0, n) <= 0x7fff_ffff * n,
    decreases n,
{
    if n > 0 {
        lemma_sum_bounds(r, w, h, x0, y0, (n - 1) as nat);
    }
}

fn tdiv_exec(a: i64, d: i64) -> (r: i64)
    requires
        1 <= d <= 16,
        -0x1_0000_0000_0000 < a < 0x1_0000_0000_0000,
    ensures
        r == quant::tdiv(a as int, d as int),
{
    if a >= 0 {
        a / d
    } else {
        -((-a) / d)
    }
}

fn mean_exec(r: &Vec<i32>, w: usize, h: usize, x0: usize, y0: usize) -> (v: i32)
    requires
        r@.len() == w * h,
        x0 < w <= 0xffff,
        y0 < h <= 0xffff,
    ensures
        v == mean(r@, w as int, h as int, x0 as int, y0 as int) as i32,
{
    let mut l: i64 = 0;
    let mut t: i64 = 0;
    let mut n: usize = 0;
    while n < BLK
        invariant
            r@.len() == w * h,
            x0 < w <= 0xffff,
            y0 < h <= 0xffff,
            n <= BLK,
            l == sum_left(r@, w as int, h as int, x0 as int, y0 as int, n as nat),
            t == sum_top(r@, w as int, h as int, x0 as int, y0 as int, n as nat),
            -0x8000_0000 * n <= l <= 0x7fff_ffff * n,
            -0x8000_0000 * n <= t <= 0x7fff_ffff * n,
        decreases BLK - n,
    {
        l = l + sample_before(r, w, h, x0, y0 + n + 1) as i64;
        t = t + sample_before(r, w, h, x0 + n + 1, y0) as i64;
        n = n + 1;
    }
    let m: i64 = if x0 > 0 && y0 > 0 {
        tdiv_exec(l + t, 16)
    } else if x0 > 0 {
        tdiv_exec(l, 8)
    } else if y0 > 0 {
        tdiv_exec(t, 8)
    } else {
        0
    };
    m as i32
}

/// Predicts the block at column `x0`, row `y0`.
pub fn predict_block(
    r: &Vec<i32>,
    w: usize,
    h: usize,
    x0: usize,
    y0: usize,
    mode: i32,
) -> (out: Vec<i32>)
    requires
        r@.len() == w * h,
        x0 < w <= 0xffff,
        y0 < h <= 0xffff,
    ensures
        out@ == guesses(r@, w as int, h as int, x0 as int, y0 as int, mode),
        out@.len() == BLK_AREA,
{
    let ghost all = guesses(r@, w as int, h as int, x0 as int, y0 as int, mode);
    let dc: i32 = if mode == MODE_DC {
        mean_exec(r, w, h, x0, y0)
    } else {
        0
    };
    let c: i32 = sample_before(r, w, h, x0, y0);
    let mut out: Vec<i32> = Vec::new();
    let mut j: usize = 0;
    while j < BLK_AREA
        invariant
            r@.len() == w * h,
            x0 < w <= 0xffff,
            y0 < h <= 0xffff,
            mode == MODE_DC ==> dc == mean(r@, w as int, h as int, x0 as int, y0 as int) as i32,
            c == sample(r@, w as int, h as int, x0 - 1, y0 - 1),
            all == guesses(r@, w as int, h as int, x0 as int, y0 as int, mode),
            j <= BLK_AREA,
            out@ == all.take(j as int),
        decreases BLK_AREA - j,
    {
        let a: i32 = sample_before(r, w, h, x0, y0 + j / 8 + 1);
        let b: i32 = sample_before(r, w, h, x0 + j % 8 + 1, y0);
        let v: i32 = if mode == MODE_H {
            a
        } else if mode == MODE_V {
            b
        } else if mode == MODE_DC {
            dc
        } else if x0 == 0 && y0 == 0 {
            0
        } else if x0 == 0 {
            b
        } else if y0 == 0 {
            a
        } else {
            let p: i64 = a as i64 + b as i64 - c as i64;
            let lo1: i32 = if a < b {
                a
            } else {
                b
            };
            let lo: i32 = if lo1 < c {
                lo1
            } else {
                c
            };
            let hi1: i32 = if a < b {
                b
            } else {
                a
            };
            let hi: i32 = if hi1 < c {
                c
            } else {
                hi1
            };
            if p < lo as i64 {
                lo
            } else if p > hi as i64 {
                hi
            } else {
                p as i32
            }
        };
        out.push(v);
        j = j + 1;
        assert(out@ =~= all.take(j as int));
    }
    assert(out@ =~= all);
    out
}

/// The samples of a block from its coded levels and its prediction.
pub fn block_samples_exec(z: &[i32], q: u8, mode: i32, guess: &Vec<i32>) -> (out: Vec<i32>)
    requires
        z@.len() == BLK_AREA,
        guess@.len() == BLK_AREA,
    ensures
        out@ == Seq::new(
            BLK_AREA as nat,
            |j: int| residual_block(z@, q as int, mode)[j].wrapping_add(guess@[j]),
        ),
        out@.len() == BLK_AREA,
{
    let l: Vec<i32> = zigzag_inverse(z, 8);
    let ghost ds = Seq::new(BLK_AREA as nat, |j: int| quant::dequant(l@[j], q as int));
    let mut d: Vec<i32> = Vec::new();
    let mut j: usize = 0;
    while j < BLK_AREA
        invariant
            j <= BLK_AREA,
            l@.len() == BLK_AREA,
            ds == Seq::new(BLK_AREA as nat, |j: int| quant::dequant(l@[j], q as int)),
            d@ == ds.take(j as int),
        decreases BLK_AREA - j,
    {
        d.push(dequant_exec(l[j], q));
        j = j + 1;
        assert(d@ =~= ds.take(j as int));
    }
    assert(d@ =~= ds);
    let res: Vec<i32> = if mode == MODE_DC {
        d
    } else {
        block_inverse(&d, 8, 8)
    };
    assert(res@ == residual_block(z@, q as int, mode));
    let ghost all = Seq::new(BLK_AREA as nat, |j: int| res@[j].wrapping_add(guess@[j]));
    let mut out: Vec<i32> = Vec::new();
    let mut i: usize = 0;
    while i < BLK_AREA
        invariant
            i <= BLK_AREA,
            res@.len() == BLK_AREA,
            guess@.len() == BLK_AREA,
            all == Seq::new(BLK_AREA as nat, |j: int| res@[j].wrapping_add(guess@[j])),
            out@ == all.take(i as int),
        decreases BLK_AREA - i,
    {
        out.push(res[i].wrapping_add(guess[i]));
        i = i + 1;
        assert(out@ =~= all.take(i as int));
    }
    assert(out@ =~= all);
    assert(all =~= Seq::new(
        BLK_AREA as nat,
        |j: int| residual_block(z@, q as int, mode)[j].wrapping_add(guess@[j]),
    ));
    out
}

/// Replaces block `t` of a plane.
pub fn put_block_exec(r: &mut Vec<i32>, g: Grid, t: usize, b: &Vec<i32>)
    requires
        g.ok(),
        g.bw == BLK,
        g.bh == BLK,
        old(r)@.len() == g.w * g.h,
        t < g@.count(),
        b@.len() == BLK_AREA,
    ensures
        final(r)@ == put_block(old(r)@, g@, t as int, b@),
        final(r)@.len() == old(r)@.len(),
{
    let ghost r0 = r@;
    let total: usize = r.len();
    let (x0, y0, tw, th) = g.rect(t);
    proof {
        blocks::lemma_tile_dims(g@, t as int);
        assert(th * tw <= 64) by (nonlinear_arith)
            requires
                0 <= th <= 8,
                0 <= tw <= 8,
        ;
    }
    let n: usize = th * tw;
    let mut j: usize = 0;
    while j < n
        invariant
            g.ok(),
            g.bw == BLK,
            g.bh == BLK,
            t < g@.count(),
            b@.len() == BLK_AREA,
            total == g.w * g.h,
            r0.len() == total,
            r@.len() == total,
            x0 == g@.x0(t as int),
            y0 == g@.y0(t as int),
            tw == g@.tw(t as int),
            th == g@.th(t as int),
            1 <= tw <= 8,
            1 <= th <= 8,
            x0 + tw <= g.w,
            y0 + th <= g.h,
            n == th * tw,
            n == g@.area(t as int),
            j <= n,
            forall|i: int|
                0 <= i < total ==> #[trigger] r@[i] == if g@.tile_of(i) == t && g@.within(i) < j {
                    b@[(g@.within(i) / tw as int) * 8 + g@.within(i) % tw as int]
                } else {
                    r0[i]
                },
        decreases n - j,
    {
        proof {
            blocks::lemma_pos(g@, t as int, j as int);
            let y = y0 + j as int / tw as int;
            let x = x0 + j as int % tw as int;
            assert(0 <= y * g.w && y * g.w + x < g.w * g.h) by (nonlinear_arith)
                requires
                    0 <= y < g.h,
                    0 <= x < g.w,
            ;
        }
        let p: usize = (y0 + j / tw) * g.w + (x0 + j % tw);
        assert(p == g@.pos(t as int, j as int));
        let ghost before = r@;
        r.set(p, b[(j / tw) * 8 + j % tw]);
        proof {
            assert forall|i: int| 0 <= i < total implies #[trigger] r@[i] == if g@.tile_of(i) == t
                && g@.within(i) < j + 1 {
                b@[(g@.within(i) / tw as int) * 8 + g@.within(i) % tw as int]
            } else {
                r0[i]
            } by {
                if i != p {
                    assert(r@[i] == before[i]);
                    if g@.tile_of(i) == t && g@.within(i) == j {
                        blocks::lemma_place(g@, i);
                    }
                }
            }
        }
        j = j + 1;
    }
    proof {
        assert forall|i: int| 0 <= i < total implies r@[i] == put_block(r0, g@, t as int, b@)[i] by {
            blocks::lemma_place(g@, i);
        }
        assert(r@ =~= put_block(r0, g@, t as int, b@));
    }
}

/// A block is predicted from the samples to the left and above alone: in every mode the prediction stays
/// between the least and the largest of these; rows are continued from the left, columns from above.
pub proof fn law_guess(
    r: Seq<i32>,
    w: int,
    h: int,
    x0: int,
    y0: int,
    mode: i32,
    br: int,
    bc: int,
    lo: int,
    hi: int,
)
    requires
        0 < x0,
        0 < y0,
        0 <= br < 8,
        0 <= bc < 8,
        x0 + 8 <= w,
        y0 + 8 <= h,
        r.len() == w * h,
        forall|i: int| -1 <= i < 8 ==> lo <= #[trigger] sample(r, w, h, x0 - 1, y0 + i) <= hi,
        forall|i: int| 0 <= i < 8 ==> lo <= #[trigger] sample(r, w, h, x0 + i, y0 - 1) <= hi,
        -0x800_0000 <= lo <= hi <= 0x800_0000,
    ensures
        lo <= guess(r, w, h, x0, y0, mode, br, bc) <= hi,
        mode == MODE_H ==> guess(r, w, h, x0, y0, mode, br, bc) == r[(y0 + br) * w + x0 - 1],
        mode == MODE_V ==> guess(r, w, h, x0, y0, mode, br, bc) == r[(y0 - 1) * w + x0 + bc],
{
    assert(lo <= sample(r, w, h, x0 - 1, y0 + br) <= hi);
    assert(lo <= sample(r, w, h, x0 + bc, y0 - 1) <= hi);
    assert(lo <= sample(r, w, h, x0 - 1, y0 + -1) <= hi);
    lemma_sums_within(r, w, h, x0, y0, 8, lo, hi);
}

proof fn lemma_sums_within(
    r: Seq<i32>,
    w: int,
    h: int,
    x0: int,
    y0: int,
    n: nat,
    lo: int,
    hi: int,
)
    requires
        n <= 8,
        forall|i: int| -1 <= i < 8 ==> lo <= #[trigger] sample(r, w, h, x0 - 1, y0 + i) <= hi,
        forall|i: int| 0 <= i < 8 ==> lo <= #[trigger] sample(r, w, h, x0 + i, y0 - 1) <= hi,
    ensures
        n * lo <= sum_left(r, w, h, x0, y0, n) <= n * hi,
        n * lo <= sum_top(r, w, h, x0, y0, n) <= n * hi,
    decreases n,
{
    if n > 0 {
        let m = n - 1;
        lemma_sums_within(r, w, h, x0, y0, m as nat, lo, hi);
        assert(lo <= sample(r, w, h, x0 - 1, y0 + m) <= hi);
        assert(lo <= sample(r, w, h, x0 + m, y0 - 1) <= hi);
        assert(n * lo == m * lo + lo && n * hi == m * hi + hi) by (nonlinear_arith)
            requires
                n == m + 1,
        ;
    } else {
        assert(n * lo == 0 && n * hi == 0) by (nonlinear_arith)
            requires
                n == 0,
        ;
    }
}

} // verus!

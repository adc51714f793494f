//! Chroma planes brought back to full size, and back to chroma.

use vstd::prelude::*;
use crate::common::bounds;
use crate::common::close;
use crate::encoder::planar as enc;
use crate::encoder::planar::share_exec;

verus! {

/// The two samples that sample `t` of a line of twice as many as `n` lies between, and their
/// weights in quarters.
pub open spec fn up2(t: int, n: int) -> (int, int, int, int) {
    if t == 0 {
        (
            0,
            if n > 1 {
                1
            } else {
                0
            },
            5,
            -1,
        )
    } else if t % 2 == 1 {
        let k = (t - 1) / 2;
        (
            k,
            if k + 1 < n {
                k + 1
            } else {
                n - 1
            },
            3,
            1,
        )
    } else {
        (t / 2 - 1, t / 2, 1, 3)
    }
}

/// A sixteenth, rounded to the nearest number, halves away from zero.
pub open spec fn round16(n: int) -> i32 {
    let m = (if n < 0 {
        -n
    } else {
        n
    } + 8) / 16;
    crate::common::quant::clamp32(
        if n < 0 {
            -m
        } else {
            m
        },
    )
}

/// The sixteenfold of the sample at `x`, `y` of a plane of twice the size.
pub open spec fn between(small: Seq<i32>, sw: int, sh: int, x: int, y: int) -> int {
    let (x0, x1, a0, a1) = up2(x, sw);
    let (y0, y1, b0, b1) = up2(y, sh);
    (small[y0 * sw + x0] * a0 + small[y0 * sw + x1] * a1) * b0 + (small[y1 * sw + x0] * a0
        + small[y1 * sw + x1] * a1) * b1
}

/// A plane of twice the size, cut to `dw` by `dh` samples.
pub open spec fn upsampled(small: Seq<i32>, sw: int, sh: int, dw: int, dh: int) -> Seq<i32> {
    Seq::new((dh * dw) as nat, |i: int| round16(between(small, sw, sh, i % dw, i / dw)))
}

fn up2_weights(t: usize, n: usize) -> (r: (usize, usize, i64, i64))
    requires
        1 <= n <= 0xffff,
        t < 2 * n,
    ensures
        (r.0 as int, r.1 as int, r.2 as int, r.3 as int) == up2(t as int, n as int),
        r.0 < n,
        r.1 < n,
        -1 <= r.2 <= 5,
        -1 <= r.3 <= 5,
        r.2 + r.3 == 4,
{
    if t == 0 {
        (
            0,
            if n > 1 {
                1
            } else {
                0
            },
            5,
            -1,
        )
    } else if t % 2 == 1 {
        let k: usize = (t - 1) / 2;
        (
            k,
            if k + 1 < n {
                k + 1
            } else {
                n - 1
            },
            3,
            1,
        )
    } else {
        (t / 2 - 1, t / 2, 1, 3)
    }
}

fn round_half_away_16(n: i64) -> (r: i32)
    requires
        -0x100_0000_0000 <= n <= 0x100_0000_0000,
    ensures
        r == round16(n as int),
{
    let m: i64 = if n < 0 {
        -n
    } else {
        n
    };
    let q: i64 = (m + 8) / 16;
    let v: i64 = if n < 0 {
        -q
    } else {
        q
    };
    if v > i32::MAX as i64 {
        i32::MAX
    } else if v < i32::MIN as i64 {
        i32::MIN
    } else {
        v as i32
    }
}

fn weigh(a: i32, b: i32, wa: i64, wb: i64) -> (r: i64)
    requires
        -1 <= wa <= 5,
        -1 <= wb <= 5,
    ensures
        r == a * wa + b * wb,
        -0x8_0000_0000 <= r <= 0x8_0000_0000,
{
    proof {
        assert(-5 * 0x8000_0000 <= a * wa <= 5 * 0x8000_0000) by (nonlinear_arith)
            requires
                -0x8000_0000 <= a <= 0x8000_0000,
                -1 <= wa <= 5,
        ;
        assert(-5 * 0x8000_0000 <= b * wb <= 5 * 0x8000_0000) by (nonlinear_arith)
            requires
                -0x8000_0000 <= b <= 0x8000_0000,
                -1 <= wb <= 5,
        ;
    }
    a as i64 * wa + b as i64 * wb
}

fn sample_between(small: &[i32], sw: usize, sh: usize, x: usize, y: usize) -> (v: i32)
    requires
        1 <= sw <= 0xffff,
        1 <= sh <= 0xffff,
        small@.len() == sh * sw,
        x < 2 * sw,
        y < 2 * sh,
    ensures
        v == round16(between(small@, sw as int, sh as int, x as int, y as int)),
{
    let total: usize = small.len();
    let (x0, x1, a0, a1) = up2_weights(x, sw);
    let (y0, y1, b0, b1) = up2_weights(y, sh);
    proof {
        assert(0 <= y0 * sw && y0 * sw + sw <= sh * sw) by (nonlinear_arith)
            requires
                0 <= y0 < sh,
                sw >= 0,
        ;
        assert(0 <= y1 * sw && y1 * sw + sw <= sh * sw) by (nonlinear_arith)
            requires
                0 <= y1 < sh,
                sw >= 0,
        ;
    }
    let top: i64 = weigh(small[y0 * sw + x0], small[y0 * sw + x1], a0, a1);
    let low: i64 = weigh(small[y1 * sw + x0], small[y1 * sw + x1], a0, a1);
    proof {
        assert(-5 * 0x8_0000_0000 <= top * b0 <= 5 * 0x8_0000_0000) by (nonlinear_arith)
            requires
                -0x8_0000_0000 <= top <= 0x8_0000_0000,
                -1 <= b0 <= 5,
        ;
        assert(-5 * 0x8_0000_0000 <= low * b1 <= 5 * 0x8_0000_0000) by (nonlinear_arith)
            requires
                -0x8_0000_0000 <= low <= 0x8_0000_0000,
                -1 <= b1 <= 5,
        ;
    }
    round_half_away_16(top * b0 + low * b1)
}

/// Doubles a plane in both directions, by weighing neighbours, and cuts it to `dw` by `dh` samples.
pub fn upsample_2x_bilinear(small: &[i32], sw: usize, sh: usize, dw: usize, dh: usize) -> (out: Vec<
    i32,
>)
    requires
        1 <= sw <= 0xffff,
        1 <= sh <= 0xffff,
        small@.len() == sh * sw,
        dw <= 2 * sw,
        dh <= 2 * sh,
        dh * dw <= usize::MAX,
    ensures
        out@ == upsampled(small@, sw as int, sh as int, dw as int, dh as int),
        out@.len() == dh * dw,
{
    let ghost all = upsampled(small@, sw as int, sh as int, dw as int, dh as int);
    proof {
        assert(0 <= dh * dw) by (nonlinear_arith);
    }
    let n: usize = dh * dw;
    let mut out: Vec<i32> = Vec::new();
    let mut i: usize = 0;
    while i < n
        invariant
            1 <= sw <= 0xffff,
            1 <= sh <= 0xffff,
            small@.len() == sh * sw,
            dw <= 2 * sw,
            dh <= 2 * sh,
            n == dh * dw,
            all == upsampled(small@, sw as int, sh as int, dw as int, dh as int),
            all.len() == n,
            i <= n,
            out@ == all.take(i as int),
        decreases n - i,
    {
        proof {
            assert(dw >= 1) by (nonlinear_arith)
                requires
                    0 < dh * dw,
                    dw >= 0,
            ;
            vstd::arithmetic::div_mod::lemma_fundamental_div_mod(i as int, dw as int);
            let q = i as int / dw as int;
            let r = i as int % dw as int;
            assert(q < dh) by (nonlinear_arith)
                requires
                    i == dw * q + r,
                    0 <= r,
                    i < dh * dw,
                    dw >= 1,
            ;
        }
        let v: i32 = sample_between(small, sw, sh, i % dw, i / dw);
        out.push(v);
        i = i + 1;
        assert(out@ =~= all.take(i as int));
    }
    assert(out@ =~= all);
    out
}

/// Chroma with a share of luma added.
pub open spec fn plus_share(y: Seq<i32>, ch: Seq<i32>, a: int) -> Seq<i32> {
    Seq::new(ch.len(), |i: int| ch[i].wrapping_add(enc::share(y[i], a)))
}

/// Adds a share of luma to chroma.
pub fn cfl_luma_add(chroma: &Vec<i32>, y: &Vec<i32>, alpha: i32) -> (out: Vec<i32>)
    requires
        y@.len() == chroma@.len(),
        -8 <= alpha <= 7,
    ensures
        out@ == plus_share(y@, chroma@, alpha as int),
{
    let ghost all = plus_share(y@, chroma@, alpha as int);
    let mut out: Vec<i32> = Vec::new();
    let mut i: usize = 0;
    while i < chroma.len()
        invariant
            y@.len() == chroma@.len(),
            -8 <= alpha <= 7,
            i <= chroma@.len(),
            all == plus_share(y@, chroma@, alpha as int),
            out@ == all.take(i as int),
        decreases chroma@.len() - i,
    {
        let v: i32 = chroma[i].wrapping_add(share_exec(y[i], alpha));
        out.push(v);
        i = i + 1;
        assert(out@ =~= all.take(i as int));
    }
    assert(out@ =~= all);
    out
}

/// Adding the share that was taken off gives chroma back.
pub proof fn law_cfl_roundtrip(y: Seq<i32>, ch: Seq<i32>, a: int)
    requires
        y.len() == ch.len(),
    ensures
        plus_share(y, enc::less_share(y, ch, a), a) == ch,
{
    assert forall|i: int| 0 <= i < ch.len() implies plus_share(y, enc::less_share(y, ch, a), a)[i]
        == ch[i] by {
        crate::common::predict::lemma_wrapping_cancel(ch[i], enc::share(y[i], a));
    }
    assert(plus_share(y, enc::less_share(y, ch, a), a) =~= ch);
}

/// The two coded columns, or rows, that sample `t` lies between, of `n`.
pub open spec fn around(t: int, n: int) -> (int, int) {
    let k = if t == 0 {
        0
    } else {
        (t - 1) / 2
    };
    (k, if k + 1 < n {
        k + 1
    } else {
        n - 1
    })
}

/// Two samples with any of the pairs of weights.
proof fn lemma_times(p: int, q: int, a: int, b: int)
    requires
        (a == 5 && b == -1) || (a == 3 && b == 1) || (a == 1 && b == 3),
    ensures
        a == 5 ==> p * a + q * b == 5 * p - q,
        a == 3 ==> p * a + q * b == 3 * p + q,
        a == 1 ==> p * a + q * b == p + 3 * q,
{
    if a == 5 {
        assert(p * a == 5 * p && q * b == -q) by (nonlinear_arith)
            requires
                a == 5,
                b == -1,
        ;
    } else if a == 3 {
        assert(p * a == 3 * p && q * b == q) by (nonlinear_arith)
            requires
                a == 3,
                b == 1,
        ;
    } else {
        assert(p * a == p && q * b == 3 * q) by (nonlinear_arith)
            requires
                a == 1,
                b == 3,
        ;
    }
}

/// A sample of a plane that was doubled lies between the least and the largest of the coded samples
/// around it; in the first row and column, where it is continued outwards, no further outside than
/// these are apart.
pub proof fn law_upsampled(
    small: Seq<i32>,
    sw: int,
    sh: int,
    dw: int,
    dh: int,
    x: int,
    y: int,
    lo: int,
    hi: int,
)
    requires
        1 <= sw,
        1 <= sh,
        0 <= x < dw <= 2 * sw,
        0 <= y < dh <= 2 * sh,
        forall|u: int, v: int|
            (u == around(x, sw).0 || u == around(x, sw).1) && (v == around(y, sh).0 || v == around(
                y,
                sh,
            ).1) ==> lo <= #[trigger] small[v * sw + u] <= hi,
        -0x800_0000 <= lo <= hi <= 0x800_0000,
    ensures
        upsampled(small, sw, sh, dw, dh).len() == dw * dh,
        x >= 1 && y >= 1 ==> lo <= upsampled(small, sw, sh, dw, dh)[y * dw + x] <= hi,
        lo - (hi - lo) <= upsampled(small, sw, sh, dw, dh)[y * dw + x] <= hi + (hi - lo),
{
    let i = y * dw + x;
    vstd::arithmetic::div_mod::lemma_fundamental_div_mod_converse(i, dw, y, x);
    assert(0 <= i < dh * dw && dh * dw == dw * dh) by (nonlinear_arith)
        requires
            i == y * dw + x,
            0 <= x < dw,
            0 <= y < dh,
    ;
    let (x0, x1, a0, a1) = up2(x, sw);
    let (y0, y1, b0, b1) = up2(y, sh);
    assert((x0, x1) == around(x, sw));
    assert((y0, y1) == around(y, sh));
    let (p, q, r, s) = (
        small[y0 * sw + x0],
        small[y0 * sw + x1],
        small[y1 * sw + x0],
        small[y1 * sw + x1],
    );
    assert(lo <= p <= hi && lo <= q <= hi && lo <= r <= hi && lo <= s <= hi);
    let n = between(small, sw, sh, x, y);
    assert(n == (p * a0 + q * a1) * b0 + (r * a0 + s * a1) * b1);
    assert((a0 == 5 && a1 == -1) || (a0 == 3 && a1 == 1) || (a0 == 1 && a1 == 3));
    assert((b0 == 5 && b1 == -1) || (b0 == 3 && b1 == 1) || (b0 == 1 && b1 == 3));
    assert(x >= 1 ==> a0 != 5);
    assert(y >= 1 ==> b0 != 5);
    let (t, m) = (p * a0 + q * a1, r * a0 + s * a1);
    lemma_times(p as int, q as int, a0, a1);
    lemma_times(r as int, s as int, a0, a1);
    lemma_times(t, m, b0, b1);
    assert(4 * lo - (hi - lo) <= t <= 4 * hi + (hi - lo));
    assert(4 * lo - (hi - lo) <= m <= 4 * hi + (hi - lo));
    assert(16 * lo - 16 * (hi - lo) <= n <= 16 * hi + 16 * (hi - lo));
    assert(x >= 1 ==> 4 * lo <= t <= 4 * hi && 4 * lo <= m <= 4 * hi);
    assert(x >= 1 && y >= 1 ==> 16 * lo <= n <= 16 * hi);
    assert(upsampled(small, sw, sh, dw, dh)[i] == round16(n));
}

/// A plane whose samples rise evenly, by `p` to the right and by `r` downwards, comes out rising
/// evenly when it is doubled: a coded sample stands in the middle of the four that it was made of.
pub proof fn law_upsampled_even(
    small: Seq<i32>,
    sw: int,
    sh: int,
    dw: int,
    dh: int,
    x: int,
    y: int,
    p: int,
    r: int,
    c: int,
)
    requires
        2 <= sw <= 0x1_0000,
        2 <= sh <= 0x1_0000,
        0 <= x < dw,
        0 <= y < dh,
        x < 2 * sw - 1,
        y < 2 * sh - 1,
        -0x100 <= p <= 0x100,
        -0x100 <= r <= 0x100,
        -0x100_0000 <= c <= 0x100_0000,
        forall|u: int, v: int|
            0 <= u < sw && 0 <= v < sh ==> #[trigger] small[v * sw + u] == p * u + r * v + c,
    ensures
        -8 <= 16 * upsampled(small, sw, sh, dw, dh)[y * dw + x] - (16 * c + 4 * (p * (2 * x - 1))
            + 4 * (r * (2 * y - 1))) <= 8,
{
    let i = y * dw + x;
    vstd::arithmetic::div_mod::lemma_fundamental_div_mod_converse(i, dw, y, x);
    assert(0 <= i < dh * dw) by (nonlinear_arith)
        requires
            i == y * dw + x,
            0 <= x < dw,
            0 <= y < dh,
    ;
    let (x0, x1, a0, a1) = up2(x, sw);
    let (y0, y1, b0, b1) = up2(y, sh);
    assert(x1 == x0 + 1 && 0 <= x0 && x1 < sw);
    assert(y1 == y0 + 1 && 0 <= y0 && y1 < sh);
    assert(4 * x0 + a1 == 2 * x - 1);
    assert(4 * y0 + b1 == 2 * y - 1);
    let (px, ry) = (p * x0, r * y0);
    assert(p * x1 == px + p && r * y1 == ry + r) by (nonlinear_arith)
        requires
            px == p * x0,
            ry == r * y0,
            x1 == x0 + 1,
            y1 == y0 + 1,
    ;
    assert(small[y0 * sw + x0] == px + ry + c);
    assert(small[y0 * sw + x1] == px + p + ry + c);
    assert(small[y1 * sw + x0] == px + ry + r + c);
    assert(small[y1 * sw + x1] == px + p + ry + r + c);
    let n = between(small, sw, sh, x, y);
    assert((a0 == 5 && a1 == -1) || (a0 == 3 && a1 == 1) || (a0 == 1 && a1 == 3));
    assert((b0 == 5 && b1 == -1) || (b0 == 3 && b1 == 1) || (b0 == 1 && b1 == 3));
    let k = px + ry + c;
    assert(n == (k * a0 + (k + p) * a1) * b0 + ((k + r) * a0 + (k + r + p) * a1) * b1);
    let (t, m) = (k * a0 + (k + p) * a1, (k + r) * a0 + (k + r + p) * a1);
    lemma_times(k, k + p, a0, a1);
    lemma_times(k + r, k + r + p, a0, a1);
    lemma_times(t, m, b0, b1);
    lemma_times(0, p, a0, a1);
    lemma_times(0, r, b0, b1);
    assert(n == 16 * k + 4 * (p * a1) + 4 * (r * b1));
    assert(-0x300 <= p * a1 <= 0x300 && -0x300 <= r * b1 <= 0x300) by (nonlinear_arith)
        requires
            -0x100 <= p <= 0x100,
            -0x100 <= r <= 0x100,
            -1 <= a1 <= 3,
            -1 <= b1 <= 3,
    ;
    assert(p * (2 * x - 1) == 4 * px + p * a1) by (nonlinear_arith)
        requires
            px == p * x0,
            4 * x0 + a1 == 2 * x - 1,
    ;
    assert(r * (2 * y - 1) == 4 * ry + r * b1) by (nonlinear_arith)
        requires
            ry == r * y0,
            4 * y0 + b1 == 2 * y - 1,
    ;
    assert(-0x100_0000 <= px <= 0x100_0000 && -0x100_0000 <= ry <= 0x100_0000) by (nonlinear_arith)
        requires
            px == p * x0,
            ry == r * y0,
            0 <= x0 <= 0x1_0000,
            0 <= y0 <= 0x1_0000,
            -0x100 <= p <= 0x100,
            -0x100 <= r <= 0x100,
    ;
    assert(-0x4000_0000 <= n <= 0x4000_0000);
    assert(upsampled(small, sw, sh, dw, dh)[i] == round16(n));
}

/// A plane halved and doubled again is, at each place, between the least and the largest sample near
/// that same place; in the first row and column no further outside than these are apart.
pub proof fn law_half_and_back(px: Seq<i32>, w: int, h: int, x: int, y: int, lo: int, hi: int)
    requires
        w >= 1,
        h >= 1,
        px.len() == w * h,
        0 <= x < w,
        0 <= y < h,
        -0x800_0000 <= lo <= hi <= 0x800_0000,
        forall|u: int, v: int|
            0 <= u < w && 0 <= v < h && x - 3 <= u <= x + 3 && y - 3 <= v <= y + 3 ==> lo
                <= #[trigger] px[v * w + u] <= hi,
    ensures
        ({
            let (sw, sh) = ((w + 1) / 2, (h + 1) / 2);
            let back = upsampled(enc::halved(px, w, h), sw, sh, w, h);
            &&& back.len() == px.len()
            &&& x >= 1 && y >= 1 ==> lo <= back[y * w + x] <= hi
            &&& lo - (hi - lo) <= back[y * w + x] <= hi + (hi - lo)
        }),
{
    let (sw, sh) = ((w + 1) / 2, (h + 1) / 2);
    let z = enc::halved(px, w, h);
    assert forall|u: int, v: int|
        (u == around(x, sw).0 || u == around(x, sw).1) && (v == around(y, sh).0 || v == around(
            y,
            sh,
        ).1) implies lo <= #[trigger] z[v * sw + u] <= hi by {
        enc::law_halved(px, w, h, u, v, lo, hi);
    }
    law_upsampled(z, sw, sh, w, h, x, y, lo, hi);
}

proof fn lemma_line_close(p: int, q: int, r: int, s: int, a: int, b: int, e: int, z: int)
    requires
        (a == 5 && b == -1) || (a == 3 && b == 1) || (a == 1 && b == 3),
        -e <= p - r <= e,
        -e <= q - s <= e,
        -z <= p <= z,
        -z <= q <= z,
        -z <= r <= z,
        -z <= s <= z,
    ensures
        -6 * e <= p * a + q * b - (r * a + s * b) <= 6 * e,
        -6 * z <= p * a + q * b <= 6 * z,
        -6 * z <= r * a + s * b <= 6 * z,
{
    lemma_times(p, q, a, b);
    lemma_times(r, s, a, b);
}

proof fn lemma_round_close(v: int, w: int, e: int)
    requires
        -36 * e <= v - w <= 36 * e,
        -0x4000_0000 <= v <= 0x4000_0000,
        -0x4000_0000 <= w <= 0x4000_0000,
    ensures
        -(3 * e + 1) <= round16(v) - round16(w) <= 3 * e + 1,
{
}

/// Planes that are close stay close when they are doubled.
pub proof fn law_upsampled_close(
    a: Seq<i32>,
    b: Seq<i32>,
    sw: int,
    sh: int,
    dw: int,
    dh: int,
    e: int,
)
    requires
        1 <= sw,
        1 <= sh,
        0 <= dw <= 2 * sw,
        0 <= dh <= 2 * sh,
        a.len() == sw * sh,
        close::close(a, b, e),
        0 <= e <= 0x100_0000,
        bounds::small(a, 0x100_0000),
        bounds::small(b, 0x100_0000),
    ensures
        close::close(upsampled(a, sw, sh, dw, dh), upsampled(b, sw, sh, dw, dh), 3 * e + 1),
{
    let (p, q) = (upsampled(a, sw, sh, dw, dh), upsampled(b, sw, sh, dw, dh));
    assert forall|i: int| 0 <= i < p.len() implies -(3 * e + 1) <= #[trigger] p[i] - q[i] <= 3 * e
        + 1 by {
        assert(dw >= 1) by (nonlinear_arith)
            requires
                0 <= i < dh * dw,
                dh >= 0,
                dw >= 0,
        ;
        vstd::arithmetic::div_mod::lemma_fundamental_div_mod(i, dw);
        vstd::arithmetic::div_mod::lemma_mod_bound(i, dw);
        vstd::arithmetic::div_mod::lemma_div_pos_is_pos(i, dw);
        let (x, y) = (i % dw, i / dw);
        assert(y < dh) by (nonlinear_arith)
            requires
                i == dw * y + x,
                0 <= x,
                i < dh * dw,
                dw >= 1,
        ;
        let (x0, x1, a0, a1) = up2(x, sw);
        let (y0, y1, b0, b1) = up2(y, sh);
        lemma_sample_close(a, b, sw, sh, x0, y0, e);
        lemma_sample_close(a, b, sw, sh, x1, y0, e);
        lemma_sample_close(a, b, sw, sh, x0, y1, e);
        lemma_sample_close(a, b, sw, sh, x1, y1, e);
        let (r, s, t, u) = (
            a[y0 * sw + x0],
            a[y0 * sw + x1],
            a[y1 * sw + x0],
            a[y1 * sw + x1],
        );
        let (k, l, m, n) = (
            b[y0 * sw + x0],
            b[y0 * sw + x1],
            b[y1 * sw + x0],
            b[y1 * sw + x1],
        );
        let (v, w) = (between(a, sw, sh, x, y), between(b, sw, sh, x, y));
        assert(v == (r * a0 + s * a1) * b0 + (t * a0 + u * a1) * b1);
        assert(w == (k * a0 + l * a1) * b0 + (m * a0 + n * a1) * b1);
        let z = 0x100_0000int;
        lemma_line_close(r as int, s as int, k as int, l as int, a0, a1, e, z);
        lemma_line_close(t as int, u as int, m as int, n as int, a0, a1, e, z);
        lemma_line_close(
            r * a0 + s * a1,
            t * a0 + u * a1,
            k * a0 + l * a1,
            m * a0 + n * a1,
            b0,
            b1,
            6 * e,
            6 * z,
        );
        lemma_round_close(v, w, e);
    }
}

proof fn lemma_sample_close(a: Seq<i32>, b: Seq<i32>, w: int, h: int, x: int, y: int, e: int)
    requires
        0 <= x < w,
        0 <= y < h,
        a.len() == w * h,
        close::close(a, b, e),
        bounds::small(a, 0x100_0000),
        bounds::small(b, 0x100_0000),
    ensures
        -e <= a[y * w + x] - b[y * w + x] <= e,
        -0x100_0000 <= a[y * w + x] <= 0x100_0000,
        -0x100_0000 <= b[y * w + x] <= 0x100_0000,
{
    assert(0 <= y * w + x < w * h) by (nonlinear_arith)
        requires
            0 <= x < w,
            0 <= y < h,
    ;
    let i = y * w + x;
    assert(-e <= a[i] - b[i] <= e);
    assert(-0x100_0000 <= a[i] <= 0x100_0000);
    assert(-0x100_0000 <= b[i] <= 0x100_0000);
}

/// What luma is off goes into chroma by a quarter and one at most.
pub proof fn law_share_close(y: i32, z: i32, a: int, e: int)
    requires
        -4 <= a <= 4,
        -e <= y - z <= e,
        -0x800_0000 <= y <= 0x800_0000,
        -0x800_0000 <= z <= 0x800_0000,
    ensures
        -(e / 4 + 1) <= enc::share(y, a) - enc::share(z, a) <= e / 4 + 1,
{
    enc::law_share(y, a);
    enc::law_share(z, a);
    assert(a * (y - 128) - a * (z - 128) == a * (y - z)) by (nonlinear_arith);
    assert(-4 * e <= a * (y - z) <= 4 * e) by (nonlinear_arith)
        requires
            -4 <= a <= 4,
            -e <= y - z <= e,
    ;
}

/// Chroma with its share of luma is off by what it was off, and by a quarter of what luma is off and
/// one.
pub proof fn law_plus_share_close(
    y: Seq<i32>,
    z: Seq<i32>,
    c: Seq<i32>,
    d: Seq<i32>,
    a: int,
    e: int,
    f: int,
)
    requires
        -4 <= a <= 4,
        y.len() == c.len(),
        close::close(y, z, e),
        close::close(c, d, f),
        bounds::small(y, 0x100_0000),
        bounds::small(z, 0x100_0000),
        bounds::small(c, 0x100_0000),
        bounds::small(d, 0x100_0000),
    ensures
        close::close(plus_share(y, c, a), plus_share(z, d, a), f + e / 4 + 1),
{
    let (p, q) = (plus_share(y, c, a), plus_share(z, d, a));
    let g = f + e / 4 + 1;
    assert forall|i: int| 0 <= i < p.len() implies -g <= #[trigger] p[i] - q[i] <= g by {
        assert(-e <= y[i] - z[i] <= e);
        assert(-f <= c[i] - d[i] <= f);
        assert(-0x100_0000 <= y[i] <= 0x100_0000 && -0x100_0000 <= z[i] <= 0x100_0000);
        assert(-0x100_0000 <= c[i] <= 0x100_0000 && -0x100_0000 <= d[i] <= 0x100_0000);
        law_share_close(y[i], z[i], a, e);
        lemma_share_near(y[i], a);
        lemma_share_near(z[i], a);
    }
}

proof fn lemma_share_near(y: i32, a: int)
    requires
        -4 <= a <= 4,
        -0x100_0000 <= y <= 0x100_0000,
    ensures
        -0x80_0000 <= enc::share(y, a) <= 0x80_0000,
{
    enc::law_share(y, a);
    assert(-0x400_0400 <= a * (y - 128) <= 0x400_0400) by (nonlinear_arith)
        requires
            -4 <= a <= 4,
            -0x100_0100 <= y - 128 <= 0x100_0100,
    ;
}

/// The sample in column `x` of row `y`.
pub open spec fn at(px: Seq<i32>, w: int, x: int, y: int) -> int {
    px[y * w + x] as int
}

/// Samples of a plane that are three columns and rows apart or less differ by no more than `v`.
pub open spec fn even(px: Seq<i32>, w: int, h: int, v: int) -> bool {
    forall|x: int, y: int, u: int, t: int|
        0 <= x < w && 0 <= u < w && 0 <= y < h && 0 <= t < h && x - 3 <= u <= x + 3 && y - 3 <= t
            <= y + 3 ==> -v <= #[trigger] at(px, w, x, y) - #[trigger] at(px, w, u, t) <= v
}

/// A plane halved and doubled again is off by no more than three times what samples near each other
/// differ.
pub proof fn law_half_close(px: Seq<i32>, w: int, h: int, v: int)
    requires
        w >= 1,
        h >= 1,
        px.len() == w * h,
        even(px, w, h, v),
        0 <= v <= 0x100_0000,
        bounds::small(px, 0x100_0000),
    ensures
        close::close(
            upsampled(enc::halved(px, w, h), (w + 1) / 2, (h + 1) / 2, w, h),
            px,
            3 * v,
        ),
{
    let back = upsampled(enc::halved(px, w, h), (w + 1) / 2, (h + 1) / 2, w, h);
    assert(h * w == w * h && h * w >= 0) by (nonlinear_arith)
        requires
            w >= 1,
            h >= 1,
    ;
    assert forall|i: int| 0 <= i < back.len() implies -(3 * v) <= #[trigger] back[i] - px[i] <= 3
        * v by {
        vstd::arithmetic::div_mod::lemma_fundamental_div_mod(i, w);
        vstd::arithmetic::div_mod::lemma_mod_bound(i, w);
        vstd::arithmetic::div_mod::lemma_div_pos_is_pos(i, w);
        let (x, y) = (i % w, i / w);
        assert(y < h) by (nonlinear_arith)
            requires
                i == w * y + x,
                0 <= x,
                i < h * w,
                w >= 1,
        ;
        assert(w * y == y * w) by (nonlinear_arith);
        let c = px[i] as int;
        assert(-0x100_0000 <= px[i] <= 0x100_0000);
        assert(at(px, w, x, y) == c);
        let (lo, hi) = (c - v, c + v);
        assert forall|u: int, t: int|
            0 <= u < w && 0 <= t < h && x - 3 <= u <= x + 3 && y - 3 <= t <= y + 3 implies lo
            <= #[trigger] px[t * w + u] <= hi by {
            assert(at(px, w, u, t) == px[t * w + u]);
            assert(-v <= at(px, w, x, y) - at(px, w, u, t) <= v);
        }
        law_half_and_back(px, w, h, x, y, lo, hi);
    }
}

/// A plane within `m` is even to twice that.
pub proof fn lemma_small_even(px: Seq<i32>, w: int, h: int, m: int)
    requires
        px.len() == w * h,
        bounds::small(px, m),
    ensures
        even(px, w, h, 2 * m),
{
    assert forall|x: int, y: int, u: int, t: int|
        0 <= x < w && 0 <= u < w && 0 <= y < h && 0 <= t < h && x - 3 <= u <= x + 3 && y - 3 <= t
            <= y + 3 implies -(2 * m) <= #[trigger] at(px, w, x, y) - #[trigger] at(px, w, u, t)
        <= 2 * m by {
        assert(0 <= y * w + x < w * h && 0 <= t * w + u < w * h) by (nonlinear_arith)
            requires
                0 <= x < w,
                0 <= u < w,
                0 <= y < h,
                0 <= t < h,
        ;
        assert(-m <= px[y * w + x] <= m);
        assert(-m <= px[t * w + u] <= m);
    }
}

/// A plane without its share of luma is at most about twice as uneven as both.
pub proof fn lemma_less_share_even(y: Seq<i32>, ch: Seq<i32>, a: int, w: int, h: int, v: int)
    requires
        y.len() == w * h,
        ch.len() == w * h,
        -4 <= a <= 4,
        v >= 0,
        even(y, w, h, v),
        even(ch, w, h, v),
        bounds::small(y, 0x100_0000),
        bounds::small(ch, 0x100_0000),
    ensures
        even(enc::less_share(y, ch, a), w, h, 2 * v + 1),
{
    let l = enc::less_share(y, ch, a);
    assert forall|p: int, q: int, u: int, t: int|
        0 <= p < w && 0 <= u < w && 0 <= q < h && 0 <= t < h && p - 3 <= u <= p + 3 && q - 3 <= t
            <= q + 3 implies -(2 * v + 1) <= #[trigger] at(l, w, p, q) - #[trigger] at(l, w, u, t)
        <= 2 * v + 1 by {
        assert(0 <= q * w + p < w * h && 0 <= t * w + u < w * h) by (nonlinear_arith)
            requires
                0 <= p < w,
                0 <= u < w,
                0 <= q < h,
                0 <= t < h,
        ;
        let (i, j) = (q * w + p, t * w + u);
        assert(-v <= at(y, w, p, q) - at(y, w, u, t) <= v);
        assert(-v <= at(ch, w, p, q) - at(ch, w, u, t) <= v);
        assert(-0x100_0000 <= y[i] <= 0x100_0000 && -0x100_0000 <= y[j] <= 0x100_0000);
        assert(-0x100_0000 <= ch[i] <= 0x100_0000 && -0x100_0000 <= ch[j] <= 0x100_0000);
        law_share_close(y[i], y[j], a, v);
        lemma_share_near(y[i], a);
        lemma_share_near(y[j], a);
    }
}

/// A plane is not larger when it is halved.
pub proof fn lemma_halved_small(px: Seq<i32>, w: int, h: int, m: int)
    requires
        w >= 1,
        h >= 1,
        px.len() == w * h,
        bounds::small(px, m),
        0 <= m <= 0x100_0000,
    ensures
        bounds::small(enc::halved(px, w, h), m),
{
    let z = enc::halved(px, w, h);
    let (cw, ch) = ((w + 1) / 2, (h + 1) / 2);
    assert forall|i: int| 0 <= i < z.len() implies -m <= #[trigger] z[i] <= m by {
        vstd::arithmetic::div_mod::lemma_fundamental_div_mod(i, cw);
        vstd::arithmetic::div_mod::lemma_mod_bound(i, cw);
        vstd::arithmetic::div_mod::lemma_div_pos_is_pos(i, cw);
        let (x, y) = (i % cw, i / cw);
        assert(y < ch) by (nonlinear_arith)
            requires
                i == cw * y + x,
                0 <= x,
                i < ch * cw,
                cw >= 1,
        ;
        assert(cw * y == y * cw) by (nonlinear_arith);
        assert forall|u: int, v: int|
            0 <= u < w && 0 <= v < h && 2 * x <= u <= 2 * x + 1 && 2 * y <= v <= 2 * y + 1
            implies -m <= #[trigger] px[v * w + u] <= m by {
            assert(0 <= v * w + u < w * h) by (nonlinear_arith)
                requires
                    0 <= u < w,
                    0 <= v < h,
            ;
        }
        enc::law_halved(px, w, h, x, y, -m, m);
    }
}

} // verus!

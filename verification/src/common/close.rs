//! How far images are apart, and what becomes of that when they are decoded.

use vstd::prelude::*;
use crate::common::arith;
use crate::common::blocks;
use crate::common::bounds;
use crate::common::plane;
use crate::common::transform;

verus! {

/// The images are equally large, and no sample of one is further than `e` from that of the other.
pub open spec fn close(a: Seq<i32>, b: Seq<i32>, e: int) -> bool {
    a.len() == b.len() && forall|i: int| 0 <= i < a.len() ==> -e <= #[trigger] a[i] - b[i] <= e
}

pub proof fn lemma_close_wider(a: Seq<i32>, b: Seq<i32>, d: int, e: int)
    requires
        close(a, b, d),
        d <= e,
    ensures
        close(a, b, e),
{
    assert forall|i: int| 0 <= i < a.len() implies -e <= #[trigger] a[i] - b[i] <= e by {
        assert(-d <= a[i] - b[i] <= d);
    }
}

pub proof fn lemma_close_steps(a: Seq<i32>, b: Seq<i32>, c: Seq<i32>, d: int, e: int)
    requires
        close(a, b, d),
        close(b, c, e),
    ensures
        close(a, c, d + e),
{
    assert forall|i: int| 0 <= i < a.len() implies -(d + e) <= #[trigger] a[i] - c[i] <= d + e by {
        assert(-d <= a[i] - b[i] <= d);
        assert(-e <= b[i] - c[i] <= e);
    }
}

/// What is close to small samples is small.
pub proof fn lemma_close_small(a: Seq<i32>, b: Seq<i32>, e: int, m: int)
    requires
        close(a, b, e),
        bounds::small(b, m),
    ensures
        bounds::small(a, m + e),
{
    assert forall|i: int| 0 <= i < a.len() implies -(m + e) <= #[trigger] a[i] <= m + e by {
        assert(-e <= a[i] - b[i] <= e);
        assert(-m <= b[i] <= m);
    }
}

/// One pair of samples from a mean and a difference, and what becomes of errors.
proof fn lemma_pair_close(l: i32, h: i32, m: i32, k: i32, d: int, e: int)
    requires
        -d <= l - m <= d,
        -e <= h - k <= e,
        0 <= d <= 0x400_0000,
        0 <= e <= 0x400_0000,
        -0x400_0000 <= l <= 0x400_0000,
        -0x400_0000 <= h <= 0x400_0000,
        -0x400_0000 <= m <= 0x400_0000,
        -0x400_0000 <= k <= 0x400_0000,
    ensures
        ({
            let t = d + (e + 1) / 2;
            &&& -t <= transform::first(l, h) - transform::first(m, k) <= t
            &&& -t <= transform::second(l, h) - transform::second(m, k) <= t
            &&& -0x600_0001 <= transform::first(l, h) <= 0x600_0001
            &&& -0x600_0001 <= transform::second(l, h) <= 0x600_0001
            &&& transform::first(l, h) == l + h - h as int / 2
            &&& transform::second(l, h) == l - h as int / 2
            &&& transform::unlift(l, h) == l + h as int / 2
            &&& transform::first(m, k) == m + k - k as int / 2
            &&& transform::second(m, k) == m - k as int / 2
            &&& transform::unlift(m, k) == m + k as int / 2
            &&& -t <= transform::unlift(l, h) - transform::unlift(m, k) <= t
        }),
{
}

/// The inverse of four coefficients is at most three times as far off.
#[verifier::spinoff_prover]
#[verifier::rlimit(60)]
proof fn lemma_inv4_close(a: Seq<i32>, b: Seq<i32>, e: int)
    requires
        a.len() == 4,
        close(a, b, e),
        0 <= e <= 0x10_0000,
        bounds::small(a, 0x20_0000),
        bounds::small(b, 0x20_0000),
    ensures
        close(transform::inv4(a), transform::inv4(b), 3 * e + 2),
        transform::inv4(a).len() == 4,
        bounds::small(transform::inv4(a), 0x100_0000),
        bounds::small(transform::inv4(b), 0x100_0000),
{
    reveal(transform::inv4);
    assert(-e <= a[0] - b[0] <= e && -e <= a[1] - b[1] <= e);
    assert(-e <= a[2] - b[2] <= e && -e <= a[3] - b[3] <= e);
    assert(-0x20_0000 <= a[0] <= 0x20_0000 && -0x20_0000 <= a[1] <= 0x20_0000);
    assert(-0x20_0000 <= a[2] <= 0x20_0000 && -0x20_0000 <= a[3] <= 0x20_0000);
    assert(-0x20_0000 <= b[0] <= 0x20_0000 && -0x20_0000 <= b[1] <= 0x20_0000);
    assert(-0x20_0000 <= b[2] <= 0x20_0000 && -0x20_0000 <= b[3] <= 0x20_0000);
    let d = e + (e + 1) / 2;
    let (s0, s1) = (transform::first(a[0], a[2]), transform::second(a[0], a[2]));
    let (t0, t1) = (transform::first(b[0], b[2]), transform::second(b[0], b[2]));
    lemma_pair_close(a[0], a[2], b[0], b[2], e, e);
    lemma_pair_close(a[3], a[1], b[3], b[1], e, e);
    let (u, v) = (transform::unlift(a[3], a[1]), transform::unlift(b[3], b[1]));
    lemma_pair_close(s0, a[1], t0, b[1], d, e);
    lemma_pair_close(s1, u, t1, v, d, d);
    let (x, y) = (transform::inv4(a), transform::inv4(b));
    let f = 3 * e + 2;
    assert(d + (d + 1) / 2 <= f && d + (e + 1) / 2 <= f);
    lemma_four(
        x,
        y,
        seq![
            transform::first(s0, a[1]),
            transform::first(s1, u),
            transform::second(s1, u),
            transform::second(s0, a[1]),
        ],
        seq![
            transform::first(t0, b[1]),
            transform::first(t1, v),
            transform::second(t1, v),
            transform::second(t0, b[1]),
        ],
        f,
    );
}

proof fn lemma_four(x: Seq<i32>, y: Seq<i32>, p: Seq<i32>, q: Seq<i32>, f: int)
    requires
        x == p,
        y == q,
        p.len() == 4,
        q.len() == 4,
        -f <= p[0] - q[0] <= f,
        -f <= p[1] - q[1] <= f,
        -f <= p[2] - q[2] <= f,
        -f <= p[3] - q[3] <= f,
        -0x100_0000 <= p[0] <= 0x100_0000,
        -0x100_0000 <= p[1] <= 0x100_0000,
        -0x100_0000 <= p[2] <= 0x100_0000,
        -0x100_0000 <= p[3] <= 0x100_0000,
        -0x100_0000 <= q[0] <= 0x100_0000,
        -0x100_0000 <= q[1] <= 0x100_0000,
        -0x100_0000 <= q[2] <= 0x100_0000,
        -0x100_0000 <= q[3] <= 0x100_0000,
    ensures
        close(x, y, f),
        x.len() == 4,
        bounds::small(x, 0x100_0000),
        bounds::small(y, 0x100_0000),
{
    assert forall|i: int| 0 <= i < 4 implies -f <= #[trigger] x[i] - y[i] <= f by {
        assert(i == 0 || i == 1 || i == 2 || i == 3);
    }
    assert forall|i: int| 0 <= i < 4 implies -0x100_0000 <= #[trigger] x[i] <= 0x100_0000 by {
        assert(i == 0 || i == 1 || i == 2 || i == 3);
    }
    assert forall|i: int| 0 <= i < 4 implies -0x100_0000 <= #[trigger] y[i] <= 0x100_0000 by {
        assert(i == 0 || i == 1 || i == 2 || i == 3);
    }
}

/// The inverse of eight coefficients is at most four times as far off.
#[verifier::spinoff_prover]
#[verifier::rlimit(80)]
proof fn lemma_inv8_close(a: Seq<i32>, b: Seq<i32>, e: int)
    requires
        a.len() == 8,
        close(a, b, e),
        0 <= e <= 0x10_0000,
        bounds::small(a, 0x20_0000),
        bounds::small(b, 0x20_0000),
    ensures
        close(transform::inv8(a), transform::inv8(b), 4 * e + 4),
        transform::inv8(a).len() == 8,
{
    reveal(transform::inv8);
    let (p, q) = (seq![a[0], a[2], a[4], a[6]], seq![b[0], b[2], b[4], b[6]]);
    assert(-e <= a[0] - b[0] <= e && -e <= a[1] - b[1] <= e);
    assert(-e <= a[2] - b[2] <= e && -e <= a[3] - b[3] <= e);
    assert(-e <= a[4] - b[4] <= e && -e <= a[5] - b[5] <= e);
    assert(-e <= a[6] - b[6] <= e && -e <= a[7] - b[7] <= e);
    assert(-0x20_0000 <= a[1] <= 0x20_0000 && -0x20_0000 <= b[1] <= 0x20_0000);
    assert(-0x20_0000 <= a[3] <= 0x20_0000 && -0x20_0000 <= b[3] <= 0x20_0000);
    assert(-0x20_0000 <= a[5] <= 0x20_0000 && -0x20_0000 <= b[5] <= 0x20_0000);
    assert(-0x20_0000 <= a[7] <= 0x20_0000 && -0x20_0000 <= b[7] <= 0x20_0000);
    assert(-0x20_0000 <= a[0] <= 0x20_0000 && -0x20_0000 <= b[0] <= 0x20_0000);
    assert(-0x20_0000 <= a[2] <= 0x20_0000 && -0x20_0000 <= b[2] <= 0x20_0000);
    assert(-0x20_0000 <= a[4] <= 0x20_0000 && -0x20_0000 <= b[4] <= 0x20_0000);
    assert(-0x20_0000 <= a[6] <= 0x20_0000 && -0x20_0000 <= b[6] <= 0x20_0000);
    lemma_inv4_close(p, q, e);
    let (x, y) = (transform::inv4(p), transform::inv4(q));
    let f = 3 * e + 2;
    assert(-f <= x[0] - y[0] <= f && -f <= x[1] - y[1] <= f);
    assert(-f <= x[2] - y[2] <= f && -f <= x[3] - y[3] <= f);
    assert(-0x100_0000 <= x[0] <= 0x100_0000 && -0x100_0000 <= y[0] <= 0x100_0000);
    assert(-0x100_0000 <= x[1] <= 0x100_0000 && -0x100_0000 <= y[1] <= 0x100_0000);
    assert(-0x100_0000 <= x[2] <= 0x100_0000 && -0x100_0000 <= y[2] <= 0x100_0000);
    assert(-0x100_0000 <= x[3] <= 0x100_0000 && -0x100_0000 <= y[3] <= 0x100_0000);
    let (a1, b1) = (transform::unlift(a[3], a[1]), transform::unlift(b[3], b[1]));
    let (a2, b2) = (transform::unlift(a[5], a1), transform::unlift(b[5], b1));
    let (a3, b3) = (transform::unlift(a[7], a2), transform::unlift(b[7], b2));
    let g = 2 * e + 2;
    lemma_pair_close(a[3], a[1], b[3], b[1], e, e);
    assert(-g <= a1 - b1 <= g && -0x40_0000 <= a1 <= 0x40_0000 && -0x40_0000 <= b1 <= 0x40_0000);
    lemma_pair_close(a[5], a1, b[5], b1, e, g);
    assert(-g <= a2 - b2 <= g && -0x40_0000 <= a2 <= 0x40_0000 && -0x40_0000 <= b2 <= 0x40_0000);
    lemma_pair_close(a[7], a2, b[7], b2, e, g);
    assert(-g <= a3 - b3 <= g && -0x40_0000 <= a3 <= 0x40_0000 && -0x40_0000 <= b3 <= 0x40_0000);
    lemma_pair_close(x[0], a[1], y[0], b[1], f, e);
    lemma_pair_close(x[1], a1, y[1], b1, f, g);
    lemma_pair_close(x[2], a2, y[2], b2, f, g);
    lemma_pair_close(x[3], a3, y[3], b3, f, g);
    let (s, t) = (transform::inv8(a), transform::inv8(b));
    let h = 4 * e + 4;
    assert(f + (g + 1) / 2 <= h && f + (e + 1) / 2 <= h);
    assert(-h <= s[0] - t[0] <= h && -h <= s[1] - t[1] <= h);
    assert(-h <= s[2] - t[2] <= h && -h <= s[3] - t[3] <= h);
    assert(-h <= s[4] - t[4] <= h && -h <= s[5] - t[5] <= h);
    assert(-h <= s[6] - t[6] <= h && -h <= s[7] - t[7] <= h);
    assert forall|i: int| 0 <= i < 8 implies -h <= #[trigger] s[i] - t[i] <= h by {
        assert(i == 0 || i == 1 || i == 2 || i == 3 || i == 4 || i == 5 || i == 6 || i == 7);
    }
}

proof fn lemma_line_close(a: Seq<i32>, b: Seq<i32>, e: int)
    requires
        close(a, b, e),
        0 <= e <= 0x10_0000,
        bounds::small(a, 0x20_0000),
        bounds::small(b, 0x20_0000),
    ensures
        close(transform::line(a, false), transform::line(b, false), 4 * e + 4),
{
    if a.len() == 4 {
        lemma_inv4_close(a, b, e);
        lemma_close_wider(transform::inv4(a), transform::inv4(b), 3 * e + 2, 4 * e + 4);
    } else if a.len() == 8 {
        lemma_inv8_close(a, b, e);
    } else {
        lemma_close_wider(a, b, e, 4 * e + 4);
    }
}

proof fn lemma_rows_close(a: Seq<i32>, b: Seq<i32>, bw: int, bh: int, e: int)
    requires
        bw >= 1,
        bh >= 1,
        a.len() == bw * bh,
        close(a, b, e),
        0 <= e <= 0x10_0000,
        bounds::small(a, 0x20_0000),
        bounds::small(b, 0x20_0000),
    ensures
        close(
            transform::rows(a, bw, bh, false),
            transform::rows(b, bw, bh, false),
            4 * e + 4,
        ),
{
    let (x, y) = (transform::rows(a, bw, bh, false), transform::rows(b, bw, bh, false));
    let f = 4 * e + 4;
    assert forall|j: int| 0 <= j < x.len() implies -f <= #[trigger] x[j] - y[j] <= f by {
        transform::lemma_index(j, bw, bh);
        let (s, t) = (transform::row(a, bw, j / bw), transform::row(b, bw, j / bw));
        assert forall|c: int| 0 <= c < bw implies -e <= #[trigger] s[c] - t[c] <= e && -0x20_0000
            <= s[c] <= 0x20_0000 && -0x20_0000 <= t[c] <= 0x20_0000 by {
            transform::lemma_split((j / bw) * bw + c, j / bw, c, bw, bh);
            let k = (j / bw) * bw + c;
            assert(-e <= a[k] - b[k] <= e);
            assert(-0x20_0000 <= a[k] <= 0x20_0000 && -0x20_0000 <= b[k] <= 0x20_0000);
        }
        assert(bounds::small(s, 0x20_0000) && bounds::small(t, 0x20_0000)) by {
            assert forall|c: int| 0 <= c < bw implies -0x20_0000 <= #[trigger] s[c] <= 0x20_0000 by {
                assert(-e <= s[c] - t[c] <= e);
            }
            assert forall|c: int| 0 <= c < bw implies -0x20_0000 <= #[trigger] t[c] <= 0x20_0000 by {
                assert(-e <= s[c] - t[c] <= e);
            }
        }
        transform::lemma_line(s);
        transform::lemma_line(t);
        lemma_line_close(s, t, e);
        let (p, q) = (transform::line(s, false), transform::line(t, false));
        assert(p.len() == bw);
        assert(-f <= p[j % bw] - q[j % bw] <= f);
    }
}

proof fn lemma_transpose_close(a: Seq<i32>, b: Seq<i32>, bw: int, bh: int, e: int)
    requires
        bw >= 1,
        bh >= 1,
        a.len() == bw * bh,
        close(a, b, e),
    ensures
        close(transform::transpose(a, bw, bh), transform::transpose(b, bw, bh), e),
{
    let (s, t) = (transform::transpose(a, bw, bh), transform::transpose(b, bw, bh));
    assert(bw * bh == bh * bw) by (nonlinear_arith);
    assert forall|j: int| 0 <= j < s.len() implies -e <= #[trigger] s[j] - t[j] <= e by {
        transform::lemma_index(j, bh, bw);
        let k = (j % bh) * bw + j / bh;
        transform::lemma_split(k, j % bh, j / bh, bw, bh);
        assert(-e <= a[k] - b[k] <= e);
    }
}

/// Coefficients that are off by `e` give a block that is off by sixteen times as much, and twenty, at
/// most.
pub proof fn law_inverse_close(a: Seq<i32>, b: Seq<i32>, bw: int, bh: int, e: int)
    requires
        bw >= 1,
        bh >= 1,
        a.len() == bw * bh,
        close(a, b, e),
        0 <= e <= 0x1_0000,
        bounds::small(a, 0x4_0000),
        bounds::small(b, 0x4_0000),
    ensures
        close(transform::inverse2(a, bw, bh), transform::inverse2(b, bw, bh), 16 * e + 20),
{
    assert(bw * bh == bh * bw) by (nonlinear_arith);
    assert(bw * bh >= 0) by (nonlinear_arith)
        requires
            bw >= 1,
            bh >= 1,
    ;
    let zero = Seq::new(a.len(), |i: int| 0i32);
    let (ta, tb) = (transform::transpose(a, bw, bh), transform::transpose(b, bw, bh));
    lemma_transpose_close(a, b, bw, bh, e);
    lemma_transpose_near(a, bw, bh, 0x4_0000);
    lemma_transpose_near(b, bw, bh, 0x4_0000);
    bounds::lemma_small_wider(ta, 0x4_0000, 0x20_0000);
    bounds::lemma_small_wider(tb, 0x4_0000, 0x20_0000);
    lemma_rows_close(ta, tb, bh, bw, e);
    lemma_rows_near(ta, bh, bw, 0x4_0000);
    lemma_rows_near(tb, bh, bw, 0x4_0000);
    let (ra, rb) = (
        transform::rows(ta, bh, bw, false),
        transform::rows(tb, bh, bw, false),
    );
    let (ua, ub) = (transform::transpose(ra, bh, bw), transform::transpose(rb, bh, bw));
    lemma_transpose_close(ra, rb, bh, bw, 4 * e + 4);
    lemma_transpose_near(ra, bh, bw, 0x20_0000);
    lemma_transpose_near(rb, bh, bw, 0x20_0000);
    lemma_rows_close(ua, ub, bw, bh, 4 * e + 4);
}

proof fn lemma_transpose_near(a: Seq<i32>, bw: int, bh: int, m: int)
    requires
        bw >= 1,
        bh >= 1,
        a.len() == bw * bh,
        bounds::small(a, m),
    ensures
        bounds::small(transform::transpose(a, bw, bh), m),
        transform::transpose(a, bw, bh).len() == bw * bh,
{
    let t = transform::transpose(a, bw, bh);
    assert(bw * bh == bh * bw) by (nonlinear_arith);
    assert forall|j: int| 0 <= j < t.len() implies -m <= #[trigger] t[j] <= m by {
        transform::lemma_index(j, bh, bw);
        let k = (j % bh) * bw + j / bh;
        transform::lemma_split(k, j % bh, j / bh, bw, bh);
        assert(-m <= a[k] <= m);
    }
}

/// Rows of small coefficients give rows that are not large.
proof fn lemma_rows_near(a: Seq<i32>, bw: int, bh: int, m: int)
    requires
        bw >= 1,
        bh >= 1,
        a.len() == bw * bh,
        bounds::small(a, 0x4_0000),
    ensures
        bounds::small(transform::rows(a, bw, bh, false), 0x20_0000),
        transform::rows(a, bw, bh, false).len() == bw * bh,
{
    let zero = Seq::new(a.len(), |i: int| 0i32);
    assert(close(a, zero, 0x4_0000)) by {
        assert forall|i: int| 0 <= i < a.len() implies -0x4_0000 <= #[trigger] a[i] - zero[i]
            <= 0x4_0000 by {
            assert(-0x4_0000 <= a[i] <= 0x4_0000);
        }
    }
    bounds::lemma_small_wider(a, 0x4_0000, 0x20_0000);
    lemma_rows_close(a, zero, bw, bh, 0x4_0000);
    let (x, z) = (transform::rows(a, bw, bh, false), transform::rows(zero, bw, bh, false));
    assert forall|j: int| 0 <= j < x.len() implies -0x20_0000 <= #[trigger] x[j] <= 0x20_0000 by {
        transform::lemma_index(j, bw, bh);
        let s = transform::row(zero, bw, j / bw);
        assert forall|c: int| 0 <= c < bw implies s[c] == 0 by {
            transform::lemma_split((j / bw) * bw + c, j / bw, c, bw, bh);
        }
        lemma_zero_line(s);
        transform::lemma_line(s);
        assert(z[j] == 0);
        assert(-(4 * 0x4_0000 + 4) <= x[j] - z[j] <= 4 * 0x4_0000 + 4);
    }
}

proof fn lemma_zero_line(s: Seq<i32>)
    requires
        forall|c: int| 0 <= c < s.len() ==> s[c] == 0,
    ensures
        forall|c: int| 0 <= c < s.len() ==> transform::line(s, false)[c] == 0,
{
    reveal(transform::inv4);
    reveal(transform::inv8);
}

/// The same for a plane.
pub proof fn lemma_plane_inverse_close(
    a: Seq<i32>,
    b: Seq<i32>,
    w: int,
    h: int,
    bw: int,
    bh: int,
    e: int,
)
    requires
        w >= 0,
        h >= 0,
        a.len() == w * h,
        plane::valid_rect(bw, bh),
        close(a, b, e),
        0 <= e <= 0x1_0000,
        bounds::small(a, 0x4_0000),
        bounds::small(b, 0x4_0000),
    ensures
        close(
            plane::plane_inverse(a, w, h, bw, bh),
            plane::plane_inverse(b, w, h, bw, bh),
            16 * e + 20,
        ),
{
    let g = plane::tiling(w, h, bw, bh);
    let (x, y) = (plane::plane_inverse(a, w, h, bw, bh), plane::plane_inverse(b, w, h, bw, bh));
    let f = 16 * e + 20;
    blocks::lemma_count(g);
    assert forall|i: int| 0 <= i < x.len() implies -f <= #[trigger] x[i] - y[i] <= f by {
        blocks::lemma_place(g, i);
        let (t, j) = (g.tile_of(i), g.within(i));
        blocks::lemma_tile_dims(g, t);
        let (p, q) = (blocks::tile(a, g, t), blocks::tile(b, g, t));
        assert forall|k: int| 0 <= k < p.len() implies -e <= #[trigger] p[k] - q[k] <= e by {
            blocks::lemma_pos(g, t, k);
            let o = g.pos(t, k);
            assert(-e <= a[o] - b[o] <= e);
        }
        assert forall|k: int| 0 <= k < p.len() implies -0x4_0000 <= #[trigger] p[k] <= 0x4_0000 by {
            blocks::lemma_pos(g, t, k);
            assert(-0x4_0000 <= a[g.pos(t, k)] <= 0x4_0000);
        }
        assert forall|k: int| 0 <= k < q.len() implies -0x4_0000 <= #[trigger] q[k] <= 0x4_0000 by {
            blocks::lemma_pos(g, t, k);
            assert(-0x4_0000 <= b[g.pos(t, k)] <= 0x4_0000);
        }
        if g.whole(t) {
            assert(g.area(t) == bw * bh) by (nonlinear_arith)
                requires
                    g.area(t) == g.th(t) * g.tw(t),
                    g.th(t) == bh,
                    g.tw(t) == bw,
            ;
            law_inverse_close(p, q, bw, bh, e);
            let (s, r) = (transform::inverse2(p, bw, bh), transform::inverse2(q, bw, bh));
            transform::lemma_inverse_len(p, bw, bh);
            assert(x[i] == s[j] && y[i] == r[j]);
            assert(-f <= s[j] - r[j] <= f);
        } else {
            assert(x[i] == p[j] && y[i] == q[j]);
            assert(-e <= p[j] - q[j] <= e);
        }
    }
}

/// Undoing the transform of colours at most doubles what they are off, and adds one.
pub proof fn law_unrct_close(a: Seq<i32>, b: Seq<i32>, e: int)
    requires
        close(a, b, e),
        a.len() % 3 == 0,
        0 <= e <= 0x100_0000,
        bounds::small(a, 0x800_0000),
        bounds::small(b, 0x800_0000),
    ensures
        close(arith::unrct_spec(a), arith::unrct_spec(b), 2 * e + 1),
{
    let (x, y) = (arith::unrct_spec(a), arith::unrct_spec(b));
    let f = 2 * e + 1;
    assert forall|i: int| 0 <= i < x.len() implies -f <= #[trigger] x[i] - y[i] <= f by {
        let k = i / 3 * 3;
        assert(0 <= k && k + 2 < a.len());
        assert(-e <= a[k] - b[k] <= e);
        assert(-e <= a[k + 1] - b[k + 1] <= e);
        assert(-e <= a[k + 2] - b[k + 2] <= e);
        assert(-0x800_0000 <= a[k] <= 0x800_0000 && -0x800_0000 <= b[k] <= 0x800_0000);
        assert(-0x800_0000 <= a[k + 1] <= 0x800_0000 && -0x800_0000 <= b[k + 1] <= 0x800_0000);
        assert(-0x800_0000 <= a[k + 2] <= 0x800_0000 && -0x800_0000 <= b[k + 2] <= 0x800_0000);
        let p = arith::unrct_pixel(a[k], a[k + 1], a[k + 2]);
        let q = arith::unrct_pixel(b[k], b[k + 1], b[k + 2]);
        assert(-f <= p.0 - q.0 <= f && -f <= p.1 - q.1 <= f && -f <= p.2 - q.2 <= f);
        assert(x[i] == arith::pick3(p, i % 3) && y[i] == arith::pick3(q, i % 3));
    }
}

/// Components that are close make images that are close.
pub proof fn lemma_interleaved_close(ps: Seq<Seq<i32>>, qs: Seq<Seq<i32>>, n: nat, e: int)
    requires
        ps.len() == qs.len(),
        ps.len() >= 1,
        forall|k: int|
            0 <= k < ps.len() ==> close(#[trigger] ps[k], qs[k], e) && ps[k].len() == n,
    ensures
        close(plane::interleaved(ps, n), plane::interleaved(qs, n), e),
{
    let (x, y) = (plane::interleaved(ps, n), plane::interleaved(qs, n));
    let c = ps.len() as int;
    assert forall|i: int| 0 <= i < x.len() implies -e <= #[trigger] x[i] - y[i] <= e by {
        vstd::arithmetic::div_mod::lemma_fundamental_div_mod(i, c);
        vstd::arithmetic::div_mod::lemma_mod_bound(i, c);
        vstd::arithmetic::div_mod::lemma_div_pos_is_pos(i, c);
        let (k, j) = (i % c, i / c);
        assert(j < n) by (nonlinear_arith)
            requires
                i == c * j + k,
                0 <= k,
                i < n * c,
                c >= 1,
        ;
        assert(close(ps[k], qs[k], e));
        assert(-e <= ps[k][j] - qs[k][j] <= e);
    }
}

/// A plane of which every tile is changed by little is changed by little.
pub proof fn lemma_mapped_close(
    px: Seq<i32>,
    g: blocks::Tiling,
    f: spec_fn(Seq<i32>, bool) -> Seq<i32>,
    e: int,
)
    requires
        g.ok(),
        px.len() == g.w * g.h,
        forall|t: int|
            0 <= t < g.count() ==> close(
                #[trigger] f(blocks::tile(px, g, t), g.whole(t)),
                blocks::tile(px, g, t),
                e,
            ),
    ensures
        close(plane::mapped(px, g, f), px, e),
{
    let r = plane::mapped(px, g, f);
    blocks::lemma_count(g);
    assert forall|i: int| 0 <= i < r.len() implies -e <= #[trigger] r[i] - px[i] <= e by {
        blocks::lemma_place(g, i);
        let (t, j) = (g.tile_of(i), g.within(i));
        let b = blocks::tile(px, g, t);
        let x = f(b, g.whole(t));
        assert(close(x, b, e));
        blocks::lemma_tile_dims(g, t);
        assert(b.len() == g.area(t));
        assert(r[i] == x[j]);
        assert(b[j] == px[g.pos(t, j)]);
        assert(-e <= x[j] - b[j] <= e);
    }
}

/// The transform of colours at most doubles samples, and adds two.
pub proof fn lemma_rct_near(px: Seq<i32>, m: int)
    requires
        bounds::small(px, m),
        0 <= m <= 0x100_0000,
        px.len() % 3 == 0,
    ensures
        bounds::small(arith::rct_spec(px), 2 * m + 2),
{
    let t = arith::rct_spec(px);
    assert forall|i: int| 0 <= i < t.len() implies -(2 * m + 2) <= #[trigger] t[i] <= 2 * m + 2 by {
        let b = i / 3 * 3;
        assert(b + 2 < px.len());
        assert(-m <= px[b] <= m && -m <= px[b + 1] <= m && -m <= px[b + 2] <= m);
        let p = arith::rct_pixel(px[b], px[b + 1], px[b + 2]);
        assert(t[i] == arith::pick3(p, i % 3));
    }
}

/// Samples are at no distance from themselves.
pub proof fn lemma_close_same(a: Seq<i32>, e: int)
    requires
        e >= 0,
    ensures
        close(a, a, e),
{
}

} // verus!

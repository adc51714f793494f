//! How large samples can get.

use vstd::prelude::*;
use crate::common::arith;
use crate::common::domain::PredictionMode;
use crate::common::intra8;
use crate::common::predict;
use crate::common::transform;

verus! {

/// No sample is further than `m` from zero.
pub open spec fn small(px: Seq<i32>, m: int) -> bool {
    forall|i: int| 0 <= i < px.len() ==> -m <= #[trigger] px[i] <= m
}

pub proof fn lemma_small_wider(px: Seq<i32>, m: int, n: int)
    requires
        small(px, m),
        m <= n,
    ensures
        small(px, n),
{
}

/// Differences are at most as far from zero as both samples together.
pub proof fn lemma_sub_small(a: Seq<i32>, b: Seq<i32>, m: int, n: int)
    requires
        a.len() == b.len(),
        small(a, m),
        small(b, n),
        0 <= m <= 0x1000_0000,
        0 <= n <= 0x1000_0000,
    ensures
        small(arith::sub_spec(a, b), m + n),
{
    assert forall|i: int| 0 <= i < a.len() implies -(m + n) <= #[trigger] arith::sub_spec(a, b)[i]
        <= m + n by {
        assert(-m <= a[i] <= m && -n <= b[i] <= n);
    }
}

/// The colour transform at most makes four of one.
pub proof fn lemma_rct_small(px: Seq<i32>, m: int)
    requires
        small(px, m),
        0 <= m <= 0x100_0000,
        px.len() % 3 == 0,
    ensures
        small(arith::rct_spec(px), 4 * m + 4),
{
    let t = arith::rct_spec(px);
    assert forall|i: int| 0 <= i < t.len() implies -(4 * m + 4) <= #[trigger] t[i] <= 4 * m + 4 by {
        let b = i / 3 * 3;
        assert(b + 2 < px.len());
        assert(-m <= px[b] <= m && -m <= px[b + 1] <= m && -m <= px[b + 2] <= m);
        let p = arith::rct_pixel(px[b], px[b + 1], px[b + 2]);
        assert(t[i] == arith::pick3(p, i % 3));
    }
}

/// A change of illumination at most doubles samples, and adds its offset.
pub proof fn lemma_lic_small(px: Seq<i32>, a: int, b: int, m: int)
    requires
        small(px, m),
        0 <= m <= 0x100_0000,
        0 <= a <= 200,
        -128 <= b <= 127,
    ensures
        small(arith::lic_spec(px, a, b), 2 * m + 128),
{
    assert forall|i: int| 0 <= i < px.len() implies -(2 * m + 128) <= #[trigger] arith::lic_spec(
        px,
        a,
        b,
    )[i] <= 2 * m + 128 by {
        let v = px[i] as int;
        assert(-m <= px[i] <= m);
        assert(-200 * m <= v * a <= 200 * m) by (nonlinear_arith)
            requires
                -m <= v <= m,
                0 <= a <= 200,
                m >= 0,
        ;
    }
}

/// A prediction is no further from zero than the samples it is made of.
pub proof fn lemma_predict_small(
    px: Seq<i32>,
    idx: int,
    w: int,
    c: int,
    mode: PredictionMode,
    m: int,
)
    requires
        predict::geometry_ok(w, c),
        0 <= idx <= px.len(),
        small(px.take(idx), m),
        0 <= m <= 0x2000_0000,
    ensures
        -m <= predict::predict_spec(px, idx, w, c, mode) <= m,
{
    predict::lemma_neighbour_indices(idx, w, c);
    assert forall|j: int| 0 <= j < idx implies -m <= #[trigger] px[j] <= m by {
        assert(px.take(idx)[j] == px[j]);
    }
    let n = predict::neighbours(px, idx, w, c);
    assert(-m <= n.l <= m && -m <= n.t <= m && -m <= n.tl <= m && -m <= n.tr <= m);
}

/// Residuals are at most twice as far from zero as the samples.
pub proof fn lemma_residuals_small(
    px: Seq<i32>,
    w: int,
    c: int,
    mode: PredictionMode,
    lo: int,
    hi: int,
    m: int,
)
    requires
        predict::geometry_ok(w, c),
        0 <= lo <= hi <= px.len(),
        small(px, m),
        0 <= m <= 0x2000_0000,
    ensures
        small(predict::residuals(px, w, c, mode, lo, hi), 2 * m),
{
    let res = predict::residuals(px, w, c, mode, lo, hi);
    assert forall|j: int| 0 <= j < res.len() implies -2 * m <= #[trigger] res[j] <= 2 * m by {
        let i = lo + j;
        assert(small(px.take(i), m));
        lemma_predict_small(px, i, w, c, mode, m);
        assert(-m <= px[i] <= m);
    }
}

proof fn lemma_line_small(s: Seq<i32>, m: int)
    requires
        small(s, m),
        0 <= m <= 0x1000_0000,
    ensures
        small(transform::line(s, true), 3 * m),
{
    if s.len() == 4 {
        lemma_line4_small(s, m);
    } else if s.len() == 8 {
        lemma_line8_small(s, m);
    }
}

#[verifier::spinoff_prover]
#[verifier::rlimit(50)]
proof fn lemma_line8_small(s: Seq<i32>, m: int)
    requires
        s.len() == 8,
        small(s, m),
        0 <= m <= 0x1000_0000,
    ensures
        small(transform::fwd8(s), 3 * m),
{
    reveal(transform::fwd8);
    assert(-m <= s[0] <= m && -m <= s[1] <= m && -m <= s[2] <= m && -m <= s[3] <= m);
    assert(-m <= s[4] <= m && -m <= s[5] <= m && -m <= s[6] <= m && -m <= s[7] <= m);
    let l0 = transform::lo(s[0], s[7]);
    let l1 = transform::lo(s[1], s[6]);
    let l2 = transform::lo(s[2], s[5]);
    let l3 = transform::lo(s[3], s[4]);
    assert(-m <= l0 <= m && -m <= l1 <= m && -m <= l2 <= m && -m <= l3 <= m);
    let e = transform::fwd4(seq![l0, l1, l2, l3]);
    assert(small(e, 3 * m) && e.len() == 4) by {
        lemma_line4_small(seq![l0, l1, l2, l3], m);
    }
    assert(-3 * m <= e[0] <= 3 * m && -3 * m <= e[1] <= 3 * m);
    assert(-3 * m <= e[2] <= 3 * m && -3 * m <= e[3] <= 3 * m);
}

proof fn lemma_line4_small(s: Seq<i32>, m: int)
    requires
        s.len() == 4,
        small(s, m),
        0 <= m <= 0x1000_0000,
    ensures
        small(transform::fwd4(s), 3 * m),
        transform::fwd4(s).len() == 4,
{
    reveal(transform::fwd4);
    assert(-m <= s[0] <= m && -m <= s[1] <= m && -m <= s[2] <= m && -m <= s[3] <= m);
}

proof fn lemma_rows_small(b: Seq<i32>, bw: int, bh: int, m: int)
    requires
        bw >= 1,
        bh >= 1,
        b.len() == bw * bh,
        small(b, m),
        0 <= m <= 0x1000_0000,
    ensures
        small(transform::rows(b, bw, bh, true), 3 * m),
{
    let r = transform::rows(b, bw, bh, true);
    assert forall|j: int| 0 <= j < r.len() implies -3 * m <= #[trigger] r[j] <= 3 * m by {
        transform::lemma_index(j, bw, bh);
        let s = transform::row(b, bw, j / bw);
        assert(small(s, m)) by {
            assert forall|c: int| 0 <= c < s.len() implies -m <= #[trigger] s[c] <= m by {
                transform::lemma_split((j / bw) * bw + c, j / bw, c, bw, bh);
                assert(s[c] == b[(j / bw) * bw + c]);
            }
        }
        transform::lemma_line(s);
        lemma_line_small(s, m);
        let l = transform::line(s, true);
        assert(l.len() == bw);
        assert(-3 * m <= l[j % bw] <= 3 * m);
    }
}

proof fn lemma_transpose_small(b: Seq<i32>, bw: int, bh: int, m: int)
    requires
        bw >= 1,
        bh >= 1,
        b.len() == bw * bh,
        small(b, m),
    ensures
        small(transform::transpose(b, bw, bh), m),
{
    let t = transform::transpose(b, bw, bh);
    assert(bw * bh == bh * bw) by (nonlinear_arith);
    assert forall|j: int| 0 <= j < t.len() implies -m <= #[trigger] t[j] <= m by {
        transform::lemma_index(j, bh, bw);
        let k = (j % bh) * bw + j / bh;
        transform::lemma_split(k, j % bh, j / bh, bw, bh);
        assert(t[j] == b[k]);
    }
}

/// Coefficients are at most nine times as far from zero as the samples.
pub proof fn lemma_forward_small(b: Seq<i32>, bw: int, bh: int, m: int)
    requires
        bw >= 1,
        bh >= 1,
        b.len() == bw * bh,
        small(b, m),
        0 <= m <= 0x400_0000,
    ensures
        small(transform::forward2(b, bw, bh), 9 * m),
{
    assert(bw * bh == bh * bw) by (nonlinear_arith);
    assert(bw * bh >= 1) by (nonlinear_arith)
        requires
            bw >= 1,
            bh >= 1,
    ;
    let r1 = transform::rows(b, bw, bh, true);
    lemma_rows_small(b, bw, bh, m);
    let t1 = transform::transpose(r1, bw, bh);
    lemma_transpose_small(r1, bw, bh, 3 * m);
    let r2 = transform::rows(t1, bh, bw, true);
    lemma_rows_small(t1, bh, bw, 3 * m);
    lemma_transpose_small(r2, bh, bw, 9 * m);
}

proof fn lemma_sums_small(r: Seq<i32>, w: int, h: int, x0: int, y0: int, n: nat, m: int)
    requires
        w >= 0,
        h >= 0,
        r.len() == w * h,
        small(r, m),
        m >= 0,
    ensures
        -m * n <= intra8::sum_left(r, w, h, x0, y0, n) <= m * n,
        -m * n <= intra8::sum_top(r, w, h, x0, y0, n) <= m * n,
    decreases n,
{
    if n > 0 {
        lemma_sums_small(r, w, h, x0, y0, (n - 1) as nat, m);
        lemma_sample_small(r, w, h, x0 - 1, y0 + n - 1, m);
        lemma_sample_small(r, w, h, x0 + n - 1, y0 - 1, m);
        assert(m * n == m * (n - 1) + m) by (nonlinear_arith);
        assert(-m * n == -m * (n - 1) - m) by (nonlinear_arith);
    } else {
        assert(m * 0 == 0 && -m * 0 == 0);
    }
}

proof fn lemma_sample_small(r: Seq<i32>, w: int, h: int, x: int, y: int, m: int)
    requires
        w >= 0,
        h >= 0,
        r.len() == w * h,
        small(r, m),
        m >= 0,
    ensures
        -m <= intra8::sample(r, w, h, x, y) <= m,
{
    if !(x < 0 || y < 0 || x >= w || y >= h) {
        assert(0 <= y * w + x < w * h) by (nonlinear_arith)
            requires
                0 <= x < w,
                0 <= y < h,
        ;
        assert(-m <= r[y * w + x] <= m);
    }
}

/// The prediction of a block is no further from zero than the samples it is made of.
pub proof fn lemma_guesses_small(
    r: Seq<i32>,
    w: int,
    h: int,
    x0: int,
    y0: int,
    mode: i32,
    m: int,
)
    requires
        w >= 0,
        h >= 0,
        r.len() == w * h,
        small(r, m),
        0 <= m <= 0x2000_0000,
    ensures
        small(intra8::guesses(r, w, h, x0, y0, mode), m),
{
    let p = intra8::guesses(r, w, h, x0, y0, mode);
    lemma_sums_small(r, w, h, x0, y0, 8, m);
    lemma_sample_small(r, w, h, x0 - 1, y0 - 1, m);
    assert forall|j: int| 0 <= j < p.len() implies -m <= #[trigger] p[j] <= m by {
        lemma_sample_small(r, w, h, x0 - 1, y0 + j / 8, m);
        lemma_sample_small(r, w, h, x0 + j % 8, y0 - 1, m);
        let l = intra8::sum_left(r, w, h, x0, y0, 8);
        let t = intra8::sum_top(r, w, h, x0, y0, 8);
        assert(-8 * m <= l <= 8 * m && -8 * m <= t <= 8 * m);
        assert(-m <= intra8::mean(r, w, h, x0, y0) <= m);
    }
}

} // verus!

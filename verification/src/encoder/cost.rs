//! Quick estimates of how well a prediction mode fits an image.

use vstd::prelude::*;
use crate::common::domain::PredictionMode;
use crate::common::predict;
use crate::common::predict::{apply_prediction, apply_prediction_range, predict_at};
use crate::encoder::ranking;
use crate::encoder::ranking::sum_mag_exec;

verus! {

/// Of this many rows one is looked at.
pub const ROW_STEP: usize = 4;

/// Sum of the magnitudes of the residuals of the rows before `n` that are looked at.
pub open spec fn sampled_sad(px: Seq<i32>, w: int, c: int, mode: PredictionMode, n: nat) -> int
    decreases n,
{
    if n == 0 {
        0
    } else {
        let y = n - 1;
        sampled_sad(px, w, c, mode, y as nat) + if y % 4 == 0 {
            ranking::sum_mag(
                predict::residuals(px, w, c, mode, y * (w * c), (y + 1) * (w * c)),
            )
        } else {
            0
        }
    }
}

/// Number of samples in the rows before `n` that are looked at.
pub open spec fn sampled_count(w: int, c: int, n: int) -> int {
    ((n + 3) / 4) * (w * c)
}

/// Sum of the magnitudes of all residuals.
pub fn sad_for_mode(
    pixels: &[i32],
    width: usize,
    components: usize,
    mode: PredictionMode,
) -> (s: u64)
    requires
        predict::geometry_ok(width as int, components as int),
        pixels@.len() <= u32::MAX,
    ensures
        s == ranking::sum_mag(
            predict::residuals(
                pixels@,
                width as int,
                components as int,
                mode,
                0,
                pixels@.len() as int,
            ),
        ),
{
    let res: Vec<i32> = apply_prediction(pixels, width, components, mode);
    sum_mag_exec(&res)
}

proof fn lemma_sum_mag(res: Seq<i32>)
    ensures
        0 <= ranking::sum_mag(res) <= res.len() * 0x8000_0000,
    decreases res.len(),
{
    if res.len() > 0 {
        lemma_sum_mag(res.drop_last());
    }
}

/// Sum of the magnitudes of the residuals of some of the rows.
pub fn sad_for_mode_sampled(
    pixels: &[i32],
    width: usize,
    height: usize,
    components: usize,
    mode: PredictionMode,
) -> (s: u64)
    requires
        predict::geometry_ok(width as int, components as int),
        height <= 0xffff,
        pixels@.len() == height * (width * components),
        pixels@.len() <= u32::MAX,
    ensures
        s == sampled_sad(
            pixels@,
            width as int,
            components as int,
            mode,
            height as nat,
        ),
{
    let ghost w = width as int;
    let ghost c = components as int;
    let total: usize = pixels.len();
    proof {
        assert(1 <= w * c <= 0xffff * 4) by (nonlinear_arith)
            requires
                1 <= w <= 0xffff,
                1 <= c <= 4,
        ;
    }
    let stride: usize = width * components;
    let mut s: u64 = 0;
    let mut y: usize = 0;
    while y < height
        invariant
            predict::geometry_ok(w, c),
            w == width,
            c == components,
            height <= 0xffff,
            stride == w * c,
            1 <= stride <= 0xffff * 4,
            total == pixels@.len(),
            total == height * (w * c),
            total <= u32::MAX,
            y <= height,
            s == sampled_sad(pixels@, w, c, mode, y as nat),
            s <= y * (w * c) * 0x8000_0000,
            0 <= y * (w * c) <= u32::MAX,
        decreases height - y,
    {
        proof {
            assert(0 <= y * stride && (y + 1) * stride == y * stride + stride && (y + 1) * stride
                <= height * stride) by (nonlinear_arith)
                requires
                    0 <= y < height,
                    stride >= 1,
            ;
        }
        if y % ROW_STEP == 0 {
            let res: Vec<i32> = apply_prediction_range(
                pixels,
                width,
                components,
                mode,
                y * stride,
                y * stride + stride,
            );
            let r: u64 = sum_mag_exec(&res);
            proof {
                lemma_sum_mag(res@);
            }
            s = s + r;
        }
        y = y + 1;
    }
    s
}

/// Sum of the magnitudes of the residuals of some of the rows, and their number.
pub fn residual_activity_for_mode_sampled(
    pixels: &[i32],
    width: usize,
    height: usize,
    components: usize,
    mode: PredictionMode,
) -> (r: (u64, u64))
    requires
        predict::geometry_ok(width as int, components as int),
        height <= 0xffff,
        pixels@.len() == height * (width * components),
        pixels@.len() <= u32::MAX,
    ensures
        r.0 == sampled_sad(
            pixels@,
            width as int,
            components as int,
            mode,
            height as nat,
        ),
        r.1 == sampled_count(width as int, components as int, height as int),
{
    let s: u64 = sad_for_mode_sampled(pixels, width, height, components, mode);
    proof {
        let st = width * components;
        assert(0 <= st <= 0xffff * 4) by (nonlinear_arith)
            requires
                st == width * components,
                0 <= width <= 0xffff,
                0 <= components <= 4,
        ;
        let n = (height + 3) / 4;
        assert(0 <= n * st <= 0xffff * (0xffff * 4)) by (nonlinear_arith)
            requires
                0 <= n <= 0xffff,
                0 <= st <= 0xffff * 4,
        ;
    }
    let n: u64 = ((height + 3) / 4) as u64 * (width * components) as u64;
    (s, n)
}

/// Output `j` of a Hadamard transform of four values.
pub open spec fn had(a: int, b: int, c: int, d: int, j: int) -> int {
    if j == 0 {
        a + b + c + d
    } else if j == 1 {
        a - b + c - d
    } else if j == 2 {
        a + b - c - d
    } else {
        a - b - c + d
    }
}

/// Transform of the rows of four by four values.
pub open spec fn had_rows(r: Seq<int>) -> Seq<int> {
    Seq::new(
        16,
        |p: int|
            had(
                r[p / 4 * 4],
                r[p / 4 * 4 + 1],
                r[p / 4 * 4 + 2],
                r[p / 4 * 4 + 3],
                p % 4,
            ),
    )
}

/// Transform of the columns of four by four values.
pub open spec fn had_cols(r: Seq<int>) -> Seq<int> {
    Seq::new(16, |p: int| had(r[p % 4], r[p % 4 + 4], r[p % 4 + 8], r[p % 4 + 12], p / 4))
}

/// Sum of the magnitudes of the first `n` values.
pub open spec fn sum_abs(r: Seq<int>, n: nat) -> int
    decreases n,
{
    if n == 0 {
        0
    } else {
        sum_abs(r, (n - 1) as nat) + predict::abs(r[n - 1])
    }
}

/// The place of sample `p` of a four by four block of one component, whose first sample is at `at`.
pub open spec fn block_place(at: int, stride: int, c: int, p: int) -> int {
    at + (p / 4) * stride + (p % 4) * c
}

/// The residuals of such a block.
pub open spec fn block_residuals(
    px: Seq<i32>,
    w: int,
    c: int,
    mode: PredictionMode,
    at: int,
) -> Seq<int> {
    Seq::new(
        16,
        |p: int|
            {
                let i = block_place(at, w * c, c, p);
                px[i].wrapping_sub(predict::predict_spec(px, i, w, c, mode)) as int
            },
    )
}

/// Sum of the magnitudes of the transformed residuals of a block.
pub open spec fn block_satd(px: Seq<i32>, w: int, c: int, mode: PredictionMode, at: int) -> int {
    sum_abs(had_cols(had_rows(block_residuals(px, w, c, mode, at))), 16)
}

/// Whole blocks in a row of blocks, over all components.
pub open spec fn blocks_across(w: int, c: int) -> int {
    (w / 4) * c
}

/// Rows of blocks that are looked at: one in four.
pub open spec fn block_rows(h: int) -> int {
    (h / 4 + 3) / 4
}

/// Where block number `b` of those that are looked at starts.
pub open spec fn block_start(b: int, w: int, c: int) -> int {
    let n = blocks_across(w, c);
    (b / n) * (16 * (w * c)) + ((b % n) / c) * (4 * c) + (b % n) % c
}

/// The sum over the first `n` blocks that are looked at.
pub open spec fn sampled_satd(px: Seq<i32>, w: int, c: int, mode: PredictionMode, n: nat) -> int
    decreases n,
{
    if n == 0 {
        0
    } else {
        sampled_satd(px, w, c, mode, (n - 1) as nat) + block_satd(
            px,
            w,
            c,
            mode,
            block_start(n - 1, w, c),
        )
    }
}

/// The estimate by which modes are ordered.
pub open spec fn satd(px: Seq<i32>, w: int, h: int, c: int, mode: PredictionMode) -> int {
    sampled_satd(px, w, c, mode, (block_rows(h) * blocks_across(w, c)) as nat)
}

proof fn lemma_sum_abs(r: Seq<int>, n: nat, m: int)
    requires
        n <= r.len(),
        forall|i: int| 0 <= i < n ==> -m <= #[trigger] r[i] <= m,
    ensures
        0 <= sum_abs(r, n) <= n * m,
    decreases n,
{
    if n > 0 {
        lemma_sum_abs(r, (n - 1) as nat, m);
        assert(n * m == (n - 1) * m + m) by (nonlinear_arith);
        assert(-m <= r[n - 1] <= m);
    } else {
        assert(0 * m == 0);
    }
}

fn had_exec(a: i64, b: i64, c: i64, d: i64, j: usize) -> (r: i64)
    requires
        -0x20_0000_0000 <= a <= 0x20_0000_0000,
        -0x20_0000_0000 <= b <= 0x20_0000_0000,
        -0x20_0000_0000 <= c <= 0x20_0000_0000,
        -0x20_0000_0000 <= d <= 0x20_0000_0000,
    ensures
        r == had(a as int, b as int, c as int, d as int, j as int),
{
    if j == 0 {
        a + b + c + d
    } else if j == 1 {
        a - b + c - d
    } else if j == 2 {
        a + b - c - d
    } else {
        a - b - c + d
    }
}

spec fn wide(s: Seq<i64>) -> Seq<int> {
    Seq::new(s.len(), |i: int| s[i] as int)
}

fn hadamard(r: &Vec<i64>) -> (s: u64)
    requires
        r@.len() == 16,
        forall|i: int| 0 <= i < 16 ==> -0x8000_0000 <= #[trigger] r@[i] <= 0x8000_0000,
    ensures
        s == sum_abs(had_cols(had_rows(wide(r@))), 16),
        s <= 0x100_0000_0000,
{
    let ghost rw = wide(r@);
    let ghost h1 = had_rows(rw);
    let mut a: Vec<i64> = Vec::new();
    let mut p: usize = 0;
    while p < 16
        invariant
            r@.len() == 16,
            rw == wide(r@),
            h1 == had_rows(rw),
            forall|i: int| 0 <= i < 16 ==> -0x8000_0000 <= #[trigger] r@[i] <= 0x8000_0000,
            p <= 16,
            a@.len() == p,
            forall|i: int|
                0 <= i < p ==> #[trigger] a@[i] == h1[i] && -0x2_0000_0000 <= a@[i]
                    <= 0x2_0000_0000,
        decreases 16 - p,
    {
        let b: usize = p / 4 * 4;
        let v: i64 = had_exec(r[b], r[b + 1], r[b + 2], r[b + 3], p % 4);
        a.push(v);
        p = p + 1;
    }
    let ghost h2 = had_cols(h1);
    let mut s: u64 = 0;
    let mut q: usize = 0;
    while q < 16
        invariant
            h1.len() == 16,
            h2 == had_cols(h1),
            a@.len() == 16,
            forall|i: int|
                0 <= i < 16 ==> #[trigger] a@[i] == h1[i] && -0x2_0000_0000 <= a@[i]
                    <= 0x2_0000_0000,
            q <= 16,
            s == sum_abs(h2, q as nat),
            s <= q * 0x8_0000_0000,
        decreases 16 - q,
    {
        let b: usize = q % 4;
        let v: i64 = had_exec(a[b], a[b + 4], a[b + 8], a[b + 12], q / 4);
        assert(v == h2[q as int]);
        let m: i64 = if v < 0 {
            -v
        } else {
            v
        };
        s = s + m as u64;
        q = q + 1;
    }
    s
}

proof fn lemma_block_start(b: int, w: int, h: int, c: int)
    requires
        predict::geometry_ok(w, c),
        0 <= h <= 0xffff,
        0 <= b < block_rows(h) * blocks_across(w, c),
    ensures
        ({
            let n = blocks_across(w, c);
            let at = block_start(b, w, c);
            let y = 16 * (b / n);
            let x = 4 * ((b % n) / c);
            let k = (b % n) % c;
            &&& n >= 1
            &&& 0 <= y
            &&& y + 4 <= h
            &&& 0 <= x
            &&& x + 4 <= w
            &&& 0 <= k < c
            &&& at == (y * w + x) * c + k
            &&& 0 <= (b / n) * (16 * (w * c))
            &&& 0 <= ((b % n) / c) * (4 * c)
        }),
{
    let n = blocks_across(w, c);
    let rows = block_rows(h);
    assert(n >= 1) by (nonlinear_arith)
        requires
            0 < rows * n,
            rows >= 0,
    ;
    vstd::arithmetic::div_mod::lemma_fundamental_div_mod(b, n);
    vstd::arithmetic::div_mod::lemma_div_pos_is_pos(b, n);
    let q = b / n;
    let r = b % n;
    assert(q < rows) by (nonlinear_arith)
        requires
            b == n * q + r,
            0 <= r,
            b < rows * n,
            n >= 1,
    ;
    vstd::arithmetic::div_mod::lemma_fundamental_div_mod(r, c);
    vstd::arithmetic::div_mod::lemma_div_pos_is_pos(r, c);
    let u = r / c;
    let k = r % c;
    assert(u < w / 4) by (nonlinear_arith)
        requires
            r == c * u + k,
            0 <= k,
            r < (w / 4) * c,
            c >= 1,
    ;
    assert(4 * q + 1 <= h / 4) by {
        assert(q <= rows - 1);
    }
    assert(q * (16 * (w * c)) + u * (4 * c) + k == (16 * q * w + 4 * u) * c + k) by (nonlinear_arith);
    assert(0 <= q * (16 * (w * c)) && 0 <= u * (4 * c)) by (nonlinear_arith)
        requires
            q >= 0,
            u >= 0,
            w >= 1,
            c >= 1,
    ;
}

proof fn lemma_block_place(y: int, x: int, k: int, w: int, h: int, c: int, p: int)
    requires
        predict::geometry_ok(w, c),
        0 <= y,
        y + 4 <= h,
        0 <= x,
        x + 4 <= w,
        0 <= k < c,
        0 <= p < 16,
    ensures
        ({
            let at = (y * w + x) * c + k;
            let i = block_place(at, w * c, c, p);
            &&& 0 <= at
            &&& 0 <= i < h * (w * c)
            &&& (i / c) % w == x + p % 4
            &&& 0 <= (p / 4) * (w * c) <= i
            &&& 0 <= (p % 4) * c <= i
        }),
{
    let at = (y * w + x) * c + k;
    let r = p / 4;
    let s = p % 4;
    let i = at + r * (w * c) + s * c;
    assert(i == ((y + r) * w + (x + s)) * c + k) by (nonlinear_arith)
        requires
            i == (y * w + x) * c + k + r * (w * c) + s * c,
    ;
    let q = (y + r) * w + (x + s);
    assert(0 <= q) by (nonlinear_arith)
        requires
            q == (y + r) * w + (x + s),
            y + r >= 0,
            w >= 1,
            x + s >= 0,
    ;
    vstd::arithmetic::div_mod::lemma_fundamental_div_mod_converse(i, c, q, k);
    vstd::arithmetic::div_mod::lemma_fundamental_div_mod_converse(q, w, y + r, x + s);
    assert(i < h * (w * c)) by (nonlinear_arith)
        requires
            i == q * c + k,
            q == (y + r) * w + (x + s),
            y + r < h,
            x + s < w,
            k < c,
            w >= 1,
            c >= 1,
    ;
    assert(0 <= at && 0 <= r * (w * c) && 0 <= s * c) by (nonlinear_arith)
        requires
            at == (y * w + x) * c + k,
            y >= 0,
            x >= 0,
            k >= 0,
            r >= 0,
            s >= 0,
            w >= 1,
            c >= 1,
    ;
}

/// The estimate by which modes are ordered: the residuals of some blocks, transformed and summed
/// up.
pub fn satd_for_mode_sampled(
    pixels: &[i32],
    width: usize,
    height: usize,
    components: usize,
    mode: PredictionMode,
) -> (s: u128)
    requires
        predict::geometry_ok(width as int, components as int),
        height <= 0xffff,
        pixels@.len() == height * (width * components),
        pixels@.len() <= u32::MAX,
    ensures
        s == satd(pixels@, width as int, height as int, components as int, mode),
{
    let ghost w = width as int;
    let ghost h = height as int;
    let ghost c = components as int;
    let total: usize = pixels.len();
    proof {
        assert(1 <= w * c <= 0xffff * 4) by (nonlinear_arith)
            requires
                1 <= w <= 0xffff,
                1 <= c <= 4,
        ;
        assert(0 <= (w / 4) * c <= 0x1_0000) by (nonlinear_arith)
            requires
                0 <= w / 4 <= 0x3fff,
                1 <= c <= 4,
        ;
        let a = (h / 4 + 3) / 4;
        let n = (w / 4) * c;
        assert(0 <= a * n <= 0x1000_0000) by (nonlinear_arith)
            requires
                0 <= a <= 0x1000,
                0 <= n <= 0x1_0000,
        ;
    }
    let stride: usize = width * components;
    let across: usize = (width / 4) * components;
    let n: usize = ((height / 4 + 3) / 4) * across;
    let mut s: u128 = 0;
    let mut b: usize = 0;
    while b < n
        invariant
            predict::geometry_ok(w, c),
            w == width,
            h == height,
            c == components,
            height <= 0xffff,
            stride == w * c,
            1 <= stride <= 0xffff * 4,
            across == blocks_across(w, c),
            n == block_rows(h) * blocks_across(w, c),
            n <= 0x1000_0000,
            total == pixels@.len(),
            pixels@.len() == h * (w * c),
            b <= n,
            s == sampled_satd(pixels@, w, c, mode, b as nat),
            s <= b * 0x100_0000_0000,
        decreases n - b,
    {
        proof {
            lemma_block_start(b as int, w, h, c);
        }
        let y: usize = 16 * (b / across);
        let x: usize = 4 * ((b % across) / components);
        let k: usize = (b % across) % components;
        proof {
            lemma_block_place(y as int, x as int, k as int, w, h, c, 0);
            assert(0 <= y * w) by (nonlinear_arith)
                requires
                    y >= 0,
                    w >= 1,
            ;
            assert((y * w + x) * c + k < h * (w * c));
            assert(y * w + x <= (y * w + x) * c) by (nonlinear_arith)
                requires
                    y * w + x >= 0,
                    c >= 1,
            ;
        }
        let at: usize = (y * width + x) * components + k;
        let ghost rs = block_residuals(pixels@, w, c, mode, at as int);
        let mut r: Vec<i64> = Vec::new();
        let mut p: usize = 0;
        while p < 16
            invariant
                predict::geometry_ok(w, c),
                w == width,
                h == height,
                c == components,
                stride == w * c,
                total == pixels@.len(),
                pixels@.len() == h * (w * c),
                at == (y * w + x) * c + k,
                0 <= y,
                y + 4 <= h,
                0 <= x,
                x + 4 <= w,
                0 <= k < c,
                rs == block_residuals(pixels@, w, c, mode, at as int),
                p <= 16,
                r@.len() == p,
                wide(r@) == rs.take(p as int),
                forall|i: int| 0 <= i < p ==> -0x8000_0000 <= #[trigger] r@[i] <= 0x8000_0000,
            decreases 16 - p,
        {
            proof {
                lemma_block_place(y as int, x as int, k as int, w, h, c, p as int);
            }
            let i: usize = at + (p / 4) * stride + (p % 4) * components;
            let g: i32 = predict_at(pixels, i, x + p % 4, components, width, mode);
            let v: i32 = pixels[i].wrapping_sub(g);
            let ghost before = wide(r@);
            r.push(v as i64);
            p = p + 1;
            assert(wide(r@) =~= before.push(v as int));
            assert(wide(r@) =~= rs.take(p as int));
        }
        assert(wide(r@) =~= rs);
        let v: u64 = hadamard(&r);
        s = s + v as u128;
        b = b + 1;
    }
    s
}

/// Of every fourth row, residuals whose magnitudes are all at least `lo` and at most `hi` are so on
/// average, and no other row counts.
pub proof fn law_sampled_sad(
    px: Seq<i32>,
    w: int,
    c: int,
    mode: PredictionMode,
    n: nat,
    lo: int,
    hi: int,
)
    requires
        w * c >= 1,
        lo >= 0,
        forall|i: int|
            0 <= i < n * (w * c) && (i / (w * c)) % 4 == 0 ==> ({
                let r = px[i].wrapping_sub(#[trigger] predict::predict_spec(px, i, w, c, mode));
                lo <= r <= hi || lo <= -r <= hi
            }),
    ensures
        lo * sampled_count(w, c, n as int) <= sampled_sad(px, w, c, mode, n) <= hi * sampled_count(
            w,
            c,
            n as int,
        ),
    decreases n,
{
    let s = w * c;
    if n > 0 {
        let y = n - 1;
        assert(0 <= y * s && (y + 1) * s == y * s + s && y * s <= n * s) by (nonlinear_arith)
            requires
                y == n - 1,
                y >= 0,
                s >= 0,
        ;
        law_sampled_sad(px, w, c, mode, y as nat, lo, hi);
        if y % 4 == 0 {
            let r = predict::residuals(px, w, c, mode, y * s, (y + 1) * s);
            assert forall|j: int| 0 <= j < r.len() implies (lo <= #[trigger] r[j] <= hi || lo
                <= -r[j] <= hi) by {
                let i = y * s + j;
                vstd::arithmetic::div_mod::lemma_fundamental_div_mod_converse(i, s, y, j);
                assert(r[j] == px[i].wrapping_sub(predict::predict_spec(px, i, w, c, mode)));
            }
            ranking::law_sum_mag(r, lo, hi);
            assert(r.len() == s);
            assert((y + 4) / 4 == (y + 3) / 4 + 1);
            let k = (y + 3) / 4;
            assert(lo * ((k + 1) * s) == lo * (k * s) + lo * s && hi * ((k + 1) * s) == hi * (k * s)
                + hi * s) by (nonlinear_arith);
        } else {
            assert((y + 4) / 4 == (y + 3) / 4);
        }
    } else {
        assert(lo * (0 * s) == 0 && hi * (0 * s) == 0) by (nonlinear_arith);
    }
}

/// Four samples are spread evenly over the four sums that are made of them, and doing so twice gives
/// each of them four times.
pub proof fn law_had(a: int, b: int, c: int, d: int, j: int)
    requires
        0 <= j < 4,
    ensures
        had(a, 0, 0, 0, j) == a || had(a, 0, 0, 0, j) == -a,
        had(0, b, 0, 0, j) == b || had(0, b, 0, 0, j) == -b,
        had(0, 0, c, 0, j) == c || had(0, 0, c, 0, j) == -c,
        had(0, 0, 0, d, j) == d || had(0, 0, 0, d, j) == -d,
        had(a, b, c, d, j) == had(a, 0, 0, 0, j) + had(0, b, 0, 0, j) + had(0, 0, c, 0, j) + had(
            0,
            0,
            0,
            d,
            j,
        ),
        ({
            let h = |k: int| had(a, b, c, d, k);
            had(h(0), h(1), h(2), h(3), j) == 4 * (if j == 0 {
                a
            } else if j == 1 {
                b
            } else if j == 2 {
                c
            } else {
                d
            })
        }),
{
}

proof fn lemma_had_zero(a: int, b: int, c: int, d: int)
    ensures
        (had(a, b, c, d, 0) == 0 && had(a, b, c, d, 1) == 0 && had(a, b, c, d, 2) == 0 && had(
            a,
            b,
            c,
            d,
            3,
        ) == 0) <==> (a == 0 && b == 0 && c == 0 && d == 0),
{
}

spec fn all_zero(r: Seq<int>) -> bool {
    forall|p: int| 0 <= p < 16 ==> #[trigger] r[p] == 0
}

proof fn lemma_row(r: Seq<int>, k: int)
    requires
        k == 0 || k == 4 || k == 8 || k == 12,
    ensures
        ({
            let q = had_rows(r);
            (q[k] == 0 && q[k + 1] == 0 && q[k + 2] == 0 && q[k + 3] == 0) <==> (r[k] == 0 && r[k
                + 1] == 0 && r[k + 2] == 0 && r[k + 3] == 0)
        }),
{
    lemma_had_zero(r[k], r[k + 1], r[k + 2], r[k + 3]);
    assert(k / 4 * 4 == k && (k + 1) / 4 * 4 == k && (k + 2) / 4 * 4 == k && (k + 3) / 4 * 4 == k);
}

proof fn lemma_col(r: Seq<int>, k: int)
    requires
        0 <= k < 4,
    ensures
        ({
            let q = had_cols(r);
            (q[k] == 0 && q[k + 4] == 0 && q[k + 8] == 0 && q[k + 12] == 0) <==> (r[k] == 0 && r[k
                + 4] == 0 && r[k + 8] == 0 && r[k + 12] == 0)
        }),
{
    lemma_had_zero(r[k], r[k + 4], r[k + 8], r[k + 12]);
}

proof fn lemma_all_zero(r: Seq<int>)
    ensures
        all_zero(r) <==> (r[0] == 0 && r[1] == 0 && r[2] == 0 && r[3] == 0 && r[4] == 0 && r[5] == 0
            && r[6] == 0 && r[7] == 0 && r[8] == 0 && r[9] == 0 && r[10] == 0 && r[11] == 0
            && r[12] == 0 && r[13] == 0 && r[14] == 0 && r[15] == 0),
{
}

/// A block costs nothing if, and only if, it is predicted exactly.
pub proof fn law_block_satd(px: Seq<i32>, w: int, c: int, mode: PredictionMode, at: int)
    ensures
        block_satd(px, w, c, mode, at) >= 0,
        block_satd(px, w, c, mode, at) == 0 <==> forall|p: int|
            0 <= p < 16 ==> #[trigger] block_residuals(px, w, c, mode, at)[p] == 0,
{
    let r = block_residuals(px, w, c, mode, at);
    let q = had_rows(r);
    let t = had_cols(q);
    lemma_sum_abs_zero(t, 16);
    lemma_transformed_zero(r);
    assert(all_zero(t) <==> all_zero(r));
    if all_zero(r) {
        assert(forall|p: int| 0 <= p < 16 ==> #[trigger] r[p] == 0);
    }
}

proof fn lemma_transformed_zero(r: Seq<int>)
    ensures
        all_zero(had_cols(had_rows(r))) <==> all_zero(r),
{
    let q = had_rows(r);
    let t = had_cols(q);
    lemma_row(r, 0);
    lemma_row(r, 4);
    lemma_row(r, 8);
    lemma_row(r, 12);
    lemma_col(q, 0);
    lemma_col(q, 1);
    lemma_col(q, 2);
    lemma_col(q, 3);
    lemma_all_zero(r);
    lemma_all_zero(q);
    lemma_all_zero(t);
}

proof fn lemma_sum_abs_zero(r: Seq<int>, n: nat)
    ensures
        sum_abs(r, n) >= 0,
        sum_abs(r, n) == 0 <==> forall|i: int| 0 <= i < n ==> #[trigger] r[i] == 0,
    decreases n,
{
    if n > 0 {
        lemma_sum_abs_zero(r, (n - 1) as nat);
        if sum_abs(r, n) == 0 {
            assert forall|i: int| 0 <= i < n implies #[trigger] r[i] == 0 by {
                assert(sum_abs(r, (n - 1) as nat) == 0);
                assert(predict::abs(r[n - 1]) == 0);
            }
        }
    }
}

} // verus!

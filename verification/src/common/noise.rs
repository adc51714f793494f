//! Noise and texture of differences, band by band of rows.

use vstd::prelude::*;
use crate::common::blocks;
use crate::common::blocks::div_up;
use crate::common::domain::BAND_HEIGHT;
use crate::common::predict;

verus! {

/// Number of bands of an image `h` rows high.
pub open spec fn band_count(h: int) -> int {
    blocks::tiles_along(h, BAND_HEIGHT as int)
}

/// First row of band `b`.
pub open spec fn band_row(b: int, h: int) -> int {
    if b * BAND_HEIGHT < h {
        b * BAND_HEIGHT
    } else {
        h
    }
}

/// The samples of band `b`, in an image with `stride` samples to a row.
pub open spec fn band(px: Seq<i32>, stride: int, h: int, b: int) -> Seq<i32> {
    px.subrange(band_row(b, h) * stride, band_row(b + 1, h) * stride)
}

/// Sum of samples.
pub open spec fn total(s: Seq<i32>) -> int
    decreases s.len(),
{
    if s.len() == 0 {
        0
    } else {
        total(s.drop_last()) + s.last()
    }
}

/// Sum of magnitudes.
pub open spec fn total_mag(s: Seq<i32>) -> int
    decreases s.len(),
{
    if s.len() == 0 {
        0
    } else {
        total_mag(s.drop_last()) + predict::abs(s.last() as int)
    }
}

/// Whether samples lie on both sides of zero: their mean is at most a quarter of the mean magnitude.
pub open spec fn centred(s: Seq<i32>) -> bool {
    4 * predict::abs(total(s)) <= total_mag(s)
}

/// Below what magnitude the samples of a band are noise: a share of the mean magnitude, if they are
/// centred.
pub open spec fn threshold(s: Seq<i32>, tau_x100: u16) -> int {
    if s.len() > 0 && centred(s) {
        (total_mag(s) * tau_x100) / (s.len() * 100) as int
    } else {
        0
    }
}

/// A sample drawn towards zero by `t`.
pub open spec fn drawn(v: i32, t: int) -> i32 {
    if predict::abs(v as int) <= t {
        0
    } else if v < 0 {
        (v + t) as i32
    } else {
        (v - t) as i32
    }
}

/// An image with noise taken out.
pub open spec fn denoised(px: Seq<i32>, stride: int, h: int, tau_x100: u16) -> Seq<i32> {
    Seq::new(
        px.len(),
        |i: int| drawn(px[i], threshold(band(px, stride, h, i / stride / 32), tau_x100)),
    )
}

/// Samples drawn towards zero, those of each band by its own limit.
pub open spec fn drawn_by(px: Seq<i32>, stride: int, limits: Seq<i64>) -> Seq<i32> {
    Seq::new(px.len(), |i: int| drawn(px[i], limits[i / stride / 32] as int))
}

/// The step of a band of which only noise is left: a quarter more.
pub open spec fn noise_step(s: Seq<i32>, step: u8, tau_x100: u16) -> u8 {
    if s.len() > 0 && centred(s) && total_mag(s) * 100 <= tau_x100 * step * s.len() {
        let v = step + step / 4;
        if v > 255 {
            255
        } else {
            v as u8
        }
    } else {
        step
    }
}

/// The steps of all bands by noise.
pub open spec fn noise_steps(px: Seq<i32>, stride: int, h: int, step: u8, tau_x100: u16) -> Seq<u8> {
    Seq::new(band_count(h) as nat, |b: int| noise_step(band(px, stride, h, b), step, tau_x100))
}

/// The difference of sample `i` to the one of the pixel to the left, if there is one in its row.
pub open spec fn slope(px: Seq<i32>, stride: int, c: int, i: int) -> int {
    if i % stride < c {
        0
    } else {
        predict::abs(px[i] - px[i - c])
    }
}

/// Sum of such differences from sample `lo` on, over `n` samples.
pub open spec fn slopes(px: Seq<i32>, stride: int, c: int, lo: int, n: nat) -> int
    decreases n,
{
    if n == 0 {
        0
    } else {
        slopes(px, stride, c, lo, (n - 1) as nat) + slope(px, stride, c, lo + n - 1)
    }
}

/// Largest of such differences.
pub open spec fn steepest(px: Seq<i32>, stride: int, c: int, lo: int, n: nat) -> int
    decreases n,
{
    if n == 0 {
        0
    } else {
        predict::max2(
            steepest(px, stride, c, lo, (n - 1) as nat),
            slope(px, stride, c, lo + n - 1),
        )
    }
}

/// How texture, flat stretches and edges change a step, in percent.
#[derive(Clone, Copy)]
pub struct Masking {
    pub texture_x100: u16,
    pub flat_x100: u16,
    pub edge_x100: u16,
}

/// From what difference on there is an edge.
pub const EDGE_FROM: u32 = 64;

/// A step changed by a percentage.
pub open spec fn scaled(step: u8, x100: u16) -> u8 {
    let v = (step * x100) / 100;
    if v < 1 {
        1
    } else if v > 255 {
        255
    } else {
        v as u8
    }
}

/// The step of a band of `n` samples whose differences sum up to `sum`, the largest of them `top`.
pub open spec fn masked_step(sum: int, top: int, n: int, step: u8, m: Masking) -> u8 {
    if step == 0 {
        0
    } else if sum == 0 {
        scaled(step, m.flat_x100)
    } else if top >= EDGE_FROM {
        scaled(step, m.edge_x100)
    } else if sum >= 2 * step * n {
        scaled(step, m.texture_x100)
    } else {
        step
    }
}

/// The steps of all bands by texture.
pub open spec fn activity_steps(
    px: Seq<i32>,
    stride: int,
    h: int,
    c: int,
    step: u8,
    m: Masking,
) -> Seq<u8> {
    Seq::new(
        band_count(h) as nat,
        |b: int|
            {
                let lo = band_row(b, h) * stride;
                let n = (band_row(b + 1, h) * stride - lo) as nat;
                masked_step(
                    slopes(px, stride, c, lo, n),
                    steepest(px, stride, c, lo, n),
                    n as int,
                    step,
                    m,
                )
            },
    )
}

/// An image that is cut into bands.
pub open spec fn image_ok(px: Seq<i32>, stride: int, h: int) -> bool {
    1 <= stride <= 0x4_0000 && 0 <= h <= 0xffff && px.len() == h * stride && px.len() <= 0xffff_fffe
}

proof fn lemma_band(px: Seq<i32>, stride: int, h: int, b: int)
    requires
        image_ok(px, stride, h),
        b >= 0,
    ensures
        0 <= band_row(b, h) <= band_row(b + 1, h) <= h,
        0 <= band_row(b, h) * stride <= band_row(b + 1, h) * stride <= px.len(),
{
    let (r, q) = (band_row(b, h), band_row(b + 1, h));
    assert(0 <= r * stride <= q * stride <= h * stride) by (nonlinear_arith)
        requires
            0 <= r <= q <= h,
            stride >= 0,
    ;
}

fn band_bounds(stride: usize, h: usize, b: usize, Ghost(px): Ghost<Seq<i32>>) -> (r: (usize, usize))
    requires
        image_ok(px, stride as int, h as int),
        b < band_count(h as int),
    ensures
        r.0 == band_row(b as int, h as int) * stride,
        r.1 == band_row(b + 1, h as int) * stride,
        r.0 <= r.1 <= px.len(),
{
    proof {
        lemma_band(px, stride as int, h as int, b as int);
        blocks::lemma_tiles_along(h as int, 32, b as int);
    }
    let y0: usize = b * BAND_HEIGHT;
    let y1: usize = if h - y0 < BAND_HEIGHT {
        h
    } else {
        y0 + BAND_HEIGHT
    };
    (y0 * stride, y1 * stride)
}

/// Sum and sum of magnitudes of the samples from `lo` to `hi`.
pub fn sums(px: &[i32], lo: usize, hi: usize) -> (r: (i64, i64))
    requires
        lo <= hi <= px@.len(),
        hi - lo <= 0xffff_fffe,
    ensures
        r.0 == total(px@.subrange(lo as int, hi as int)),
        r.1 == total_mag(px@.subrange(lo as int, hi as int)),
        0 <= r.1 <= (hi - lo) * 0x8000_0000,
        -r.1 <= r.0 <= r.1,
{
    let mut s: i64 = 0;
    let mut m: i64 = 0;
    let mut i: usize = lo;
    assert(px@.subrange(lo as int, lo as int) =~= Seq::<i32>::empty());
    while i < hi
        invariant
            lo <= i <= hi <= px@.len(),
            hi - lo <= 0xffff_fffe,
            s == total(px@.subrange(lo as int, i as int)),
            m == total_mag(px@.subrange(lo as int, i as int)),
            0 <= m <= (i - lo) * 0x8000_0000,
            -m <= s <= m,
        decreases hi - i,
    {
        proof {
            assert(px@.subrange(lo as int, i + 1).drop_last() =~= px@.subrange(
                lo as int,
                i as int,
            ));
        }
        let v: i64 = px[i] as i64;
        s = s + v;
        m = m + if v < 0 {
            -v
        } else {
            v
        };
        i = i + 1;
    }
    (s, m)
}

fn is_centred(s: i64, m: i64) -> (b: bool)
    requires
        0 <= m <= 0xffff_fffe * 0x8000_0000,
        -m <= s <= m,
    ensures
        b == (4 * predict::abs(s as int) <= m),
{
    let a: i128 = if s < 0 {
        -(s as i128)
    } else {
        s as i128
    };
    4 * a <= m as i128
}

/// Below what magnitudes the samples of each band are noise.
pub fn estimate_interleaved_band_thresholds(
    pixels: &[i32],
    width: usize,
    height: usize,
    components: usize,
    tau_x100: u16,
) -> (out: Vec<i64>)
    requires
        predict::geometry_ok(width as int, components as int),
        image_ok(pixels@, width * components, height as int),
    ensures
        out@.len() == band_count(height as int),
        forall|b: int|
            0 <= b < out@.len() ==> #[trigger] out@[b] == threshold(
                band(pixels@, width * components, height as int, b),
                tau_x100,
            ) && 0 <= out@[b] <= 0x8000_0000 * 0x1_0000,
{
    let stride: usize = width * components;
    let n: usize = div_up(height, BAND_HEIGHT);
    let mut out: Vec<i64> = Vec::new();
    let mut b: usize = 0;
    while b < n
        invariant
            stride == width * components,
            image_ok(pixels@, stride as int, height as int),
            n == band_count(height as int),
            b <= n,
            out@.len() == b,
            forall|j: int|
                0 <= j < b ==> #[trigger] out@[j] == threshold(
                    band(pixels@, stride as int, height as int, j),
                    tau_x100,
                ) && 0 <= out@[j] <= 0x8000_0000 * 0x1_0000,
        decreases n - b,
    {
        let (lo, hi) = band_bounds(stride, height, b, Ghost(pixels@));
        let (s, m) = sums(pixels, lo, hi);
        let len: usize = hi - lo;
        let t: i64 = if len > 0 && is_centred(s, m) {
            proof {
                assert(0 <= m * tau_x100 <= 0xffff_fffe * 0x8000_0000 * 0xffff) by (nonlinear_arith)
                    requires
                        0 <= m <= 0xffff_fffe * 0x8000_0000,
                        0 <= tau_x100 <= 0xffff,
                ;
                let q = (m * tau_x100) / (len * 100);
                assert(0 <= q <= 0x8000_0000 * 0x1_0000) by (nonlinear_arith)
                    requires
                        q == (m * tau_x100) / (len * 100),
                        0 <= m <= len * 0x8000_0000,
                        0 <= tau_x100 <= 0xffff,
                        len >= 1,
                ;
            }
            ((m as i128 * tau_x100 as i128) / (len as i128 * 100)) as i64
        } else {
            0
        };
        out.push(t);
        b = b + 1;
    }
    out
}

fn draw(v: i32, t: i64) -> (r: i32)
    requires
        0 <= t <= 0x8000_0000 * 0x1_0000,
    ensures
        r == drawn(v, t as int),
{
    let w: i64 = v as i64;
    let a: i64 = if w < 0 {
        -w
    } else {
        w
    };
    if a <= t {
        0
    } else if w < 0 {
        (w + t) as i32
    } else {
        (w - t) as i32
    }
}

/// Band of sample `i`.
proof fn lemma_band_of(px: Seq<i32>, stride: int, h: int, i: int)
    requires
        image_ok(px, stride, h),
        0 <= i < px.len(),
    ensures
        0 <= i / stride / 32 < band_count(h),
{
    let y = i / stride;
    vstd::arithmetic::div_mod::lemma_fundamental_div_mod(i, stride);
    vstd::arithmetic::div_mod::lemma_div_pos_is_pos(i, stride);
    assert(y < h) by (nonlinear_arith)
        requires
            i == stride * y + i % stride,
            0 <= i % stride,
            i < h * stride,
            stride >= 1,
    ;
    blocks::lemma_tiles_along(h, 32, y / 32);
}

/// Noise is taken out by the thresholds of the bands.
pub proof fn lemma_denoised(px: Seq<i32>, stride: int, h: int, tau_x100: u16, limits: Seq<i64>)
    requires
        image_ok(px, stride, h),
        limits.len() == band_count(h),
        forall|b: int|
            0 <= b < limits.len() ==> #[trigger] limits[b] == threshold(
                band(px, stride, h, b),
                tau_x100,
            ),
    ensures
        drawn_by(px, stride, limits) == denoised(px, stride, h, tau_x100),
{
    assert forall|i: int| 0 <= i < px.len() implies drawn_by(px, stride, limits)[i] == denoised(
        px,
        stride,
        h,
        tau_x100,
    )[i] by {
        lemma_band_of(px, stride, h, i);
        assert(limits[i / stride / 32] == threshold(band(px, stride, h, i / stride / 32), tau_x100));
    }
    assert(drawn_by(px, stride, limits) =~= denoised(px, stride, h, tau_x100));
}

/// Draws samples towards zero, those of each band by its own limit.
pub fn soft_threshold_interleaved(
    pixels: &[i32],
    width: usize,
    height: usize,
    components: usize,
    thresholds: &Vec<i64>,
) -> (out: Vec<i32>)
    requires
        predict::geometry_ok(width as int, components as int),
        image_ok(pixels@, width * components, height as int),
        thresholds@.len() == band_count(height as int),
        forall|b: int|
            0 <= b < thresholds@.len() ==> 0 <= #[trigger] thresholds@[b] <= 0x8000_0000 * 0x1_0000,
    ensures
        out@ == drawn_by(pixels@, width * components, thresholds@),
{
    let stride: usize = width * components;
    let ghost all = drawn_by(pixels@, stride as int, thresholds@);
    let mut out: Vec<i32> = Vec::new();
    let mut i: usize = 0;
    while i < pixels.len()
        invariant
            stride == width * components,
            image_ok(pixels@, stride as int, height as int),
            thresholds@.len() == band_count(height as int),
            forall|b: int|
                0 <= b < thresholds@.len() ==> 0 <= #[trigger] thresholds@[b] <= 0x8000_0000
                    * 0x1_0000,
            all == drawn_by(pixels@, stride as int, thresholds@),
            i <= pixels@.len(),
            out@ == all.take(i as int),
        decreases pixels@.len() - i,
    {
        proof {
            lemma_band_of(pixels@, stride as int, height as int, i as int);
        }
        let b: usize = i / stride / BAND_HEIGHT;
        let v: i32 = draw(pixels[i], thresholds[b]);
        out.push(v);
        i = i + 1;
        assert(out@ =~= all.take(i as int));
    }
    assert(out@ =~= all);
    out
}

/// The step of each band by its noise.
pub fn estimate_band_quant_steps(
    pixels: &[i32],
    width: usize,
    height: usize,
    components: usize,
    step: u8,
    tau_x100: u16,
) -> (out: Vec<u8>)
    requires
        predict::geometry_ok(width as int, components as int),
        image_ok(pixels@, width * components, height as int),
    ensures
        out@ == noise_steps(pixels@, width * components, height as int, step, tau_x100),
{
    let stride: usize = width * components;
    let n: usize = div_up(height, BAND_HEIGHT);
    let ghost all = noise_steps(pixels@, stride as int, height as int, step, tau_x100);
    proof {
        blocks::lemma_tiles_along(height as int, 32, 0);
    }
    let mut out: Vec<u8> = Vec::new();
    let mut b: usize = 0;
    while b < n
        invariant
            stride == width * components,
            image_ok(pixels@, stride as int, height as int),
            n == band_count(height as int),
            all == noise_steps(pixels@, stride as int, height as int, step, tau_x100),
            all.len() == n,
            b <= n,
            out@ == all.take(b as int),
        decreases n - b,
    {
        let (lo, hi) = band_bounds(stride, height, b, Ghost(pixels@));
        let (s, m) = sums(pixels, lo, hi);
        let len: usize = hi - lo;
        proof {
            assert(0 <= tau_x100 * step <= 0xffff * 255) by (nonlinear_arith)
                requires
                    0 <= tau_x100 <= 0xffff,
                    0 <= step <= 255,
            ;
            assert(0 <= tau_x100 * step * len <= 0xffff * 255 * 0xffff_fffe) by (nonlinear_arith)
                requires
                    0 <= tau_x100 <= 0xffff,
                    0 <= step <= 255,
                    0 <= len <= 0xffff_fffe,
            ;
        }
        let quiet: bool = len > 0 && is_centred(s, m) && m as i128 * 100 <= tau_x100 as i128
            * step as i128 * len as i128;
        let v: u16 = step as u16 + (step / 4) as u16;
        let r: u8 = if !quiet {
            step
        } else if v > 255 {
            255
        } else {
            v as u8
        };
        out.push(r);
        b = b + 1;
        assert(out@ =~= all.take(b as int));
    }
    assert(out@ =~= all);
    out
}

fn scale(step: u8, x100: u16) -> (r: u8)
    ensures
        r == scaled(step, x100),
{
    proof {
        assert(0 <= step * x100 <= 255 * 0xffff) by (nonlinear_arith)
            requires
                0 <= step <= 255,
                0 <= x100 <= 0xffff,
        ;
    }
    let v: u32 = (step as u32 * x100 as u32) / 100;
    if v < 1 {
        1
    } else if v > 255 {
        255
    } else {
        v as u8
    }
}

fn slope_sums(px: &[i32], stride: usize, c: usize, lo: usize, n: usize) -> (r: (u64, u64))
    requires
        1 <= c <= stride,
        lo + n <= px@.len(),
        n <= 0xffff_fffe,
    ensures
        r.0 == slopes(px@, stride as int, c as int, lo as int, n as nat),
        r.1 == steepest(px@, stride as int, c as int, lo as int, n as nat),
{
    let len: usize = px.len();
    let mut sum: u64 = 0;
    let mut top: u64 = 0;
    let mut k: usize = 0;
    while k < n
        invariant
            1 <= c <= stride,
            len == px@.len(),
            lo + n <= len,
            n <= 0xffff_fffe,
            k <= n,
            sum == slopes(px@, stride as int, c as int, lo as int, k as nat),
            top == steepest(px@, stride as int, c as int, lo as int, k as nat),
            sum <= k * 0x1_0000_0000,
        decreases n - k,
    {
        let i: usize = lo + k;
        let d: u64 = if i % stride < c {
            0
        } else {
            proof {
                vstd::arithmetic::div_mod::lemma_mod_decreases(i as nat, stride as nat);
            }
            let a: i64 = px[i] as i64 - px[i - c] as i64;
            if a < 0 {
                (-a) as u64
            } else {
                a as u64
            }
        };
        sum = sum + d;
        if top < d {
            top = d;
        }
        k = k + 1;
    }
    (sum, top)
}

/// The step of each band by its texture.
pub fn estimate_band_activity_steps(
    pixels: &[i32],
    width: usize,
    height: usize,
    components: usize,
    step: u8,
    masking: Masking,
) -> (out: Vec<u8>)
    requires
        predict::geometry_ok(width as int, components as int),
        image_ok(pixels@, width * components, height as int),
    ensures
        out@ == activity_steps(
            pixels@,
            width * components,
            height as int,
            components as int,
            step,
            masking,
        ),
{
    let stride: usize = width * components;
    let n: usize = div_up(height, BAND_HEIGHT);
    let ghost c = components as int;
    let ghost all = activity_steps(pixels@, stride as int, height as int, c, step, masking);
    proof {
        blocks::lemma_tiles_along(height as int, 32, 0);
        assert(components <= stride) by (nonlinear_arith)
            requires
                stride == width * components,
                width >= 1,
        ;
    }
    let mut out: Vec<u8> = Vec::new();
    let mut b: usize = 0;
    while b < n
        invariant
            1 <= components <= stride,
            c == components,
            image_ok(pixels@, stride as int, height as int),
            n == band_count(height as int),
            all == activity_steps(pixels@, stride as int, height as int, c, step, masking),
            all.len() == n,
            b <= n,
            out@ == all.take(b as int),
        decreases n - b,
    {
        let (lo, hi) = band_bounds(stride, height, b, Ghost(pixels@));
        let len: usize = hi - lo;
        let (sum, top) = slope_sums(pixels, stride, components, lo, len);
        proof {
            assert(0 <= 2 * step * len <= 2 * 255 * 0xffff_fffe) by (nonlinear_arith)
                requires
                    0 <= step <= 255,
                    0 <= len <= 0xffff_fffe,
            ;
        }
        let r: u8 = if step == 0 {
            0
        } else if sum == 0 {
            scale(step, masking.flat_x100)
        } else if top >= EDGE_FROM as u64 {
            scale(step, masking.edge_x100)
        } else if sum >= 2 * step as u64 * len as u64 {
            scale(step, masking.texture_x100)
        } else {
            step
        };
        out.push(r);
        b = b + 1;
        assert(out@ =~= all.take(b as int));
    }
    assert(out@ =~= all);
    out
}

/// The sum of magnitudes is no less than the sum, and lies between as many times the least and the
/// largest magnitude as there are samples.
pub proof fn law_total_mag(s: Seq<i32>, lo: int, hi: int)
    requires
        forall|i: int|
            0 <= i < s.len() ==> (lo <= #[trigger] s[i] <= hi || lo <= -s[i] <= hi),
        0 <= lo,
    ensures
        lo * s.len() <= total_mag(s) <= hi * s.len(),
        -total_mag(s) <= total(s) <= total_mag(s),
    decreases s.len(),
{
    if s.len() == 0 {
        assert(lo * 0 == 0 && hi * 0 == 0);
    } else {
        let t = s.drop_last();
        assert forall|i: int| 0 <= i < t.len() implies (lo <= #[trigger] t[i] <= hi || lo <= -t[i]
            <= hi) by {
            assert(t[i] == s[i]);
        }
        law_total_mag(t, lo, hi);
        assert(s.last() == s[s.len() - 1]);
        assert(lo * s.len() == lo * t.len() + lo && hi * s.len() == hi * t.len() + hi)
            by (nonlinear_arith)
            requires
                s.len() == t.len() + 1,
        ;
    }
}

proof fn lemma_total_signs(s: Seq<i32>)
    ensures
        (forall|i: int| 0 <= i < s.len() ==> #[trigger] s[i] >= 0) ==> total(s) == total_mag(s),
        (forall|i: int| 0 <= i < s.len() ==> #[trigger] s[i] <= 0) ==> total(s) == -total_mag(s),
        total_mag(s) >= 0,
        total_mag(s) == 0 ==> forall|i: int| 0 <= i < s.len() ==> #[trigger] s[i] == 0,
    decreases s.len(),
{
    if s.len() > 0 {
        let t = s.drop_last();
        lemma_total_signs(t);
        assert(s.last() == s[s.len() - 1]);
        if forall|i: int| 0 <= i < s.len() ==> #[trigger] s[i] >= 0 {
            assert forall|i: int| 0 <= i < t.len() implies #[trigger] t[i] >= 0 by {
                assert(t[i] == s[i]);
            }
        }
        if forall|i: int| 0 <= i < s.len() ==> #[trigger] s[i] <= 0 {
            assert forall|i: int| 0 <= i < t.len() implies #[trigger] t[i] <= 0 by {
                assert(t[i] == s[i]);
            }
        }
        if total_mag(s) == 0 {
            assert forall|i: int| 0 <= i < s.len() implies #[trigger] s[i] == 0 by {
                if i < t.len() {
                    assert(t[i] == s[i]);
                }
            }
        }
    }
}

/// Drawing a sample towards zero by `t` moves it by no more than `t`, never past zero, and takes away
/// all of a sample that is no further from zero.
pub proof fn law_drawn(v: i32, t: int)
    requires
        0 <= t,
    ensures
        v >= 0 ==> 0 <= drawn(v, t) <= v && v - drawn(v, t) <= t,
        v <= 0 ==> v <= drawn(v, t) <= 0 && drawn(v, t) - v <= t,
        v > t ==> drawn(v, t) == v - t,
        v < -t ==> drawn(v, t) == v + t,
{
}

/// The noise of samples is `tau` hundredths of their mean magnitude, rounded down, if their sum is no
/// more than a quarter of the sum of their magnitudes; samples that lean to one side have none.
pub proof fn law_threshold(s: Seq<i32>, tau_x100: u16, m: int)
    requires
        s.len() >= 1,
        m >= 0,
        forall|i: int| 0 <= i < s.len() ==> -m <= #[trigger] s[i] <= m,
    ensures
        0 <= threshold(s, tau_x100),
        100 * threshold(s, tau_x100) <= m * tau_x100,
        -total_mag(s) <= 4 * total(s) <= total_mag(s) ==> threshold(s, tau_x100) * (100 * s.len())
            <= total_mag(s) * tau_x100 < (threshold(s, tau_x100) + 1) * (100 * s.len()),
        !(-total_mag(s) <= 4 * total(s) <= total_mag(s)) ==> threshold(s, tau_x100) == 0,
        (forall|i: int| 0 <= i < s.len() ==> #[trigger] s[i] >= 0) ==> threshold(s, tau_x100) == 0,
        (forall|i: int| 0 <= i < s.len() ==> #[trigger] s[i] <= 0) ==> threshold(s, tau_x100) == 0,
{
    lemma_total_signs(s);
    assert forall|i: int| 0 <= i < s.len() implies (0 <= #[trigger] s[i] <= m || 0 <= -s[i]
        <= m) by {
        assert(-m <= s[i] <= m);
    }
    law_total_mag(s, 0, m);
    let (n, d) = (total_mag(s) * tau_x100, (s.len() * 100) as int);
    assert(0 <= n <= (m * s.len()) * tau_x100) by (nonlinear_arith)
        requires
            n == total_mag(s) * tau_x100,
            0 <= total_mag(s) <= m * s.len(),
            tau_x100 >= 0,
    ;
    vstd::arithmetic::div_mod::lemma_fundamental_div_mod(n, d);
    vstd::arithmetic::div_mod::lemma_mod_bound(n, d);
    vstd::arithmetic::div_mod::lemma_div_pos_is_pos(n, d);
    let t = n / d;
    assert(t * d == d * t) by (nonlinear_arith);
    assert((t + 1) * d == d * t + d) by (nonlinear_arith);
    assert(100 * t <= m * tau_x100) by (nonlinear_arith)
        requires
            d * t <= (m * s.len()) * tau_x100,
            d == s.len() * 100,
            s.len() >= 1,
    ;
    assert(0 <= m * tau_x100) by (nonlinear_arith)
        requires
            m >= 0,
            tau_x100 >= 0,
    ;
    if total_mag(s) == 0 {
        assert(n == 0) by (nonlinear_arith)
            requires
                n == total_mag(s) * tau_x100,
                total_mag(s) == 0,
        ;
    }
}

proof fn lemma_band_sample(px: Seq<i32>, stride: int, h: int, i: int, k: int)
    requires
        image_ok(px, stride, h),
        0 <= i < px.len(),
        0 <= k < band(px, stride, h, i / stride / 32).len(),
    ensures
        ({
            let b = i / stride / 32;
            let j = band_row(b, h) * stride + k;
            &&& 0 <= j < px.len()
            &&& j / stride / 32 == b
            &&& band(px, stride, h, b)[k] == px[j]
        }),
{
    let b = i / stride / 32;
    lemma_band_of(px, stride, h, i);
    lemma_band(px, stride, h, b);
    blocks::lemma_tiles_along(h, 32, b);
    let (r, q) = (band_row(b, h), band_row(b + 1, h));
    let j = r * stride + k;
    assert(r == 32 * b && q <= 32 * b + 32);
    vstd::arithmetic::div_mod::lemma_fundamental_div_mod(j, stride);
    vstd::arithmetic::div_mod::lemma_mod_bound(j, stride);
    let y = j / stride;
    assert(r <= y < q) by (nonlinear_arith)
        requires
            j == stride * y + j % stride,
            0 <= j % stride < stride,
            r * stride <= j < q * stride,
            stride >= 1,
    ;
}

proof fn lemma_band_holds(px: Seq<i32>, stride: int, h: int, i: int) -> (k: int)
    requires
        image_ok(px, stride, h),
        0 <= i < px.len(),
    ensures
        0 <= k < band(px, stride, h, i / stride / 32).len(),
{
    let b = i / stride / 32;
    lemma_band_of(px, stride, h, i);
    lemma_band(px, stride, h, b);
    blocks::lemma_tiles_along(h, 32, b);
    let (r, q) = (band_row(b, h), band_row(b + 1, h));
    assert(r < q);
    assert(r * stride < q * stride) by (nonlinear_arith)
        requires
            r < q,
            stride >= 1,
    ;
    0
}

/// Taking out noise moves no sample by more than `tau` hundredths of the largest magnitude in its own
/// band of 32 rows, never past zero nor away from it; a band whose samples all lean to one side keeps
/// them.
pub proof fn law_denoised(px: Seq<i32>, stride: int, h: int, tau_x100: u16, i: int, m: int)
    requires
        image_ok(px, stride, h),
        0 <= i < px.len(),
        m >= 0,
        forall|j: int|
            0 <= j < px.len() && j / stride / 32 == i / stride / 32 ==> -m <= #[trigger] px[j] <= m,
    ensures
        ({
            let d = denoised(px, stride, h, tau_x100);
            &&& d.len() == px.len()
            &&& -(m * tau_x100) <= 100 * (d[i] - px[i]) <= m * tau_x100
            &&& px[i] >= 0 ==> 0 <= d[i] <= px[i]
            &&& px[i] <= 0 ==> px[i] <= d[i] <= 0
            &&& (forall|j: int|
                0 <= j < px.len() && j / stride / 32 == i / stride / 32 ==> #[trigger] px[j] >= 0)
                ==> d[i] == px[i]
            &&& (forall|j: int|
                0 <= j < px.len() && j / stride / 32 == i / stride / 32 ==> #[trigger] px[j] <= 0)
                ==> d[i] == px[i]
        }),
{
    let b = i / stride / 32;
    let s = band(px, stride, h, b);
    let _k = lemma_band_holds(px, stride, h, i);
    assert forall|k: int| 0 <= k < s.len() implies -m <= #[trigger] s[k] <= m by {
        lemma_band_sample(px, stride, h, i, k);
        assert(-m <= px[band_row(b, h) * stride + k] <= m);
    }
    law_threshold(s, tau_x100, m);
    law_drawn(px[i], threshold(s, tau_x100));
    if forall|j: int|
        0 <= j < px.len() && j / stride / 32 == i / stride / 32 ==> #[trigger] px[j] >= 0 {
        assert forall|k: int| 0 <= k < s.len() implies #[trigger] s[k] >= 0 by {
            lemma_band_sample(px, stride, h, i, k);
            assert(px[band_row(b, h) * stride + k] >= 0);
        }
    }
    if forall|j: int|
        0 <= j < px.len() && j / stride / 32 == i / stride / 32 ==> #[trigger] px[j] <= 0 {
        assert forall|k: int| 0 <= k < s.len() implies #[trigger] s[k] <= 0 by {
            lemma_band_sample(px, stride, h, i, k);
            assert(px[band_row(b, h) * stride + k] <= 0);
        }
    }
}

/// The step of a band is raised by a quarter at most, and only where the band is quiet: its samples
/// lean to no side, and are within `tau` hundredths of the step on average.
pub proof fn law_noise_steps(px: Seq<i32>, stride: int, h: int, step: u8, tau_x100: u16, b: int)
    requires
        image_ok(px, stride, h),
        0 <= b < (h + 31) / 32,
    ensures
        ({
            let t = noise_steps(px, stride, h, step, tau_x100);
            let s = band(px, stride, h, b);
            &&& t.len() == (h + 31) / 32
            &&& step <= t[b]
            &&& 4 * t[b] <= 5 * step
            &&& t[b] != step ==> -total_mag(s) <= 4 * total(s) <= total_mag(s) && 100 * total_mag(s)
                <= (tau_x100 * step) * s.len()
            &&& s.len() >= 1 && step <= 204 && -total_mag(s) <= 4 * total(s) <= total_mag(s) && 100
                * total_mag(s) <= (tau_x100 * step) * s.len() ==> 4 * (t[b] + 1) > 5 * step
        }),
{
    let s = band(px, stride, h, b);
    lemma_total_signs(s);
}

/// How much sample `i` is above the one to its left, of `c` components.
pub open spec fn rise(px: Seq<i32>, c: int, i: int) -> int {
    px[i] - px[i - c]
}

proof fn lemma_slopes(px: Seq<i32>, stride: int, c: int, lo: int, n: nat)
    requires
        1 <= c <= stride,
        0 <= lo,
        lo + n <= px.len(),
    ensures
        0 <= steepest(px, stride, c, lo, n) <= slopes(px, stride, c, lo, n),
        slopes(px, stride, c, lo, n) <= n * steepest(px, stride, c, lo, n),
        forall|i: int|
            lo <= i < lo + n && i % stride >= c ==> -steepest(px, stride, c, lo, n)
                <= #[trigger] rise(px, c, i) <= steepest(px, stride, c, lo, n),
        slopes(px, stride, c, lo, n) > 0 ==> exists|i: int|
            lo <= i < lo + n && i % stride >= c && (#[trigger] rise(px, c, i) == steepest(
                px,
                stride,
                c,
                lo,
                n,
            ) || -rise(px, c, i) == steepest(px, stride, c, lo, n)),
    decreases n,
{
    if n > 0 {
        let k = (n - 1) as nat;
        lemma_slopes(px, stride, c, lo, k);
        let (a, b) = (steepest(px, stride, c, lo, k), steepest(px, stride, c, lo, n));
        assert(k * a <= k * b && n * b == k * b + b) by (nonlinear_arith)
            requires
                a <= b,
                n == k + 1,
                k >= 0,
        ;
        let e = lo + k;
        let s = slope(px, stride, c, e);
        if slopes(px, stride, c, lo, n) > 0 {
            if s > a || slopes(px, stride, c, lo, k) == 0 {
                assert(s == b && e % stride >= c);
                assert(rise(px, c, e) == b || -rise(px, c, e) == b);
            } else {
                assert(a == b);
            }
        }
    }
}

/// A step is scaled by a percentage, to less than one, within what a step can be.
pub proof fn law_scaled(step: u8, x100: u16)
    ensures
        1 <= scaled(step, x100) <= 255,
        scaled(step, x100) < 255 ==> step * x100 < 100 * (scaled(step, x100) + 1),
        scaled(step, x100) > 1 ==> 100 * scaled(step, x100) <= step * x100,
        step >= 1 ==> scaled(step, 100) == step,
{
    assert(0 <= step * x100) by (nonlinear_arith)
        requires
            0 <= step,
            0 <= x100,
    ;
    assert(step * 100u16 == 100 * step) by (nonlinear_arith);
}

/// The steps of bands by texture: where samples do not differ from those to their left, the step for
/// flat bands; where two neighbours differ by 64 or more, that for edges; where they differ by two
/// steps on average, that for texture; else the step of the frame.
pub proof fn law_activity_steps(
    px: Seq<i32>,
    stride: int,
    h: int,
    c: int,
    step: u8,
    m: Masking,
    b: int,
)
    requires
        image_ok(px, stride, h),
        1 <= c <= stride,
        0 <= b < (h + 31) / 32,
        step >= 1,
    ensures
        ({
            let t = activity_steps(px, stride, h, c, step, m);
            let lo = 32 * b * stride;
            let hi = (if 32 * b + 32 < h {
                32 * b + 32
            } else {
                h
            }) * stride;
            &&& t.len() == (h + 31) / 32
            &&& t[b] == step || t[b] == scaled(step, m.flat_x100) || t[b] == scaled(
                step,
                m.edge_x100,
            ) || t[b] == scaled(step, m.texture_x100)
            &&& (forall|i: int|
                lo <= i < hi && i % stride >= c ==> #[trigger] rise(px, c, i) == 0) ==> t[b]
                == scaled(step, m.flat_x100)
            &&& (exists|i: int|
                lo <= i < hi && i % stride >= c && !(-64 < #[trigger] rise(px, c, i) < 64))
                ==> t[b] == scaled(step, m.edge_x100)
            &&& (forall|i: int|
                lo <= i < hi && i % stride >= c ==> -2 * step < #[trigger] rise(px, c, i) < 2
                    * step && -64 < rise(px, c, i) < 64) && (exists|i: int|
                lo <= i < hi && i % stride >= c && #[trigger] rise(px, c, i) != 0) ==> t[b]
                == step
        }),
{
    let (r, q) = (band_row(b, h), band_row(b + 1, h));
    lemma_band(px, stride, h, b);
    blocks::lemma_tiles_along(h, 32, b);
    assert(r == 32 * b);
    assert(q == if 32 * b + 32 < h {
        32 * b + 32
    } else {
        h
    });
    let lo = r * stride;
    let n = (q * stride - lo) as nat;
    lemma_slopes(px, stride, c, lo, n);
    let (sum, top) = (slopes(px, stride, c, lo, n), steepest(px, stride, c, lo, n));
    let hi = q * stride;
    assert(lo < hi) by (nonlinear_arith)
        requires
            lo == r * stride,
            hi == q * stride,
            r < q,
            stride >= 1,
    ;
    if forall|i: int| lo <= i < hi && i % stride >= c ==> #[trigger] rise(px, c, i) == 0 {
        if sum > 0 {
            let j = choose|j: int|
                lo <= j < lo + n && j % stride >= c && (#[trigger] rise(px, c, j) == top || -rise(
                    px,
                    c,
                    j,
                ) == top);
            assert(rise(px, c, j) == 0);
            assert(n * top == 0) by (nonlinear_arith)
                requires
                    top == 0,
            ;
        }
        assert(sum == 0);
    }
    if exists|i: int| lo <= i < hi && i % stride >= c && !(-64 < #[trigger] rise(px, c, i) < 64) {
        let i = choose|i: int|
            lo <= i < hi && i % stride >= c && !(-64 < #[trigger] rise(px, c, i) < 64);
        assert(-top <= rise(px, c, i) <= top);
        assert(top >= 64);
        assert(sum > 0);
    }
    if (forall|i: int|
        lo <= i < hi && i % stride >= c ==> -2 * step < #[trigger] rise(px, c, i) < 2 * step
            && -64 < rise(px, c, i) < 64) && (exists|i: int|
        lo <= i < hi && i % stride >= c && #[trigger] rise(px, c, i) != 0) {
        let i = choose|i: int| lo <= i < hi && i % stride >= c && #[trigger] rise(px, c, i) != 0;
        assert(-top <= rise(px, c, i) <= top);
        assert(sum > 0);
        let j = choose|j: int|
            lo <= j < lo + n && j % stride >= c && (#[trigger] rise(px, c, j) == top || -rise(px, c, j)
                == top);
        assert(-2 * step < rise(px, c, j) < 2 * step);
        assert(top < 2 * step && top < 64);
        assert(n * top < 2 * step * n) by (nonlinear_arith)
            requires
                top < 2 * step,
                n >= 1,
        ;
    }
}

} // verus!

//! Frames of three planes that are coded one by one, the chroma planes less a share of the luma
//! plane.

use vstd::prelude::*;
use crate::common::blocks;
use crate::common::blocks::div_up;
use crate::common::domain::{ColorFormat, CompressionType, ImageData, PredictionMode};
use crate::common::error::{CrfResult, Fault};
use crate::common::framing;
use crate::common::framing::put_part;
use crate::common::plane;
use crate::common::plane::take_component;
use crate::common::predict;
use crate::common::quant;
use crate::encoder::candidate;
use crate::encoder::candidate::{run_contest, AdaptiveOutput, Entry};
use crate::encoder::frame;
use crate::encoder::frame::{FrameQuant, Pic};

verus! {

/// Number of shares that are tried.
pub const CFL_CANDIDATES: usize = 9;

/// The share of luma `y` that is taken off chroma, in sixteenths `a`.
pub open spec fn share(y: i32, a: int) -> i32 {
    ((a * (y - 128)) / 16) as i32
}

/// The share of luma `y` that is taken off chroma, in sixteenths `a`.
pub fn share_exec(y: i32, a: i32) -> (s: i32)
    requires
        -8 <= a <= 7,
    ensures
        s == share(y, a as int),
        -0x4000_0080 <= s <= 0x4000_0080,
{
    let d: i64 = y as i64 - 128;
    proof {
        assert(-8 * 0x8000_0080 <= a * d <= 8 * 0x8000_0080) by (nonlinear_arith)
            requires
                -8 <= a <= 7,
                -0x8000_0080 <= d <= 0x8000_0000,
        ;
    }
    let v: i64 = a as i64 * d;
    let q: i64 = if v >= 0 {
        v / 16
    } else {
        -((-v + 15) / 16)
    };
    q as i32
}

/// How far chroma is from share `a` of luma, summed over the first `n` samples that are looked at.
pub open spec fn misfit(y: Seq<i32>, ch: Seq<i32>, a: int, step: int, n: nat) -> int
    decreases n,
{
    if n == 0 {
        0
    } else {
        let i = (n - 1) * step;
        misfit(y, ch, a, step, (n - 1) as nat) + predict::abs(ch[i] - share(y[i], a))
    }
}

/// Samples between those that are looked at.
pub open spec fn sample_step(len: nat) -> int {
    if len < 16 {
        1
    } else {
        len as int / 16
    }
}

/// How far chroma is from share `a` of luma.
pub open spec fn misfit_of(y: Seq<i32>, ch: Seq<i32>, a: int) -> int {
    let step = sample_step(ch.len());
    misfit(y, ch, a, step, blocks::tiles_along(ch.len() as int, step) as nat)
}

/// The best of the first `n` shares, the first of equals.
pub open spec fn best_share(y: Seq<i32>, ch: Seq<i32>, n: nat) -> int
    decreases n,
{
    if n <= 1 {
        -4
    } else {
        let b = best_share(y, ch, (n - 1) as nat);
        if misfit_of(y, ch, n - 5) < misfit_of(y, ch, b) {
            n - 5
        } else {
            b
        }
    }
}

/// The share that fits best.
pub open spec fn share_of(y: Seq<i32>, ch: Seq<i32>) -> int {
    best_share(y, ch, CFL_CANDIDATES as nat)
}

pub proof fn lemma_best_share(y: Seq<i32>, ch: Seq<i32>, n: nat)
    requires
        n <= CFL_CANDIDATES,
    ensures
        -4 <= best_share(y, ch, n) <= 4,
    decreases n,
{
    if n > 1 {
        lemma_best_share(y, ch, (n - 1) as nat);
    }
}

/// Chroma less a share of luma.
pub open spec fn less_share(y: Seq<i32>, ch: Seq<i32>, a: int) -> Seq<i32> {
    Seq::new(ch.len(), |i: int| ch[i].wrapping_sub(share(y[i], a)))
}

/// The sum of the samples at `x`, `y` and right of and below it, as far as they are in the plane.
pub open spec fn quad_sum(px: Seq<i32>, w: int, h: int, x: int, y: int) -> int {
    px[y * w + x] + (if x + 1 < w {
        px[y * w + x + 1] as int
    } else {
        0
    }) + (if y + 1 < h {
        px[(y + 1) * w + x] as int
    } else {
        0
    }) + (if x + 1 < w && y + 1 < h {
        px[(y + 1) * w + x + 1] as int
    } else {
        0
    })
}

/// The number of those samples.
pub open spec fn quad_count(w: int, h: int, x: int, y: int) -> int {
    (if x + 1 < w {
        2int
    } else {
        1
    }) * (if y + 1 < h {
        2int
    } else {
        1
    })
}

/// A plane halved in both directions: each sample is the mean of four.
pub open spec fn halved(px: Seq<i32>, w: int, h: int) -> Seq<i32> {
    let cw = blocks::tiles_along(w, 2);
    Seq::new(
        (blocks::tiles_along(h, 2) * cw) as nat,
        |i: int|
            {
                let (x, y) = (2 * (i % cw), 2 * (i / cw));
                quant::tdiv(quad_sum(px, w, h, x, y), quad_count(w, h, x, y)) as i32
            },
    )
}

/// Sample (`x`, `y`) of a halved plane is the mean, to less than one, of the four samples from (`2x`,
/// `2y`) on, as far as there are that many; it lies between the least and the largest of them.
pub proof fn law_halved(px: Seq<i32>, w: int, h: int, x: int, y: int, lo: int, hi: int)
    requires
        w >= 1,
        h >= 1,
        px.len() == w * h,
        0 <= x < (w + 1) / 2,
        0 <= y < (h + 1) / 2,
        forall|u: int, v: int|
            2 * x <= u <= 2 * x + 1 && 2 * y <= v <= 2 * y + 1 && u < w && v < h ==> lo
                <= #[trigger] px[v * w + u] <= hi,
    ensures
        ({
            let z = halved(px, w, h);
            let s = z[y * ((w + 1) / 2) + x];
            let a = px[(2 * y) * w + 2 * x];
            let (b, c, d) = (
                px[(2 * y) * w + (2 * x + 1)],
                px[(2 * y + 1) * w + 2 * x],
                px[(2 * y + 1) * w + (2 * x + 1)],
            );
            &&& z.len() == ((w + 1) / 2) * ((h + 1) / 2)
            &&& lo <= s <= hi
            &&& 2 * x + 1 < w && 2 * y + 1 < h ==> -4 < 4 * s - (a + b + c + d) < 4
            &&& 2 * x + 1 < w && 2 * y + 1 == h ==> -2 < 2 * s - (a + b) < 2
            &&& 2 * x + 1 == w && 2 * y + 1 < h ==> -2 < 2 * s - (a + c) < 2
            &&& 2 * x + 1 == w && 2 * y + 1 == h ==> s == a
        }),
{
    let (cw, ch) = ((w + 1) / 2, (h + 1) / 2);
    let i = y * cw + x;
    assert(cw == blocks::tiles_along(w, 2) && ch == blocks::tiles_along(h, 2));
    vstd::arithmetic::div_mod::lemma_fundamental_div_mod_converse(i, cw, y, x);
    assert(0 <= i < ch * cw && ch * cw == cw * ch) by (nonlinear_arith)
        requires
            i == y * cw + x,
            0 <= x < cw,
            0 <= y < ch,
    ;
    let (u, v) = (2 * x, 2 * y);
    let q = v * w + u;
    assert((v + 1) * w == v * w + w) by (nonlinear_arith);
    assert(v * w + (u + 1) == q + 1);
    assert((v + 1) * w + u == q + w && (v + 1) * w + (u + 1) == q + w + 1);
    assert(lo <= px[v * w + u] <= hi);
    if u + 1 < w {
        assert(lo <= px[v * w + (u + 1)] <= hi);
    }
    if v + 1 < h {
        assert(lo <= px[(v + 1) * w + u] <= hi);
    }
    if u + 1 < w && v + 1 < h {
        assert(lo <= px[(v + 1) * w + (u + 1)] <= hi);
    }
    let (t, n) = (quad_sum(px, w, h, u, v), quad_count(w, h, u, v));
    assert(n == 1 || n == 2 || n == 4);
    assert(halved(px, w, h)[i] == quant::tdiv(t, n) as i32);
}

/// A share of luma is `a` sixteenths of how far it is above 128, rounded down.
pub proof fn law_share(y: i32, a: int)
    requires
        -8 <= a <= 7,
        -0x800_0000 <= y <= 0x800_0000,
    ensures
        0 <= a * (y - 128) - 16 * share(y, a) < 16,
{
    let t = a * (y - 128);
    assert(-8 * 0x800_0080 <= t <= 8 * 0x800_0080) by (nonlinear_arith)
        requires
            t == a * (y - 128),
            -8 <= a <= 7,
            -0x800_0080 <= y - 128 <= 0x800_0000,
    ;
}

proof fn lemma_misfit(y: Seq<i32>, ch: Seq<i32>, a: int, step: int, n: nat)
    requires
        step >= 1,
        forall|k: int| 0 <= k < n ==> 0 <= #[trigger] (k * step) < ch.len(),
    ensures
        misfit(y, ch, a, step, n) >= 0,
        (forall|i: int| 0 <= i < ch.len() ==> #[trigger] ch[i] == share(y[i], a)) ==> misfit(
            y,
            ch,
            a,
            step,
            n,
        ) == 0,
    decreases n,
{
    if n > 0 {
        lemma_misfit(y, ch, a, step, (n - 1) as nat);
        let i = (n - 1) * step;
        assert(0 <= i < ch.len());
    }
}

proof fn lemma_least_misfit(y: Seq<i32>, ch: Seq<i32>, n: nat, a: int)
    requires
        -4 <= a < n - 4,
    ensures
        misfit_of(y, ch, best_share(y, ch, n)) <= misfit_of(y, ch, a),
    decreases n,
{
    if n > 1 && a < n - 5 {
        lemma_least_misfit(y, ch, (n - 1) as nat, a);
    } else if n > 1 {
        if n > 2 {
            lemma_least_misfit(y, ch, (n - 1) as nat, -4);
        }
    }
}

/// Of the shares from minus four to four sixteenths the one is taken that leaves least of the samples
/// looked at; chroma that is a share of luma leaves nothing there.
pub proof fn law_share_best(y: Seq<i32>, ch: Seq<i32>, a: int)
    requires
        -4 <= a <= 4,
        ch.len() >= 1,
    ensures
        -4 <= share_of(y, ch) <= 4,
        misfit_of(y, ch, share_of(y, ch)) <= misfit_of(y, ch, a),
        misfit_of(y, ch, a) >= 0,
        (forall|i: int| 0 <= i < ch.len() ==> #[trigger] ch[i] == share(y[i], a)) ==> misfit_of(
            y,
            ch,
            share_of(y, ch),
        ) == 0,
{
    lemma_best_share(y, ch, CFL_CANDIDATES as nat);
    lemma_least_misfit(y, ch, CFL_CANDIDATES as nat, a);
    let step = sample_step(ch.len());
    let n = blocks::tiles_along(ch.len() as int, step) as nat;
    assert forall|k: int| 0 <= k < n implies 0 <= #[trigger] (k * step) < ch.len() by {
        blocks::lemma_tiles_along(ch.len() as int, step, k);
        assert(k * step >= 0) by (nonlinear_arith)
            requires
                k >= 0,
                step >= 1,
        ;
    }
    lemma_misfit(y, ch, a, step, n);
    lemma_misfit(y, ch, share_of(y, ch), step, n);
}

/// How chroma planes are quantised.
pub open spec fn chroma_quant(fq: FrameQuant) -> FrameQuant {
    let half = fq.spec_lossy() && fq.chroma_half_res;
    if fq.chroma_step > 0 {
        FrameQuant {
            step: fq.chroma_step,
            bias: fq.chroma_bias,
            chroma_step: fq.chroma_step,
            chroma_bias: fq.chroma_bias,
            chroma_half_res: half,
            q1_matrix_scale: fq.q1_matrix_scale,
        }
    } else {
        FrameQuant {
            step: fq.step,
            bias: fq.bias,
            chroma_step: 0,
            chroma_bias: fq.chroma_bias,
            chroma_half_res: half,
            q1_matrix_scale: fq.q1_matrix_scale,
        }
    }
}

/// Every second one of the steps.
pub open spec fn every_second(t: Seq<u8>) -> Seq<u8> {
    Seq::new((t.len() + 1) / 2, |i: int| t[2 * i])
}

/// The steps of the bands of chroma planes.
pub open spec fn chroma_bands(bands: Option<Seq<u8>>, half: bool) -> Option<Seq<u8>> {
    match bands {
        Some(t) => if t.len() == 0 {
            None
        } else if half {
            Some(every_second(t))
        } else {
            Some(t)
        },
        None => None,
    }
}

/// The size of blocks in a plane `w` samples wide.
pub open spec fn sub_block(block_size: u16, w: int) -> u16 {
    let b = if block_size < w {
        block_size
    } else {
        w as u16
    };
    if b < 4 {
        4
    } else {
        b
    }
}

/// A plane as an image.
pub open spec fn gray(px: Seq<i32>, w: int, h: int) -> Pic {
    Pic { w, h, c: 1, px }
}

/// The planes that are coded: luma, and both chroma planes less their share of it, halved where
/// that is asked for.
pub open spec fn planes_of(p: Pic, half: bool) -> (Pic, Pic, Pic) {
    let y = plane::component(p.px, 3, 0);
    let (co, cg) = (plane::component(p.px, 3, 1), plane::component(p.px, 3, 2));
    let a = less_share(y, co, share_of(y, co));
    let b = less_share(y, cg, share_of(y, cg));
    if half {
        let (cw, ch) = (blocks::tiles_along(p.w, 2), blocks::tiles_along(p.h, 2));
        (
            gray(y, p.w, p.h),
            gray(halved(a, p.w, p.h), cw, ch),
            gray(halved(b, p.w, p.h), cw, ch),
        )
    } else {
        (gray(y, p.w, p.h), gray(a, p.w, p.h), gray(b, p.w, p.h))
    }
}

/// The first two bytes: both shares, and whether chroma is halved.
pub open spec fn head_of(p: Pic, half: bool) -> Seq<u8> {
    let y = plane::component(p.px, 3, 0);
    let a = share_of(y, plane::component(p.px, 3, 1));
    let b = share_of(y, plane::component(p.px, 3, 2));
    seq![
        ((a + 8) * 16 + (b + 8)) as u8,
        if half {
            1u8
        } else {
            0u8
        },
    ]
}

/// The frame of a plane.
#[verifier::opaque]
pub open spec fn sub_frame(
    p: Pic,
    ct: CompressionType,
    block_size: u16,
    fq: FrameQuant,
    preferred: Option<PredictionMode>,
    bands: Option<Seq<u8>>,
) -> Result<Entry, Fault> {
    candidate::contest(
        p,
        ct,
        sub_block(block_size, p.w),
        false,
        fq,
        preferred,
        bands,
        None,
        true,
    )
}

/// The payload of an image of three components.
pub open spec fn planar_payload(
    p: Pic,
    ct: CompressionType,
    block_size: u16,
    fq: FrameQuant,
    bands: Option<Seq<u8>>,
) -> Result<Seq<u8>, Fault> {
    let half = fq.spec_lossy() && fq.chroma_half_res;
    let (y, a, b) = planes_of(p, half);
    let cq = chroma_quant(fq);
    let cb = chroma_bands(bands, half);
    match sub_frame(y, ct, block_size, fq, None, bands) {
        Err(f) => Err(f),
        Ok(e) => match sub_frame(a, ct, block_size, cq, e.mode, cb) {
            Err(f) => Err(f),
            Ok(g) => match sub_frame(b, ct, block_size, cq, g.mode, cb) {
                Err(f) => Err(f),
                Ok(k) => Ok(head_of(p, half) + framing::framed(seq![e.data, g.data, k.data])),
            },
        },
    }
}

fn misfit_exec(y: &Vec<i32>, ch: &Vec<i32>, a: i32, step: usize, n: usize) -> (s: u64)
    requires
        -8 <= a <= 7,
        y@.len() == ch@.len(),
        step >= 1,
        n <= 0x1000_0000,
        n == blocks::tiles_along(ch@.len() as int, step as int),
    ensures
        s == misfit(y@, ch@, a as int, step as int, n as nat),
{
    let len: usize = ch.len();
    let mut s: u64 = 0;
    let mut k: usize = 0;
    while k < n
        invariant
            -8 <= a <= 7,
            y@.len() == ch@.len(),
            len == ch@.len(),
            step >= 1,
            n <= 0x1000_0000,
            n == blocks::tiles_along(len as int, step as int),
            k <= n,
            s == misfit(y@, ch@, a as int, step as int, k as nat),
            s <= k * 0x2_0000_0000,
        decreases n - k,
    {
        proof {
            blocks::lemma_tiles_along(len as int, step as int, k as int);
            assert(k * step >= 0) by (nonlinear_arith);
        }
        let i: usize = k * step;
        let d: i64 = ch[i] as i64 - share_exec(y[i], a) as i64;
        let m: u64 = if d < 0 {
            (-d) as u64
        } else {
            d as u64
        };
        s = s + m;
        k = k + 1;
    }
    s
}

/// The share of luma that fits chroma best.
pub fn search_alpha(y: &Vec<i32>, chroma: &Vec<i32>) -> (a: i32)
    requires
        y@.len() == chroma@.len(),
    ensures
        a == share_of(y@, chroma@),
        -4 <= a <= 4,
{
    let len: usize = chroma.len();
    let step: usize = if len < 16 {
        1
    } else {
        len / 16
    };
    let n: usize = div_up(len, step);
    proof {
        blocks::lemma_tiles_along(len as int, step as int, 32);
    }
    let mut best: i32 = -4;
    let mut best_sad: u64 = misfit_exec(y, chroma, -4, step, n);
    let mut i: usize = 1;
    assert(best_share(y@, chroma@, 1) == -4);
    while i < CFL_CANDIDATES
        invariant
            y@.len() == chroma@.len(),
            len == chroma@.len(),
            step == sample_step(len as nat),
            n == blocks::tiles_along(len as int, step as int),
            n <= 0x1000_0000,
            1 <= i <= CFL_CANDIDATES,
            -4 <= best <= 4,
            best == best_share(y@, chroma@, i as nat),
            best_sad == misfit_of(y@, chroma@, best as int),
        decreases CFL_CANDIDATES - i,
    {
        let a: i32 = i as i32 - 4;
        let s: u64 = misfit_exec(y, chroma, a, step, n);
        if s < best_sad {
            best_sad = s;
            best = a;
        }
        i = i + 1;
    }
    best
}

fn apply_cfl(y: &Vec<i32>, chroma: &Vec<i32>, a: i32) -> (out: Vec<i32>)
    requires
        y@.len() == chroma@.len(),
        -8 <= a <= 7,
    ensures
        out@ == less_share(y@, chroma@, a as int),
{
    let ghost all = less_share(y@, chroma@, a as int);
    let mut out: Vec<i32> = Vec::new();
    let mut i: usize = 0;
    while i < chroma.len()
        invariant
            y@.len() == chroma@.len(),
            -8 <= a <= 7,
            i <= chroma@.len(),
            all == less_share(y@, chroma@, a as int),
            out@ == all.take(i as int),
        decreases chroma@.len() - i,
    {
        let v: i32 = chroma[i].wrapping_sub(share_exec(y[i], a));
        out.push(v);
        i = i + 1;
        assert(out@ =~= all.take(i as int));
    }
    assert(out@ =~= all);
    out
}

fn mean_at(px: &Vec<i32>, w: usize, h: usize, x: usize, y: usize) -> (m: i32)
    requires
        px@.len() == h * w,
        x < w,
        y < h,
        w <= 0xffff,
        h <= 0xffff,
    ensures
        m == quant::tdiv(
            quad_sum(px@, w as int, h as int, x as int, y as int),
            quad_count(w as int, h as int, x as int, y as int),
        ) as i32,
{
    let total: usize = px.len();
    proof {
        assert(0 <= y * w && y * w + w <= h * w) by (nonlinear_arith)
            requires
                0 <= y < h,
                w >= 0,
        ;
        assert((y + 1) * w == y * w + w) by (nonlinear_arith);
        if y + 1 < h {
            assert((y + 1) * w + w <= h * w) by (nonlinear_arith)
                requires
                    y + 1 < h,
                    w >= 0,
            ;
        }
    }
    let at: usize = y * w + x;
    let right: bool = x + 1 < w;
    let below: bool = y + 1 < h;
    let mut sum: i64 = px[at] as i64;
    let mut n: i64 = 1;
    if right {
        sum = sum + px[at + 1] as i64;
        n = 2;
    }
    if below {
        sum = sum + px[at + w] as i64;
        if right {
            sum = sum + px[at + w + 1] as i64;
        }
        n = n * 2;
    }
    let q: i64 = if sum >= 0 {
        sum / n
    } else {
        -((-sum) / n)
    };
    q as i32
}

/// Halves a plane in both directions.
pub fn halve(px: &Vec<i32>, w: usize, h: usize) -> (out: Vec<i32>)
    requires
        px@.len() == h * w,
        1 <= w <= 0xffff,
        1 <= h <= 0xffff,
    ensures
        out@ == halved(px@, w as int, h as int),
        out@.len() == blocks::tiles_along(h as int, 2) * blocks::tiles_along(w as int, 2),
{
    let cw: usize = div_up(w, 2);
    let ch: usize = div_up(h, 2);
    let ghost all = halved(px@, w as int, h as int);
    proof {
        assert(0 <= ch * cw <= 0x8000 * 0x8000) by (nonlinear_arith)
            requires
                0 <= ch <= 0x8000,
                0 <= cw <= 0x8000,
        ;
    }
    let n: usize = ch * cw;
    let mut out: Vec<i32> = Vec::new();
    let mut i: usize = 0;
    while i < n
        invariant
            px@.len() == h * w,
            1 <= w <= 0xffff,
            1 <= h <= 0xffff,
            cw == blocks::tiles_along(w as int, 2),
            ch == blocks::tiles_along(h as int, 2),
            n == ch * cw,
            all == halved(px@, w as int, h as int),
            all.len() == n,
            i <= n,
            out@ == all.take(i as int),
        decreases n - i,
    {
        proof {
            vstd::arithmetic::div_mod::lemma_fundamental_div_mod(i as int, cw as int);
            let q = i as int / cw as int;
            let r = i as int % cw as int;
            assert(q < ch) by (nonlinear_arith)
                requires
                    i == cw * q + r,
                    0 <= r,
                    i < ch * cw,
                    cw >= 1,
            ;
            vstd::arithmetic::div_mod::lemma_div_pos_is_pos(i as int, cw as int);
            blocks::lemma_tiles_along(w as int, 2, r);
            blocks::lemma_tiles_along(h as int, 2, q);
        }
        let v: i32 = mean_at(px, w, h, 2 * (i % cw), 2 * (i / cw));
        out.push(v);
        i = i + 1;
        assert(out@ =~= all.take(i as int));
    }
    assert(out@ =~= all);
    out
}

fn chroma_quant_exec(fq: FrameQuant) -> (r: FrameQuant)
    ensures
        r == chroma_quant(fq),
{
    let half: bool = fq.is_lossy() && fq.chroma_half_res;
    if fq.chroma_step > 0 {
        FrameQuant {
            step: fq.chroma_step,
            bias: fq.chroma_bias,
            chroma_step: fq.chroma_step,
            chroma_bias: fq.chroma_bias,
            chroma_half_res: half,
            q1_matrix_scale: fq.q1_matrix_scale,
        }
    } else {
        FrameQuant {
            step: fq.step,
            bias: fq.bias,
            chroma_step: 0,
            chroma_bias: fq.chroma_bias,
            chroma_half_res: half,
            q1_matrix_scale: fq.q1_matrix_scale,
        }
    }
}

fn chroma_bands_exec(bands: Option<&Vec<u8>>, half: bool) -> (r: Option<Vec<u8>>)
    ensures
        match r {
            Some(v) => chroma_bands(quant::bands_view(bands), half) == Some(v@),
            None => chroma_bands(quant::bands_view(bands), half) is None,
        },
{
    match bands {
        None => None,
        Some(t) => {
            if t.len() == 0 {
                return None;
            }
            let len: usize = t.len();
            let n: usize = if half {
                len / 2 + len % 2
            } else {
                len
            };
            let mut v: Vec<u8> = Vec::new();
            let mut i: usize = 0;
            while i < n
                invariant
                    i <= n,
                    len == t@.len(),
                    n == if half {
                        (t@.len() + 1) / 2
                    } else {
                        t@.len()
                    },
                    v@.len() == i,
                    forall|j: int|
                        0 <= j < i ==> #[trigger] v@[j] == if half {
                            t@[2 * j]
                        } else {
                            t@[j]
                        },
                decreases n - i,
            {
                v.push(
                    if half {
                        t[2 * i]
                    } else {
                        t[i]
                    },
                );
                i = i + 1;
            }
            if half {
                assert(v@ =~= every_second(t@));
            } else {
                assert(v@ =~= t@);
            }
            Some(v)
        },
    }
}

fn encode_plane(
    pixels: Vec<i32>,
    width: u16,
    height: u16,
    bit_depth: u8,
    ct: CompressionType,
    block_size: u16,
    fq: FrameQuant,
    preferred: Option<PredictionMode>,
    bands: Option<&Vec<u8>>,
) -> (r: CrfResult<AdaptiveOutput>)
    requires
        width >= 1,
        height >= 1,
        pixels@.len() == height * width,
        pixels@.len() <= crate::common::domain::MAX_SAMPLES,
    ensures
        candidate::agrees_entry(
            r,
            sub_frame(
                gray(pixels@, width as int, height as int),
                ct,
                block_size,
                fq,
                preferred,
                quant::bands_view(bands),
            ),
        ),
{
    let b: u16 = if block_size < width {
        block_size
    } else {
        width
    };
    let b: u16 = if b < 4 {
        4
    } else {
        b
    };
    let image = ImageData {
        width,
        height,
        bit_depth,
        color_format: ColorFormat::Gray,
        pixels,
    };
    proof {
        frame::lemma_counts(width as int, height as int, 1);
        reveal(sub_frame);
    }
    run_contest(&image, ct, b, false, fq, preferred, bands, None, true)
}

/// The planes of an image of three components lie in it.
pub proof fn lemma_planes(p: Pic)
    requires
        p.ok(),
        p.c == 3,
    ensures
        plane::component(p.px, 3, 0).len() == p.h * p.w,
        plane::component(p.px, 3, 1).len() == p.h * p.w,
        plane::component(p.px, 3, 2).len() == p.h * p.w,
        3 * (p.h * p.w) == p.px.len(),
        p.h * p.w == p.w * p.h,
        p.px == plane::interleaved(plane::components(p.px, 3), (p.w * p.h) as nat),
{
    assert(p.h * (p.w * 3) == 3 * (p.h * p.w) && p.h * p.w == p.w * p.h && p.h * p.w >= 0)
        by (nonlinear_arith)
        requires
            p.h >= 0,
            p.w >= 0,
    ;
    plane::lemma_interleave(p.px, 3, (p.w * p.h) as nat);
}

/// The planes of an image that are coded, and the bytes before them.
struct Planes {
    y: Vec<i32>,
    a: Vec<i32>,
    b: Vec<i32>,
    cw: usize,
    ch: usize,
    head: Vec<u8>,
}

fn cut_planes(image: &ImageData, half: bool) -> (r: Planes)
    requires
        frame::codable(image),
        image.color_format.spec_count() == 3,
    ensures
        ({
            let p = frame::pic(image);
            &&& planes_of(p, half) == (
                gray(r.y@, p.w, p.h),
                gray(r.a@, r.cw as int, r.ch as int),
                gray(r.b@, r.cw as int, r.ch as int),
            )
            &&& r.head@ == head_of(p, half)
            &&& r.y@.len() == p.h * p.w
            &&& r.a@.len() == r.ch * r.cw
            &&& r.b@.len() == r.ch * r.cw
            &&& 1 <= r.cw <= p.w
            &&& 1 <= r.ch <= p.h
            &&& p.h * p.w <= crate::common::domain::MAX_SAMPLES
            &&& r.ch * r.cw <= p.h * p.w
        }),
{
    let ghost p = frame::pic(image);
    proof {
        frame::lemma_codable(image);
        lemma_planes(p);
    }
    let y: Vec<i32> = take_component(&image.pixels, 3, 0);
    let co: Vec<i32> = take_component(&image.pixels, 3, 1);
    let cg: Vec<i32> = take_component(&image.pixels, 3, 2);
    let a: i32 = search_alpha(&y, &co);
    let b: i32 = search_alpha(&y, &cg);
    let co_adj: Vec<i32> = apply_cfl(&y, &co, a);
    let cg_adj: Vec<i32> = apply_cfl(&y, &cg, b);
    let mut out: Vec<u8> = Vec::new();
    out.push((((a + 8) as u8) * 16) + (b + 8) as u8);
    out.push(
        if half {
            1
        } else {
            0
        },
    );
    assert(out@ =~= head_of(p, half));
    let (w, h) = (image.width as usize, image.height as usize);
    let (p1, p2, cw, ch): (Vec<i32>, Vec<i32>, usize, usize) = if half {
        (halve(&co_adj, w, h), halve(&cg_adj, w, h), div_up(w, 2), div_up(h, 2))
    } else {
        (co_adj, cg_adj, w, h)
    };
    proof {
        let (tw, th) = (blocks::tiles_along(p.w, 2), blocks::tiles_along(p.h, 2));
        assert(th * tw <= p.h * p.w) by (nonlinear_arith)
            requires
                0 <= th <= p.h,
                0 <= tw <= p.w,
        ;
    }
    Planes { y, a: p1, b: p2, cw, ch, head: out }
}

/// Codes an image of three components plane by plane.
pub fn encode_planar_payload(
    image: &ImageData,
    compression_type: CompressionType,
    block_size: u16,
    fq: FrameQuant,
    band_steps: Option<&Vec<u8>>,
) -> (r: CrfResult<Vec<u8>>)
    requires
        frame::codable(image),
        image.color_format.spec_count() == 3,
    ensures
        frame::agrees_bytes(
            r,
            planar_payload(
                frame::pic(image),
                compression_type,
                block_size,
                fq,
                quant::bands_view(band_steps),
            ),
        ),
{
    let half: bool = fq.is_lossy() && fq.chroma_half_res;
    let ps: Planes = cut_planes(image, half);
    let cq: FrameQuant = chroma_quant_exec(fq);
    let cb: Option<Vec<u8>> = chroma_bands_exec(band_steps, half);
    let cbr: Option<&Vec<u8>> = match &cb {
        Some(v) => Some(v),
        None => None,
    };
    let depth: u8 = image.bit_depth;
    let e: AdaptiveOutput = match encode_plane(
        ps.y,
        image.width,
        image.height,
        depth,
        compression_type,
        block_size,
        fq,
        None,
        band_steps,
    ) {
        Ok(v) => v,
        Err(x) => {
            return Err(x);
        },
    };
    let g: AdaptiveOutput = match encode_plane(
        ps.a,
        ps.cw as u16,
        ps.ch as u16,
        depth,
        compression_type,
        block_size,
        cq,
        e.pred_mode,
        cbr,
    ) {
        Ok(v) => v,
        Err(x) => {
            return Err(x);
        },
    };
    let k: AdaptiveOutput = match encode_plane(
        ps.b,
        ps.cw as u16,
        ps.ch as u16,
        depth,
        compression_type,
        block_size,
        cq,
        g.pred_mode,
        cbr,
    ) {
        Ok(v) => v,
        Err(x) => {
            return Err(x);
        },
    };
    let ghost head = ps.head@;
    let mut out: Vec<u8> = ps.head;
    put_part(&mut out, &e.data);
    put_part(&mut out, &g.data);
    put_part(&mut out, &k.data);
    proof {
        framing::lemma_framed3(e.data@, g.data@, k.data@);
        assert(out@ =~= head + framing::framed(seq![e.data@, g.data@, k.data@]));
    }
    Ok(out)
}

/// A halved plane keeps the step of the rows that its own were made of.
pub proof fn law_chroma_bands(t: Seq<u8>, step: u8, y: int)
    requires
        t.len() >= 1,
        y >= 0,
        64 * (y / 32) < 32 * t.len(),
    ensures
        chroma_bands(Some(t), true) is Some,
        quant::step_at(y, 1, step, chroma_bands(Some(t), true)) == quant::step_at(
            64 * (y / 32),
            1,
            step,
            Some(t),
        ),
        chroma_bands(Some(t), false) == Some(t),
        chroma_bands(None, true) is None,
{
    assert(y / 1 == y && (64 * (y / 32)) / 1 == 64 * (y / 32));
}

/// Chroma has its own step and shift where it has a step, and the step of luma otherwise; nothing else
/// changes, and nothing is lost of chroma where nothing is lost of luma.
pub proof fn law_chroma_quant(fq: FrameQuant)
    ensures
        ({
            let c = chroma_quant(fq);
            &&& fq.chroma_step > 0 ==> c.step == fq.chroma_step && c.bias == fq.chroma_bias
            &&& fq.chroma_step == 0 ==> c.step == fq.step && c.bias == fq.bias
            &&& c.chroma_step == fq.chroma_step && c.chroma_bias == fq.chroma_bias
            &&& c.q1_matrix_scale == fq.q1_matrix_scale
            &&& fq.chroma_step >= fq.step && fq.spec_lossy() ==> c.spec_lossy() && c.step
                >= fq.step
            &&& fq.chroma_step == 0 ==> c.spec_lossy() == fq.spec_lossy()
        }),
{
}

/// Blocks of a plane are not wider than it, unless it is narrower than four samples, and never smaller
/// than four.
pub proof fn law_sub_block(block_size: u16, w: int)
    requires
        0 <= w <= 0xffff,
    ensures
        sub_block(block_size, w) >= 4,
        w >= 4 ==> sub_block(block_size, w) <= w,
        4 <= block_size <= w ==> sub_block(block_size, w) == block_size,
        sub_block(block_size, w) > 4 ==> sub_block(block_size, w) == block_size || sub_block(
            block_size,
            w,
        ) == w,
{
}

} // verus!

//! Perceptual step tables, and the way back from transformed planes to an image.

use vstd::prelude::*;
use crate::common::blocks;
use crate::common::blocks::Grid;
use crate::common::plane;
use crate::common::plane::{dct_plane_inverse_bs, interleave, map_plane, split_components};
use crate::common::quant;
use crate::common::quant::quant_scalar;

verus! {

/// The weight of a frequency, in 64ths of the step.
pub open spec fn qm_weight(s: int) -> u32 {
    if s <= 0 {
        64
    } else if s == 1 {
        68
    } else if s == 2 {
        80
    } else if s == 3 {
        96
    } else if s == 4 {
        112
    } else if s == 5 {
        128
    } else {
        144
    }
}

/// The weights for the blocks of a shape: they grow with the frequency in both directions.
pub open spec fn qm_table(bw: int, bh: int) -> Seq<u32> {
    Seq::new((bw * bh) as nat, |j: int| qm_weight((j / bw) * 4 / bh + (j % bw) * 4 / bw))
}

fn qm_weight_exec(s: usize) -> (w: u32)
    ensures
        w == qm_weight(s as int),
{
    if s == 0 {
        64
    } else if s == 1 {
        68
    } else if s == 2 {
        80
    } else if s == 3 {
        96
    } else if s == 4 {
        112
    } else if s == 5 {
        128
    } else {
        144
    }
}

/// The weights for the blocks of a shape.
pub fn perceptual_qm(bw: usize, bh: usize) -> (t: Vec<u32>)
    requires
        plane::valid_rect(bw as int, bh as int),
    ensures
        t@ == qm_table(bw as int, bh as int),
        t@.len() == bw * bh,
{
    let ghost all = qm_table(bw as int, bh as int);
    let mut t: Vec<u32> = Vec::new();
    let n: usize = bw * bh;
    let mut j: usize = 0;
    while j < n
        invariant
            plane::valid_rect(bw as int, bh as int),
            n == bw * bh,
            n <= 64,
            j <= n,
            all == qm_table(bw as int, bh as int),
            all.len() == n,
            t@ == all.take(j as int),
        decreases n - j,
    {
        t.push(qm_weight_exec((j / bw) * 4 / bh + (j % bw) * 4 / bw));
        j = j + 1;
        assert(t@ =~= all.take(j as int));
    }
    assert(t@ =~= all);
    t
}

/// The step for a place with weight `w`. A step of one stays one, unless `scale_one` is set.
pub open spec fn step_for(q: u8, w: u32, scale_one: bool) -> int {
    if q <= 1 && !scale_one {
        1
    } else {
        let s = (quant::at_least_one(q) * w) / 64;
        if s < 1 {
            1
        } else if s > 255 {
            255
        } else {
            s
        }
    }
}

/// The step for a place with weight `w`.
pub fn step_for_exec(q: u8, w: u32, scale_one: bool) -> (s: u8)
    ensures
        s == step_for(q, w, scale_one),
        s >= 1,
{
    if q <= 1 && !scale_one {
        return 1;
    }
    let q1: u64 = if q == 0 {
        1
    } else {
        q as u64
    };
    proof {
        assert(0 <= q1 * w <= 0x1_0000_0000 * 255) by (nonlinear_arith)
            requires
                0 <= q1 <= 255,
                0 <= w <= 0xffff_ffff,
        ;
    }
    let s: u64 = (q1 * w as u64) / 64;
    if s < 1 {
        1
    } else if s > 255 {
        255
    } else {
        s as u8
    }
}

/// Quantises a tile: a whole one with the step of each place, another with the step `q`.
pub open spec fn matrix_of(
    b: Seq<i32>,
    whole: bool,
    q: u8,
    table: Seq<u32>,
    scale_one: bool,
) -> Seq<i32> {
    if whole {
        Seq::new(
            b.len(),
            |j: int| quant::quant_value(b[j], step_for(q, table[j], scale_one), 0),
        )
    } else {
        quant::quantized(b, quant::at_least_one(q))
    }
}

pub open spec fn matrix_tile(q: u8, table: Seq<u32>, scale_one: bool) -> spec_fn(
    Seq<i32>,
    bool,
) -> Seq<i32> {
    |b: Seq<i32>, whole: bool| matrix_of(b, whole, q, table, scale_one)
}

/// A tile is as long as the table of steps.
pub open spec fn matrix_ready(b: Seq<i32>, whole: bool, table: Seq<u32>) -> bool {
    whole ==> b.len() == table.len()
}

spec fn is_matrix(
    r: Seq<i32>,
    b: Seq<i32>,
    whole: bool,
    q: u8,
    table: Seq<u32>,
    scale_one: bool,
) -> bool {
    r == matrix_of(b, whole, q, table, scale_one)
}

fn matrix_block(b: &Vec<i32>, q: u8, table: &[u32], scale_one: bool) -> (r: Vec<i32>)
    requires
        b@.len() == table@.len(),
    ensures
        r@ == matrix_of(b@, true, q, table@, scale_one),
{
    let ghost all = matrix_of(b@, true, q, table@, scale_one);
    let mut r: Vec<i32> = Vec::new();
    let mut j: usize = 0;
    while j < b.len()
        invariant
            b@.len() == table@.len(),
            j <= b@.len(),
            all == matrix_of(b@, true, q, table@, scale_one),
            all.len() == b@.len(),
            r@ == all.take(j as int),
        decreases b@.len() - j,
    {
        let s: u8 = step_for_exec(q, table[j], scale_one);
        r.push(quant_scalar(b[j], s));
        j = j + 1;
        assert(r@ =~= all.take(j as int));
    }
    assert(r@ =~= all);
    r
}

/// The coefficients of a plane, quantised.
pub open spec fn matrix_quantized(
    px: Seq<i32>,
    w: int,
    h: int,
    q: u8,
    table: Seq<u32>,
    bw: int,
    bh: int,
    scale_one: bool,
) -> Seq<i32> {
    plane::mapped(px, plane::tiling(w, h, bw, bh), matrix_tile(q, table, scale_one))
}

/// Quantises the coefficients of a plane, each place of a block with its own step.
pub fn quantize_coeffs_with_matrix(
    coeffs: &[i32],
    width: usize,
    height: usize,
    q_step: u8,
    table: &[u32],
    block_w: usize,
    block_h: usize,
    allow_q1_scale: bool,
) -> (out: Vec<i32>)
    requires
        coeffs@.len() == width * height,
        plane::valid_rect(block_w as int, block_h as int),
        table@.len() == block_w * block_h,
    ensures
        out@ == matrix_quantized(
            coeffs@,
            width as int,
            height as int,
            q_step,
            table@,
            block_w as int,
            block_h as int,
            allow_q1_scale,
        ),
        out@.len() == coeffs@.len(),
{
    let n: usize = coeffs.len();
    let g = Grid { w: width, h: height, bw: block_w, bh: block_h };
    let ghost m = matrix_tile(q_step, table@, allow_q1_scale);
    let q: u8 = if q_step == 0 {
        1
    } else {
        q_step
    };
    let f = |b: &Vec<i32>, whole: bool| -> (r: Vec<i32>)
        requires
            matrix_ready(b@, whole, table@),
        ensures
            is_matrix(r@, b@, whole, q_step, table@, allow_q1_scale),
        {
            if whole {
                matrix_block(b, q_step, table, allow_q1_scale)
            } else {
                quant::quantize_residuals(b, q_step)
            }
        };
    map_plane(coeffs, g, f, Ghost(m))
}

/// The planes of an image after the inverse transform, put together again.
pub open spec fn inverse_interleaved(
    px: Seq<i32>,
    w: int,
    h: int,
    c: int,
    bw: int,
    bh: int,
) -> Seq<i32> {
    plane::interleaved(
        Seq::new(c as nat, |k: int| plane::plane_inverse(plane::component(px, c, k), w, h, bw, bh)),
        (w * h) as nat,
    )
}

/// The image that transformed planes stand for.
pub fn dct_dequantize_inverse_interleaved_bs(
    px: &[i32],
    width: usize,
    height: usize,
    components: usize,
    block_w: usize,
    block_h: usize,
) -> (out: Vec<i32>)
    requires
        1 <= components <= 4,
        px@.len() == width * height * components,
        plane::valid_rect(block_w as int, block_h as int),
    ensures
        out@ == inverse_interleaved(
            px@,
            width as int,
            height as int,
            components as int,
            block_w as int,
            block_h as int,
        ),
        out@.len() == px@.len(),
{
    let total: usize = px.len();
    proof {
        lemma_pixels(width as int, height as int, components as int);
        plane::lemma_interleave(px@, components as int, (width * height) as nat);
    }
    let planes: Vec<Vec<i32>> = split_components(px, components);
    let n: usize = width * height;
    let ghost ps = plane::components(px@, components as int);
    let ghost all = Seq::new(
        components as nat,
        |k: int|
            plane::plane_inverse(
                plane::component(px@, components as int, k),
                width as int,
                height as int,
                block_w as int,
                block_h as int,
            ),
    );
    let mut back: Vec<Vec<i32>> = Vec::new();
    let mut k: usize = 0;
    assert(blocks::views(back@) =~= all.take(0));
    while k < components
        invariant
            k <= components,
            n == width * height,
            plane::valid_rect(block_w as int, block_h as int),
            ps == plane::components(px@, components as int),
            ps == blocks::views(planes@),
            planes@.len() == components,
            px@.len() as int / components as int == n,
            all == Seq::new(
                components as nat,
                |k: int|
                    plane::plane_inverse(
                        plane::component(px@, components as int, k),
                        width as int,
                        height as int,
                        block_w as int,
                        block_h as int,
                    ),
            ),
            blocks::views(back@) == all.take(k as int),
            forall|j: int| 0 <= j < back@.len() ==> (#[trigger] back@[j])@.len() == n,
        decreases components - k,
    {
        assert(planes@[k as int]@ == ps[k as int]);
        let p: Vec<i32> = dct_plane_inverse_bs(&planes[k], width, height, block_w, block_h);
        let ghost before = blocks::views(back@);
        back.push(p);
        k = k + 1;
        assert(blocks::views(back@) =~= before.push(p@));
        assert(blocks::views(back@) =~= all.take(k as int));
    }
    assert(blocks::views(back@) =~= all);
    interleave(&back, n)
}

pub proof fn lemma_pixels(w: int, h: int, c: int)
    requires
        w >= 0,
        h >= 0,
        c >= 1,
    ensures
        0 <= w * h <= w * h * c,
{
    assert(0 <= w * h) by (nonlinear_arith)
        requires
            w >= 0,
            h >= 0,
    ;
    assert(w * h <= w * h * c) by (nonlinear_arith)
        requires
            w * h >= 0,
            c >= 1,
    ;
}

/// The image that planes transformed by blocks of four by four stand for.
pub fn dct_dequantize_inverse_interleaved(
    px: &[i32],
    width: usize,
    height: usize,
    components: usize,
) -> (out: Vec<i32>)
    requires
        1 <= components <= 4,
        px@.len() == width * height * components,
    ensures
        out@ == inverse_interleaved(
            px@,
            width as int,
            height as int,
            components as int,
            4,
            4,
        ),
        out@.len() == px@.len(),
{
    dct_dequantize_inverse_interleaved_bs(px, width, height, components, 4, 4)
}

/// The plane that coefficients of four by four blocks stand for.
pub fn dct_dequantize_inverse(px: &[i32], width: usize, height: usize) -> (out: Vec<i32>)
    requires
        px@.len() == width * height,
    ensures
        out@ == plane::plane_inverse(px@, width as int, height as int, 4, 4),
        out@.len() == px@.len(),
{
    dct_plane_inverse_bs(px, width, height, 4, 4)
}

/// A coefficient's weight is between one and two and a quarter, in 64ths, and never smaller for a
/// higher frequency in either direction; the mean of a block has a weight of one.
pub proof fn law_weights(bw: int, bh: int, r: int, c: int, s: int, d: int)
    requires
        bw == 4 || bw == 8,
        bh == 4 || bh == 8,
        0 <= r <= s < bh,
        0 <= c <= d < bw,
    ensures
        ({
            let t = qm_table(bw, bh);
            &&& t.len() == bw * bh
            &&& 64 <= t[r * bw + c] <= t[s * bw + d] <= 144
            &&& r == 0 && c == 0 ==> t[r * bw + c] == 64
            &&& s == bh - 1 && d == bw - 1 ==> t[s * bw + d] == 144
            &&& bw == bh ==> t[r * bw + c] == t[c * bw + r]
        }),
{
    crate::common::transform::lemma_split(r * bw + c, r, c, bw, bh);
    crate::common::transform::lemma_split(s * bw + d, s, d, bw, bh);
    if bw == bh {
        crate::common::transform::lemma_split(c * bw + r, c, r, bw, bh);
    }
}

/// The step of a coefficient is the step of the frame times its weight, rounded down, within what a
/// step can be; a frame step of one is left alone unless weights are asked for there too.
pub proof fn law_step_for(q: u8, w: u32, scale_one: bool)
    requires
        64 <= w <= 144,
    ensures
        1 <= step_for(q, w, scale_one) <= 255,
        q >= 2 && q * w <= 64 * 255 ==> 64 * step_for(q, w, scale_one) <= q * w < 64 * (step_for(
            q,
            w,
            scale_one,
        ) + 1),
        q >= 1 ==> q <= step_for(q, w, scale_one),
        q >= 1 ==> 4 * step_for(q, w, scale_one) <= 9 * q,
        q <= 1 && !scale_one ==> step_for(q, w, scale_one) == 1,
        step_for(q, w, scale_one) <= 2 || q >= 1,
{
    let p = quant::at_least_one(q) * w;
    assert(64 * quant::at_least_one(q) <= p <= 144 * quant::at_least_one(q)) by (nonlinear_arith)
        requires
            p == quant::at_least_one(q) * w,
            64 <= w <= 144,
            quant::at_least_one(q) >= 0,
    ;
}

} // verus!

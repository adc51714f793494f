//! Planes transformed and quantised.

use vstd::prelude::*;
use crate::common::blocks;
use crate::common::bounds;
use crate::common::close;
use crate::common::dct;
use crate::common::dct::{perceptual_qm, quantize_coeffs_with_matrix};
use crate::common::plane;
use crate::common::plane::{dct_plane_forward_bs, interleave, split_components};
use crate::common::quant;
use crate::common::quant::quantize_residuals;
use crate::decoder::exact;
use crate::encoder::rdoq;

verus! {

/// A plane after the transform and quantisation with blocks of the given shape.
pub open spec fn quant_plane(
    px: Seq<i32>,
    w: int,
    h: int,
    q: u8,
    bw: int,
    bh: int,
    use_qm: bool,
    scale_one: bool,
) -> Seq<i32> {
    let c = plane::plane_forward(px, w, h, bw, bh);
    if use_qm && (q != 1 || scale_one) {
        dct::matrix_quantized(c, w, h, q, dct::qm_table(bw, bh), bw, bh, scale_one)
    } else if q <= 1 {
        c
    } else {
        quant::quantized(c, q as int)
    }
}

/// An image with each of its components transformed and quantised.
pub open spec fn quant_interleaved(
    px: Seq<i32>,
    w: int,
    h: int,
    c: int,
    q: u8,
    bw: int,
    bh: int,
    use_qm: bool,
    scale_one: bool,
) -> Seq<i32> {
    plane::interleaved(
        Seq::new(
            c as nat,
            |k: int|
                quant_plane(plane::component(px, c, k), w, h, q, bw, bh, use_qm, scale_one),
        ),
        (w * h) as nat,
    )
}

/// Transforms a plane by blocks of four by four and quantises it.
pub fn dct_quantize(pixels: &[i32], width: usize, height: usize, q_step: u8) -> (out: Vec<i32>)
    requires
        pixels@.len() == width * height,
    ensures
        out@ == quant::quantized(
            plane::plane_forward(pixels@, width as int, height as int, 4, 4),
            quant::at_least_one(q_step),
        ),
{
    let c: Vec<i32> = dct_plane_forward_bs(pixels, width, height, 4, 4);
    quantize_residuals(&c, q_step)
}

fn quant_plane_exec(
    px: &[i32],
    width: usize,
    height: usize,
    q_step: u8,
    block_w: usize,
    block_h: usize,
    use_qm: bool,
    allow_q1_scale: bool,
) -> (out: Vec<i32>)
    requires
        px@.len() == width * height,
        plane::valid_rect(block_w as int, block_h as int),
    ensures
        out@ == quant_plane(
            px@,
            width as int,
            height as int,
            q_step,
            block_w as int,
            block_h as int,
            use_qm,
            allow_q1_scale,
        ),
        out@.len() == px@.len(),
{
    let c: Vec<i32> = dct_plane_forward_bs(px, width, height, block_w, block_h);
    if use_qm && (q_step != 1 || allow_q1_scale) {
        let table: Vec<u32> = perceptual_qm(block_w, block_h);
        quantize_coeffs_with_matrix(
            &c,
            width,
            height,
            q_step,
            &table,
            block_w,
            block_h,
            allow_q1_scale,
        )
    } else if q_step <= 1 {
        c
    } else {
        quantize_residuals(&c, q_step)
    }
}

/// Transforms and quantises each component of an image.
pub fn dct_quantize_interleaved_bs(
    pixels: &[i32],
    width: usize,
    height: usize,
    components: usize,
    q_step: u8,
    block_w: usize,
    block_h: usize,
    use_qm: bool,
    allow_q1_scale: bool,
) -> (out: Vec<i32>)
    requires
        1 <= components <= 4,
        pixels@.len() == width * height * components,
        plane::valid_rect(block_w as int, block_h as int),
    ensures
        out@ == quant_interleaved(
            pixels@,
            width as int,
            height as int,
            components as int,
            q_step,
            block_w as int,
            block_h as int,
            use_qm,
            allow_q1_scale,
        ),
        out@.len() == pixels@.len(),
{
    let total: usize = pixels.len();
    proof {
        dct::lemma_pixels(width as int, height as int, components as int);
        plane::lemma_interleave(pixels@, components as int, (width * height) as nat);
    }
    let planes: Vec<Vec<i32>> = split_components(pixels, components);
    let n: usize = width * height;
    let ghost ps = plane::components(pixels@, components as int);
    let ghost all = Seq::new(
        components as nat,
        |k: int|
            quant_plane(
                plane::component(pixels@, components as int, k),
                width as int,
                height as int,
                q_step,
                block_w as int,
                block_h as int,
                use_qm,
                allow_q1_scale,
            ),
    );
    let mut done: Vec<Vec<i32>> = Vec::new();
    let mut k: usize = 0;
    assert(blocks::views(done@) =~= all.take(0));
    while k < components
        invariant
            k <= components,
            n == width * height,
            plane::valid_rect(block_w as int, block_h as int),
            ps == plane::components(pixels@, components as int),
            ps == blocks::views(planes@),
            planes@.len() == components,
            pixels@.len() as int / components as int == n,
            all == Seq::new(
                components as nat,
                |k: int|
                    quant_plane(
                        plane::component(pixels@, components as int, k),
                        width as int,
                        height as int,
                        q_step,
                        block_w as int,
                        block_h as int,
                        use_qm,
                        allow_q1_scale,
                    ),
            ),
            blocks::views(done@) == all.take(k as int),
            forall|j: int| 0 <= j < done@.len() ==> (#[trigger] done@[j])@.len() == n,
        decreases components - k,
    {
        assert(planes@[k as int]@ == ps[k as int]);
        let p: Vec<i32> = quant_plane_exec(
            &planes[k],
            width,
            height,
            q_step,
            block_w,
            block_h,
            use_qm,
            allow_q1_scale,
        );
        let ghost before = blocks::views(done@);
        done.push(p);
        k = k + 1;
        assert(blocks::views(done@) =~= before.push(p@));
        assert(blocks::views(done@) =~= all.take(k as int));
    }
    assert(blocks::views(done@) =~= all);
    interleave(&done, n)
}

/// Transforms each component of an image by blocks of four by four and quantises it.
pub fn dct_quantize_interleaved(
    pixels: &[i32],
    width: usize,
    height: usize,
    components: usize,
    q_step: u8,
) -> (out: Vec<i32>)
    requires
        1 <= components <= 4,
        pixels@.len() == width * height * components,
    ensures
        out@ == quant_interleaved(
            pixels@,
            width as int,
            height as int,
            components as int,
            q_step,
            4,
            4,
            false,
            false,
        ),
        out@.len() == pixels@.len(),
{
    dct_quantize_interleaved_bs(pixels, width, height, components, q_step, 4, 4, false, false)
}

/// With a step of one the transform of an image loses nothing, whatever the shape of the blocks.
pub proof fn law_dct_lossless(
    px: Seq<i32>,
    w: int,
    h: int,
    c: int,
    q: u8,
    bw: int,
    bh: int,
    use_qm: bool,
)
    requires
        w >= 0,
        h >= 0,
        1 <= c <= 4,
        px.len() == w * h * c,
        plane::valid_rect(bw, bh),
        q <= 1,
        use_qm ==> q == 1,
    ensures
        dct::inverse_interleaved(
            quant_interleaved(px, w, h, c, q, bw, bh, use_qm, false),
            w,
            h,
            c,
            bw,
            bh,
        ) == px,
        quant_interleaved(px, w, h, c, q, bw, bh, use_qm, false).len() == px.len(),
{
    dct::lemma_pixels(w, h, c);
    let n = (w * h) as nat;
    plane::lemma_interleave(px, c, n);
    let fs = Seq::new(
        c as nat,
        |k: int| quant_plane(plane::component(px, c, k), w, h, q, bw, bh, use_qm, false),
    );
    assert forall|k: int| 0 <= k < c implies (#[trigger] fs[k]).len() == n by {
        plane::law_plane_roundtrip(plane::component(px, c, k), w, h, bw, bh);
    }
    plane::lemma_deinterleave(fs, n);
    let coded = plane::interleaved(fs, n);
    let bs = Seq::new(
        c as nat,
        |k: int| plane::plane_inverse(plane::component(coded, c, k), w, h, bw, bh),
    );
    assert forall|k: int| 0 <= k < c implies bs[k] == plane::components(px, c)[k] by {
        assert(plane::components(coded, c)[k] == fs[k]);
        plane::law_plane_roundtrip(plane::component(px, c, k), w, h, bw, bh);
    }
    assert(bs =~= plane::components(px, c));
}

/// Planes of coefficients that are off by `e` give an image that is off by sixteen times as much, and
/// twenty, at most.
pub proof fn lemma_planes_close(
    px: Seq<i32>,
    w: int,
    h: int,
    c: int,
    qs: Seq<Seq<i32>>,
    bw: int,
    bh: int,
    e: int,
    m: int,
)
    requires
        w >= 0,
        h >= 0,
        1 <= c <= 4,
        px.len() == w * h * c,
        plane::valid_rect(bw, bh),
        qs.len() == c,
        0 <= e <= 0x1_0000,
        0 <= m <= 0x4000,
        bounds::small(px, m),
        forall|k: int|
            0 <= k < c ==> close::close(
                #[trigger] qs[k],
                plane::plane_forward(plane::component(px, c, k), w, h, bw, bh),
                e,
            ),
    ensures
        close::close(
            dct::inverse_interleaved(
                plane::interleaved(qs, (w * h) as nat),
                w,
                h,
                c,
                bw,
                bh,
            ),
            px,
            16 * e + 20,
        ),
        plane::interleaved(qs, (w * h) as nat).len() == px.len(),
        bounds::small(plane::interleaved(qs, (w * h) as nat), 9 * m + e),
{
    dct::lemma_pixels(w, h, c);
    let n = (w * h) as nat;
    plane::lemma_interleave(px, c, n);
    assert forall|k: int| 0 <= k < c implies (#[trigger] qs[k]).len() == n && bounds::small(
        qs[k],
        9 * m + e,
    ) && close::close(
        plane::plane_inverse(qs[k], w, h, bw, bh),
        plane::component(px, c, k),
        16 * e + 20,
    ) by {
        let p = plane::component(px, c, k);
        lemma_component_small(px, c, k, n, m);
        let f = plane::plane_forward(p, w, h, bw, bh);
        plane::law_plane_roundtrip(p, w, h, bw, bh);
        exact::lemma_plane_forward_small(p, w, h, bw, bh, m);
        close::lemma_close_small(qs[k], f, e, 9 * m);
        bounds::lemma_small_wider(f, 9 * m, 0x4_0000);
        bounds::lemma_small_wider(qs[k], 9 * m + e, 0x4_0000);
        close::lemma_plane_inverse_close(qs[k], f, w, h, bw, bh, e);
    }
    plane::lemma_deinterleave(qs, n);
    let coded = plane::interleaved(qs, n);
    let bs = Seq::new(
        c as nat,
        |k: int| plane::plane_inverse(plane::component(coded, c, k), w, h, bw, bh),
    );
    let cs = plane::components(px, c);
    assert forall|k: int| 0 <= k < c implies close::close(#[trigger] bs[k], cs[k], 16 * e + 20)
        && bs[k].len() == n by {
        assert(plane::components(coded, c)[k] == qs[k]);
        assert(bs[k] == plane::plane_inverse(qs[k], w, h, bw, bh));
    }
    close::lemma_interleaved_close(bs, cs, n, 16 * e + 20);
    let b = 9 * m + e;
    assert forall|i: int| 0 <= i < coded.len() implies -b <= #[trigger] coded[i] <= b by {
        vstd::arithmetic::div_mod::lemma_fundamental_div_mod(i, c);
        vstd::arithmetic::div_mod::lemma_mod_bound(i, c);
        vstd::arithmetic::div_mod::lemma_div_pos_is_pos(i, c);
        let (k, j) = (i % c, i / c);
        assert(j < n) by (nonlinear_arith)
            requires
                i == c * j + k,
                0 <= k,
                i < n * c,
                c >= 1,
        ;
        let s = qs[k];
        assert(bounds::small(s, b));
        assert(-b <= s[j] <= b);
    }
}

pub proof fn lemma_component_small(px: Seq<i32>, c: int, k: int, n: nat, m: int)
    requires
        1 <= c <= 4,
        0 <= k < c,
        px.len() == n * c,
        bounds::small(px, m),
    ensures
        bounds::small(plane::component(px, c, k), m),
        plane::component(px, c, k).len() == n,
{
    let p = plane::component(px, c, k);
    vstd::arithmetic::div_mod::lemma_div_multiples_vanish(n as int, c);
    assert(n * c == c * n) by (nonlinear_arith);
    assert forall|i: int| 0 <= i < p.len() implies -m <= #[trigger] p[i] <= m by {
        assert(0 <= i * c + k < px.len()) by (nonlinear_arith)
            requires
                0 <= i < n,
                0 <= k < c,
                px.len() == n * c,
        ;
        assert(-m <= px[i * c + k] <= m);
    }
}

/// Quantised coefficients are within the step of the frame times two of the coefficients.
proof fn lemma_quant_plane_close(
    px: Seq<i32>,
    w: int,
    h: int,
    q: u8,
    bw: int,
    bh: int,
    use_qm: bool,
    scale_one: bool,
    s: int,
    m: int,
)
    requires
        w >= 0,
        h >= 0,
        px.len() == w * h,
        plane::valid_rect(bw, bh),
        bounds::small(px, m),
        0 <= m <= 0x4000,
        1 <= s <= 255,
        q <= s,
    ensures
        close::close(
            quant_plane(px, w, h, q, bw, bh, use_qm, scale_one),
            plane::plane_forward(px, w, h, bw, bh),
            2 * s,
        ),
{
    let f = plane::plane_forward(px, w, h, bw, bh);
    let r = quant_plane(px, w, h, q, bw, bh, use_qm, scale_one);
    plane::law_plane_roundtrip(px, w, h, bw, bh);
    exact::lemma_plane_forward_small(px, w, h, bw, bh, m);
    let e = 2 * s;
    if use_qm && (q != 1 || scale_one) {
        let g = plane::tiling(w, h, bw, bh);
        let table = dct::qm_table(bw, bh);
        let t = dct::matrix_tile(q, table, scale_one);
        blocks::lemma_count(g);
        assert forall|k: int| 0 <= k < g.count() implies close::close(
            #[trigger] t(blocks::tile(f, g, k), g.whole(k)),
            blocks::tile(f, g, k),
            e,
        ) by {
            let b = blocks::tile(f, g, k);
            blocks::lemma_tile_dims(g, k);
            let x = dct::matrix_of(b, g.whole(k), q, table, scale_one);
            assert(t(b, g.whole(k)) == x);
            assert forall|j: int| 0 <= j < x.len() implies -e <= #[trigger] x[j] - b[j] <= e by {
                blocks::lemma_pos(g, k, j);
                assert(-9 * m <= f[g.pos(k, j)] <= 9 * m);
                if g.whole(k) {
                    assert(g.area(k) == bw * bh) by (nonlinear_arith)
                        requires
                            g.area(k) == g.th(k) * g.tw(k),
                            g.th(k) == bh,
                            g.tw(k) == bw,
                    ;
                    crate::common::transform::lemma_index(j, bw, bh);
                    dct::law_weights(bw, bh, j / bw, j % bw, j / bw, j % bw);
                    dct::law_step_for(q, table[j], scale_one);
                    quant::law_quant_error(b[j], dct::step_for(q, table[j], scale_one), 0, 0);
                } else {
                    quant::law_quant_error(b[j], quant::at_least_one(q), 0, 0);
                }
            }
        }
        close::lemma_mapped_close(f, g, t, e);
    } else {
        assert forall|i: int| 0 <= i < r.len() implies -e <= #[trigger] r[i] - f[i] <= e by {
            assert(-9 * m <= f[i] <= 9 * m);
            if q > 1 {
                quant::law_quant_error(f[i], q as int, 0, 0);
            }
        }
    }
}

/// Coding the coefficients of an image in steps, whatever the shape of blocks and with or without
/// weights, and decoding them, gives the image to within a bound that goes with the step.
pub proof fn law_dct_close(
    px: Seq<i32>,
    w: int,
    h: int,
    c: int,
    q: u8,
    bw: int,
    bh: int,
    use_qm: bool,
    scale_one: bool,
    s: int,
    m: int,
)
    requires
        w >= 0,
        h >= 0,
        1 <= c <= 4,
        px.len() == w * h * c,
        plane::valid_rect(bw, bh),
        bounds::small(px, m),
        0 <= m <= 0x4000,
        1 <= s <= 255,
        q <= s,
    ensures
        ({
            let coded = quant_interleaved(px, w, h, c, q, bw, bh, use_qm, scale_one);
            &&& coded.len() == px.len()
            &&& bounds::small(coded, 9 * m + 2 * s)
            &&& close::close(dct::inverse_interleaved(coded, w, h, c, bw, bh), px, 32 * s + 20)
        }),
{
    dct::lemma_pixels(w, h, c);
    let n = (w * h) as nat;
    plane::lemma_interleave(px, c, n);
    let qs = Seq::new(
        c as nat,
        |k: int| quant_plane(plane::component(px, c, k), w, h, q, bw, bh, use_qm, scale_one),
    );
    assert forall|k: int| 0 <= k < c implies close::close(
        #[trigger] qs[k],
        plane::plane_forward(plane::component(px, c, k), w, h, bw, bh),
        2 * s,
    ) by {
        lemma_component_small(px, c, k, n, m);
        lemma_quant_plane_close(
            plane::component(px, c, k),
            w,
            h,
            q,
            bw,
            bh,
            use_qm,
            scale_one,
            s,
            m,
        );
    }
    lemma_planes_close(px, w, h, c, qs, bw, bh, 2 * s, m);
}

/// The same for levels that were searched for, and of what coefficients are beyond 4096 steps.
pub proof fn law_trellis_image_close(
    px: Seq<i32>,
    w: int,
    h: int,
    c: int,
    q: u8,
    bw: int,
    bh: int,
    s: int,
    m: int,
    beyond: int,
)
    requires
        w >= 0,
        h >= 0,
        1 <= c <= 4,
        px.len() == w * h * c,
        plane::valid_rect(bw, bh),
        bounds::small(px, m),
        0 <= m <= 0x1000,
        1 <= s <= 255,
        q <= s,
        0 <= beyond <= 0x9000,
        9 * m <= 8192 + beyond,
    ensures
        ({
            let coded = rdoq::trellis_interleaved(
                px,
                w,
                h,
                c,
                q,
                bw,
                bh,
                dct::qm_table(bw, bh),
            );
            &&& coded.len() == px.len()
            &&& bounds::small(coded, 9 * m + 3 * s + 12 + beyond)
            &&& close::close(
                dct::inverse_interleaved(coded, w, h, c, bw, bh),
                px,
                16 * (3 * s + 12 + beyond) + 20,
            )
        }),
{
    dct::lemma_pixels(w, h, c);
    let n = (w * h) as nat;
    plane::lemma_interleave(px, c, n);
    let table = dct::qm_table(bw, bh);
    let e = 3 * s + 12 + beyond;
    let qs = Seq::new(
        c as nat,
        |k: int|
            rdoq::trellis_plane(
                plane::plane_forward(plane::component(px, c, k), w, h, bw, bh),
                w,
                h,
                q,
                Some(table),
                bw,
                bh,
            ),
    );
    assert forall|k: int| 0 <= k < c implies close::close(
        #[trigger] qs[k],
        plane::plane_forward(plane::component(px, c, k), w, h, bw, bh),
        e,
    ) by {
        lemma_component_small(px, c, k, n, m);
        lemma_trellis_plane_close(plane::component(px, c, k), w, h, q, bw, bh, s, m, beyond);
    }
    lemma_planes_close(px, w, h, c, qs, bw, bh, e, m);
}

proof fn lemma_trellis_plane_close(
    px: Seq<i32>,
    w: int,
    h: int,
    q: u8,
    bw: int,
    bh: int,
    s: int,
    m: int,
    beyond: int,
)
    requires
        w >= 0,
        h >= 0,
        px.len() == w * h,
        plane::valid_rect(bw, bh),
        bounds::small(px, m),
        0 <= m <= 0x1000,
        1 <= s <= 255,
        q <= s,
        0 <= beyond,
        9 * m <= 8192 + beyond,
    ensures
        close::close(
            rdoq::trellis_plane(
                plane::plane_forward(px, w, h, bw, bh),
                w,
                h,
                q,
                Some(dct::qm_table(bw, bh)),
                bw,
                bh,
            ),
            plane::plane_forward(px, w, h, bw, bh),
            3 * s + 12 + beyond,
        ),
{
    let f = plane::plane_forward(px, w, h, bw, bh);
    plane::law_plane_roundtrip(px, w, h, bw, bh);
    exact::lemma_plane_forward_small(px, w, h, bw, bh, m);
    let e = 3 * s + 12 + beyond;
    let g = plane::tiling(w, h, bw, bh);
    blocks::lemma_count(g);
    let table = if q > 1 {
        dct::qm_table(bw, bh)
    } else {
        rdoq::flat_table((bw * bh) as nat)
    };
    let t = if q > 1 {
        rdoq::trellis_tile(q, table)
    } else {
        dct::matrix_tile(q, table, false)
    };
    assert forall|k: int| 0 <= k < g.count() implies close::close(
        #[trigger] t(blocks::tile(f, g, k), g.whole(k)),
        blocks::tile(f, g, k),
        e,
    ) by {
        let b = blocks::tile(f, g, k);
        blocks::lemma_tile_dims(g, k);
        let x = t(b, g.whole(k));
        assert forall|j: int| 0 <= j < b.len() implies -9 * m <= #[trigger] b[j] <= 9 * m by {
            blocks::lemma_pos(g, k, j);
            assert(-9 * m <= f[g.pos(k, j)] <= 9 * m);
        }
        if g.whole(k) {
            assert(g.area(k) == bw * bh) by (nonlinear_arith)
                requires
                    g.area(k) == g.th(k) * g.tw(k),
                    g.th(k) == bh,
                    g.tw(k) == bw,
            ;
        }
        assert forall|j: int| 0 <= j < b.len() implies -e <= #[trigger] x[j] - b[j] <= e by {
            assert(-9 * m <= b[j] <= 9 * m);
            if !g.whole(k) {
                quant::law_quant_error(b[j], quant::at_least_one(q), 0, 0);
            } else if q > 1 {
                crate::common::transform::lemma_index(j, bw, bh);
                dct::law_weights(bw, bh, j / bw, j % bw, j / bw, j % bw);
                dct::law_step_for(q, table[j], false);
                let st = rdoq::steps(q, table);
                assert(st[j] == dct::step_for(q, table[j], false));
                rdoq::law_trellis_close(b, st, j, beyond);
                assert(x[j] == rdoq::trellis(b, st)[j]);
            } else {
                dct::law_step_for(q, table[j], false);
                quant::law_quant_error(b[j], dct::step_for(q, table[j], false), 0, 0);
            }
        }
        assert(x.len() == b.len());
    }
    close::lemma_mapped_close(f, g, t, e);
}

} // verus!

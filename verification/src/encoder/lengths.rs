//! How long codes can get.

use vstd::prelude::*;
use vstd::arithmetic::power2::*;
use crate::common::bits;
use crate::common::bounds;
use crate::common::choose_k;
use crate::common::codes;
use crate::common::domain::{CompressionType, PredictionMode};
use crate::common::zigzag;
use crate::encoder::adaptive;
use crate::encoder::candidate;
use crate::encoder::chain::Reel;
use crate::encoder::frame;
use crate::encoder::frame::{FrameQuant, Pic};
use crate::encoder::frame_form;
use crate::encoder::planar;
use crate::encoder::rle_golomb;
use crate::encoder::transform;

verus! {

/// No value is larger than `v`.
pub open spec fn up_to(vals: Seq<u32>, v: int) -> bool {
    forall|i: int| 0 <= i < vals.len() ==> #[trigger] vals[i] <= v
}

/// Zigzag images are at most twice as far from zero.
proof fn lemma_zigzags_up_to(vals: Seq<i32>, m: int)
    requires
        bounds::small(vals, m),
        0 <= m < 0x4000_0000,
    ensures
        up_to(codes::zigzags(vals), 2 * m),
{
    let z = codes::zigzags(vals);
    assert forall|i: int| 0 <= i < z.len() implies #[trigger] z[i] <= 2 * m by {
        assert(-m <= vals[i] <= m);
        codes::lemma_zigzag_roundtrip(vals[i]);
    }
}

/// What the codes of values can take up.
proof fn lemma_nonzero_cost(vals: Seq<u32>, v: int)
    requires
        up_to(vals, v),
        v >= 0,
    ensures
        choose_k::nonzero_cost(vals, 6) <= vals.len() * (v / 64 + 7),
    decreases vals.len(),
{
    if vals.len() > 0 {
        let init = vals.drop_last();
        assert forall|i: int| 0 <= i < init.len() implies #[trigger] init[i] <= v by {
            assert(vals[i] <= v);
        }
        lemma_nonzero_cost(init, v);
        assert(vals.last() == vals[vals.len() - 1]);
        lemma2_to64();
        assert(vals.last() as int / 64 <= v / 64);
        assert(vals.len() * (v / 64 + 7) == init.len() * (v / 64 + 7) + (v / 64 + 7))
            by (nonlinear_arith)
            requires
                vals.len() == init.len() + 1,
        ;
    }
}

proof fn lemma_any_cost(vals: Seq<u32>, k: nat, v: int)
    requires
        up_to(vals, v),
        v >= 0,
    ensures
        choose_k::nonzero_cost(vals, k) <= vals.len() * (v + 1 + k),
    decreases vals.len(),
{
    if vals.len() > 0 {
        let init = vals.drop_last();
        assert forall|i: int| 0 <= i < init.len() implies #[trigger] init[i] <= v by {
            assert(vals[i] <= v);
        }
        lemma_any_cost(init, k, v);
        assert(vals.last() == vals[vals.len() - 1]);
        lemma_pow2_pos(k);
        vstd::arithmetic::div_mod::lemma_div_is_ordered_by_denominator(
            vals.last() as int,
            1,
            pow2(k) as int,
        );
        assert(vals.len() * (v + 1 + k) == init.len() * (v + 1 + k) + (v + 1 + k))
            by (nonlinear_arith)
            requires
                vals.len() == init.len() + 1,
        ;
    }
}

proof fn lemma_cost_push(vals: Seq<i32>, i: int, k: nat)
    requires
        0 <= i < vals.len(),
    ensures
        choose_k::nonzero_cost(codes::zigzags(vals.take(i + 1)), k) == choose_k::nonzero_cost(
            codes::zigzags(vals.take(i)),
            k,
        ) + if vals[i] == 0 {
            0
        } else {
            codes::golomb_len(codes::zigzag(vals[i]), k)
        },
{
    codes::lemma_zigzag_roundtrip(vals[i]);
    assert(codes::zigzags(vals.take(i + 1)).drop_last() =~= codes::zigzags(vals.take(i)));
}

proof fn lemma_cost_zeros(vals: Seq<i32>, i: int, n: nat, k: nat)
    requires
        0 <= i,
        i + n <= vals.len(),
        forall|j: int| i <= j < i + n ==> #[trigger] vals[j] == 0,
    ensures
        choose_k::nonzero_cost(codes::zigzags(vals.take(i + n)), k) == choose_k::nonzero_cost(
            codes::zigzags(vals.take(i)),
            k,
        ),
    decreases n,
{
    if n > 0 {
        lemma_cost_zeros(vals, i, (n - 1) as nat, k);
        lemma_cost_push(vals, i + n - 1, k);
    }
}

/// The logarithm of a number is smaller than it.
proof fn lemma_log_small(n: nat)
    requires
        n >= 1,
    ensures
        codes::ilog2(n + 1) <= n,
    decreases n,
{
    if n + 1 > 3 {
        lemma_log_small(((n + 1) / 2 - 1) as nat);
    } else {
        reveal_with_fuel(codes::ilog2, 3);
    }
}

/// A zero-run code takes up at most four bits for each value and what the codes of the values
/// that are not zero take up.
proof fn lemma_rle_len(vals: Seq<i32>, i: nat, k: nat)
    requires
        i <= vals.len(),
    ensures
        codes::rle_bits(vals, i, k).len() + choose_k::nonzero_cost(
            codes::zigzags(vals.take(i as int)),
            k,
        ) <= 4 * (vals.len() - i) + choose_k::nonzero_cost(codes::zigzags(vals), k),
    decreases vals.len() - i,
{
    if i == vals.len() {
        assert(vals.take(i as int) =~= vals);
    } else if vals[i as int] == 0 {
        let run = codes::zero_run(vals, i);
        codes::lemma_zero_run(vals, i);
        codes::lemma_exp_code_len(run);
        lemma_log_small(run);
        lemma_cost_zeros(vals, i as int, run, k);
        lemma_rle_len(vals, i + run, k);
        assert(codes::rle_bits(vals, i, k).len() == 1 + codes::exp_len(run) + codes::rle_bits(
            vals,
            i + run,
            k,
        ).len());
        assert(codes::exp_len(run) <= 2 * run + 1);
    } else {
        codes::lemma_golomb_code_len(codes::zigzag(vals[i as int]), k);
        lemma_cost_push(vals, i as int, k);
        lemma_rle_len(vals, i + 1, k);
    }
}

/// Zero-run codes with different parameters differ in length by what the codes of the values differ
/// that are not zero.
proof fn lemma_rle_gap(vals: Seq<i32>, i: nat, j: nat, k: nat)
    requires
        i <= vals.len(),
    ensures
        ({
            let (z, t) = (codes::zigzags(vals), codes::zigzags(vals.take(i as int)));
            codes::rle_bits(vals, i, j).len() + choose_k::nonzero_cost(z, k)
                + choose_k::nonzero_cost(t, j) == codes::rle_bits(vals, i, k).len()
                + choose_k::nonzero_cost(z, j) + choose_k::nonzero_cost(t, k)
        }),
    decreases vals.len() - i,
{
    if i == vals.len() {
        assert(vals.take(i as int) =~= vals);
    } else if vals[i as int] == 0 {
        let run = codes::zero_run(vals, i);
        codes::lemma_zero_run(vals, i);
        lemma_cost_zeros(vals, i as int, run, j);
        lemma_cost_zeros(vals, i as int, run, k);
        lemma_rle_gap(vals, i + run, j, k);
    } else {
        codes::lemma_golomb_code_len(codes::zigzag(vals[i as int]), j);
        codes::lemma_golomb_code_len(codes::zigzag(vals[i as int]), k);
        lemma_cost_push(vals, i as int, j);
        lemma_cost_push(vals, i as int, k);
        lemma_rle_gap(vals, i + 1, j, k);
    }
}

/// No parameter that is considered makes a zero-run code shorter than the one that is chosen.
pub proof fn law_best_k_is_shortest(vals: Seq<i32>, j: nat)
    requires
        j <= choose_k::HIST_MAX_K,
    ensures
        rle_golomb::rle_code(vals, rle_golomb::best_k(vals)).len() <= rle_golomb::rle_code(
            vals,
            j,
        ).len(),
        rle_golomb::rle_bytes(vals, rle_golomb::best_k(vals)).len() <= rle_golomb::rle_bytes(
            vals,
            j,
        ).len(),
{
    let z = codes::zigzags(vals);
    let k = rle_golomb::best_k(vals);
    choose_k::lemma_best_k(z);
    assert(choose_k::nonzero_cost(z, k) <= choose_k::nonzero_cost(z, j));
    lemma_rle_gap(vals, 0, j, k);
    assert(codes::zigzags(vals.take(0)) =~= Seq::<u32>::empty());
    bits::lemma_pack(rle_golomb::rle_code(vals, k));
    bits::lemma_pack(rle_golomb::rle_code(vals, j));
}

/// A zero-run code with any parameter.
pub proof fn lemma_any_rle_bytes(vals: Seq<i32>, k: nat, m: int)
    requires
        bounds::small(vals, m),
        0 <= m < 0x4000_0000,
    ensures
        8 * rle_golomb::rle_bytes(vals, k).len() <= vals.len() * (2 * m + k + 5) + 7,
{
    let z = codes::zigzags(vals);
    lemma_zigzags_up_to(vals, m);
    lemma_any_cost(z, k, 2 * m);
    lemma_rle_len(vals, 0, k);
    bits::lemma_pack(rle_golomb::rle_code(vals, k));
    assert(vals.len() * (2 * m + k + 5) == vals.len() * (2 * m + 1 + k) + 4 * vals.len())
        by (nonlinear_arith);
}

/// The shortest zero-run code.
pub proof fn lemma_rle_bytes(vals: Seq<i32>, m: int)
    requires
        bounds::small(vals, m),
        0 <= m < 0x4000_0000,
    ensures
        8 * rle_golomb::rle_bytes(vals, rle_golomb::best_k(vals)).len() <= vals.len() * ((2 * m)
            / 64 + 11) + 7,
{
    let z = codes::zigzags(vals);
    let k = rle_golomb::best_k(vals);
    choose_k::lemma_best_k(z);
    lemma_zigzags_up_to(vals, m);
    lemma_nonzero_cost(z, 2 * m);
    assert(choose_k::nonzero_cost(z, k) <= choose_k::nonzero_cost(z, 6));
    lemma_rle_len(vals, 0, k);
    bits::lemma_pack(rle_golomb::rle_code(vals, k));
    assert(vals.len() * ((2 * m) / 64 + 11) == vals.len() * ((2 * m) / 64 + 7) + 4 * vals.len())
        by (nonlinear_arith);
}

proof fn lemma_exp_bits(vals: Seq<u32>, v: int)
    requires
        up_to(vals, v),
        0 <= v < 0x80_0000,
    ensures
        codes::exp_bits(vals).len() <= vals.len() * 47,
    decreases vals.len(),
{
    if vals.len() > 0 {
        let init = vals.drop_last();
        assert forall|i: int| 0 <= i < init.len() implies #[trigger] init[i] <= v by {
            assert(vals[i] <= v);
        }
        lemma_exp_bits(init, v);
        assert(vals.last() == vals[vals.len() - 1]);
        codes::lemma_exp_code_len(vals.last() as nat);
        lemma2_to64();
        codes::lemma_ilog2_below(vals.last() as nat + 1, 24);
    }
}

/// The coefficients of a block are at most nine times as far from zero as its samples.
proof fn lemma_scanned_small(block: Seq<i32>, b: int, m: int)
    requires
        b >= 1,
        block.len() == b * b,
        bounds::small(block, m),
        0 <= m <= 0x400_0000,
    ensures
        bounds::small(transform::scanned(block, b), 9 * m),
        transform::scanned(block, b).len() == b * b,
{
    let f = crate::common::transform::forward2(block, b, b);
    let s = transform::scanned(block, b);
    bounds::lemma_forward_small(block, b, b, m);
    crate::common::transform::law_transform_roundtrip(block, b, b);
    assert(b * b >= 0) by (nonlinear_arith);
    assert forall|i: int| 0 <= i < s.len() implies -9 * m <= #[trigger] s[i] <= 9 * m by {
        zigzag::lemma_place_inside(b, i as nat);
        let (r, c) = zigzag::place(b, i as nat);
        assert(0 <= r * b + c < b * b) by (nonlinear_arith)
            requires
                0 <= r < b,
                0 <= c < b,
        ;
        assert(s[i] == f[r * b + c]);
    }
}

/// Blocks of samples no further than `m` from zero.
proof fn lemma_blocks_len(px: Seq<i32>, w: int, h: int, b: int, n: nat, m: int)
    requires
        w >= 0,
        h >= 0,
        px.len() == w * h,
        1 <= b <= 255,
        n <= transform::square(w, h, b).count(),
        bounds::small(px, m),
        0 <= m <= 0x400_0000,
    ensures
        8 * transform::blocks_bytes(px, w, h, b, n).len() <= n * (b * b) * ((18 * m) / 64 + 58),
    decreases n,
{
    let per = (18 * m) / 64 + 58;
    if n > 0 {
        let t = n - 1;
        lemma_blocks_len(px, w, h, b, t as nat, m);
        let block = transform::padded(px, w, h, b, t);
        assert(b * b >= 1) by (nonlinear_arith)
            requires
                b >= 1,
        ;
        let g = transform::square(w, h, b);
        crate::common::blocks::lemma_tile_dims(g, t);
        assert forall|j: int| 0 <= j < block.len() implies -m <= #[trigger] block[j] <= m by {
            if g.y0(t) + j / b < h && g.x0(t) + j % b < w {
                vstd::arithmetic::div_mod::lemma_div_pos_is_pos(j, b);
                let (y, x) = (g.y0(t) + j / b, g.x0(t) + j % b);
                assert(0 <= y * w + x < w * h) by (nonlinear_arith)
                    requires
                        0 <= x < w,
                        0 <= y < h,
                ;
                assert(block[j] == px[y * w + x]);
            }
        }
        lemma_scanned_small(block, b, m);
        let s = transform::scanned(block, b);
        lemma_rle_bytes(s, 9 * m);
        assert(8 * transform::block_bytes(block, b).len() <= (b * b) * per) by {
            assert((b * b) * ((18 * m) / 64 + 11) + 47 <= (b * b) * per) by (nonlinear_arith)
                requires
                    b * b >= 1,
                    per == (18 * m) / 64 + 58,
            ;
        }
        assert(n * (b * b) * per == t * (b * b) * per + (b * b) * per) by (nonlinear_arith)
            requires
                n == t + 1,
        ;
    } else {
        assert(0 * (b * b) * per == 0) by (nonlinear_arith);
    }
}

/// Samples that are coded of an image: with the transform, blocks are filled up.
pub open spec fn coded_samples(w: int, h: int, ct: CompressionType, block_size: u16) -> int {
    if ct == CompressionType::Transform {
        transform::square(w, h, block_size as int).count() * (block_size * block_size)
    } else {
        w * h
    }
}

/// Bits that a sample no further than `m` from zero can take up.
pub open spec fn bits_for(ct: CompressionType, m: int) -> int {
    if ct == CompressionType::Transform {
        (36 * m) / 64 + 58
    } else {
        m / 16 + 48
    }
}

/// Bits that a frame of such samples can take up, with `w` samples to a row.
pub open spec fn frame_bits(w: int, h: int, ct: CompressionType, block_size: u16, m: int) -> int {
    coded_samples(w, h, ct, block_size) * bits_for(ct, m) + 120
}

/// Blocks have a side that can be written down.
pub open spec fn blocks_fit(ct: CompressionType, block_size: u16) -> bool {
    ct == CompressionType::Transform ==> 1 <= block_size <= 255
}

/// Frames of exact residuals can be coded, and are not long.
pub proof fn lemma_plain_len(
    p: Pic,
    ct: CompressionType,
    block_size: u16,
    mode: PredictionMode,
    first: bool,
    bands: Option<Seq<u8>>,
    m: int,
)
    requires
        p.ok(),
        bounds::small(p.px, m),
        0 <= m <= 0x10_0000,
        blocks_fit(ct, block_size),
    ensures
        ({
            let r = frame::plain_frame(
                p,
                ct,
                block_size,
                mode,
                first,
                FrameQuant::spec_lossless(),
                bands,
            );
            r is Ok && 8 * r->Ok_0.len() <= frame_bits(p.w * p.c, p.h, ct, block_size, m)
        }),
{
    let fq = FrameQuant::spec_lossless();
    let res = frame::frame_residuals(p, mode, fq, bands);
    let n = p.px.len() as int;
    bounds::lemma_residuals_small(p.px, p.w, p.c, mode, 0, n, m);
    assert(res.len() == n);
    assert forall|i: int| 0 <= i < res.len() implies #[trigger] res[i] > i32::MIN by {
        assert(-2 * m <= res[i] <= 2 * m);
    }
    let r = frame::coded(p, res, ct, block_size, first);
    frame::lemma_frame_len(p, r->Ok_0, mode.code());
    let stride = p.w * p.c;
    assert(stride * p.h == p.h * stride) by (nonlinear_arith);
    if ct == CompressionType::GolombRice {
        lemma_rle_bytes(res, 2 * m);
        assert(n * ((4 * m) / 64 + 11) <= n * bits_for(ct, m)) by (nonlinear_arith)
            requires
                n >= 0,
                (4 * m) / 64 + 11 <= bits_for(ct, m),
        ;
    } else if ct == CompressionType::ExpGolomb {
        lemma_zigzags_up_to(res, 2 * m);
        lemma_exp_bits(codes::zigzags(res), 4 * m);
        bits::lemma_pack(codes::exp_bits(codes::zigzags(res)));
        assert(n * 47 <= n * bits_for(ct, m)) by (nonlinear_arith)
            requires
                n >= 0,
                47 <= bits_for(ct, m),
        ;
    } else {
        let b = block_size as int;
        let count = transform::square(stride, p.h, b).count();
        assert(stride >= 0) by (nonlinear_arith)
            requires
                stride == p.w * p.c,
                p.w >= 0,
                p.c >= 0,
        ;
        crate::common::blocks::lemma_count(transform::square(stride, p.h, b));
        lemma_blocks_len(res, stride, p.h, b, count as nat, 2 * m);
    }
}

/// With Golomb-Rice codes, every frame of a plane can be coded.
proof fn lemma_sub_ok(
    p: Pic,
    block_size: u16,
    fq: FrameQuant,
    preferred: Option<PredictionMode>,
    bands: Option<Seq<u8>>,
)
    ensures
        planar::sub_frame(p, CompressionType::GolombRice, block_size, fq, preferred, bands) is Ok,
{
    reveal(planar::sub_frame);
    frame_form::lemma_contest_framed(
        p,
        CompressionType::GolombRice,
        planar::sub_block(block_size, p.w),
        false,
        fq,
        preferred,
        bands,
        None,
        true,
    );
}

/// A plane without loss is not long.
pub proof fn lemma_sub_len(
    p: Pic,
    block_size: u16,
    preferred: Option<PredictionMode>,
    bands: Option<Seq<u8>>,
    m: int,
)
    requires
        p.ok(),
        p.c == 1,
        bounds::small(p.px, m),
        0 <= m <= 0x10_0000,
    ensures
        ({
            let r = planar::sub_frame(
                p,
                CompressionType::GolombRice,
                block_size,
                FrameQuant::spec_lossless(),
                preferred,
                bands,
            );
            r is Ok && 8 * r->Ok_0.data.len() <= p.w * p.h * (m / 16 + 48) + 120
        }),
{
    reveal(planar::sub_frame);
    let ct = CompressionType::GolombRice;
    let b = planar::sub_block(block_size, p.w);
    let fq = FrameQuant::spec_lossless();
    lemma_plain_len(p, ct, b, candidate::lead_mode(p, preferred), false, bands, m);
    lemma_plain_len(p, ct, b, candidate::next_mode(p, preferred), false, bands, m);
    frame_form::lemma_contest_framed(p, ct, b, false, fq, preferred, bands, None, true);
}

/// So can every image of three planes.
pub proof fn lemma_planar_ok(p: Pic, block_size: u16, fq: FrameQuant, bands: Option<Seq<u8>>)
    ensures
        planar::planar_payload(p, CompressionType::GolombRice, block_size, fq, bands) is Ok,
{
    let ct = CompressionType::GolombRice;
    let half = fq.spec_lossy() && fq.chroma_half_res;
    let (y, u, v) = planar::planes_of(p, half);
    let cq = planar::chroma_quant(fq);
    let cb = planar::chroma_bands(bands, half);
    lemma_sub_ok(y, block_size, fq, None, bands);
    let e = planar::sub_frame(y, ct, block_size, fq, None, bands)->Ok_0;
    lemma_sub_ok(u, block_size, cq, e.mode, cb);
    let g = planar::sub_frame(u, ct, block_size, cq, e.mode, cb)->Ok_0;
    lemma_sub_ok(v, block_size, cq, g.mode, cb);
}

/// The frame that wins can be coded, and is not long.
pub proof fn lemma_adaptive_len(
    p: Pic,
    ct: CompressionType,
    block_size: u16,
    first: bool,
    preferred: Option<PredictionMode>,
    bands: Option<Seq<u8>>,
    copies: bool,
    m: int,
)
    requires
        p.ok(),
        bounds::small(p.px, m),
        0 <= m <= 0x10_0000,
        blocks_fit(ct, block_size),
    ensures
        ({
            let r = adaptive::adaptive(
                p,
                ct,
                block_size,
                first,
                FrameQuant::spec_lossless(),
                preferred,
                bands,
                copies,
            );
            r is Ok && 8 * r->Ok_0.data.len() <= frame_bits(p.w * p.c, p.h, ct, block_size, m)
        }),
{
    let fq = FrameQuant::spec_lossless();
    let (a, b) = (candidate::lead_mode(p, preferred), candidate::next_mode(p, preferred));
    lemma_plain_len(p, ct, block_size, a, first, bands, m);
    lemma_plain_len(p, ct, block_size, b, first, bands, m);
    frame_form::lemma_contest_framed(p, ct, block_size, first, fq, preferred, bands, None, copies);
    if ct == CompressionType::GolombRice && p.c == 3 {
        lemma_planar_ok(p, block_size, fq, bands);
        frame_form::lemma_contest_framed(
            p,
            ct,
            block_size,
            first,
            fq,
            preferred,
            bands,
            Some(planar::planar_payload(p, ct, block_size, fq, bands)->Ok_0),
            copies,
        );
    }
}

/// A frame can be coded without loss, and is not long.
pub proof fn lemma_shot_len(x: Reel, px: Seq<i32>, first: bool, bands: Option<Seq<u8>>, m: int)
    requires
        x.ok(),
        px.len() == x.n(),
        bounds::small(px, m),
        0 <= m <= 0x10_0000,
        blocks_fit(x.setup.ct, x.setup.block_size),
    ensures
        ({
            let r = x.shot(px, first, FrameQuant::spec_lossless(), bands);
            let s = x.setup;
            r is Ok && 8 * r->Ok_0.len() <= frame_bits(
                x.w() * x.c(),
                x.h(),
                s.ct,
                s.block_size,
                m,
            )
        }),
{
    reveal(Reel::shot);
    let s = x.setup;
    let p = x.pic(px);
    assert(p.ok());
    if s.adaptive {
        lemma_adaptive_len(p, s.ct, s.block_size, first, None, bands, s.switches.copies, m);
    } else {
        lemma_plain_len(p, s.ct, s.block_size, s.mode, first, None, m);
    }
}

} // verus!

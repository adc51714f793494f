//! Quantisation of samples to multiples of a step, and its closed loop with prediction.

use vstd::prelude::*;
use crate::common::domain::{PredictionMode, BAND_HEIGHT};
use crate::common::predict;
use crate::common::predict::{predict_at, Cursor};

verus! {

/// Division rounded toward zero.
pub open spec fn tdiv(a: int, d: int) -> int {
    if a >= 0 {
        a / d
    } else {
        -((-a) / d)
    }
}

/// The nearest value of 32 bits.
pub open spec fn clamp32(v: int) -> i32 {
    if v > i32::MAX {
        i32::MAX
    } else if v < i32::MIN {
        i32::MIN
    } else {
        v as i32
    }
}

/// How many steps of `q` the sample `v` is from zero, rounded; `b` shifts the rounding, in 64ths.
pub open spec fn quant_level(v: i32, q: int, b: int) -> i32 {
    let bias = if v >= 0 {
        b
    } else {
        -b
    };
    let m = tdiv(64 * predict::abs(v as int) + 32 * q + bias, 64 * q);
    clamp32(
        if v < 0 {
            -m
        } else {
            m
        },
    )
}

/// The multiple of `q` that stands for the sample `v`.
pub open spec fn quant_value(v: i32, q: int, b: int) -> i32 {
    clamp32(quant_level(v, q, b) * q)
}

/// A step as it is used: at least one.
pub open spec fn at_least_one(q: u8) -> int {
    if q == 0 {
        1
    } else {
        q as int
    }
}

/// With a step of one and no shift nothing changes.
pub proof fn lemma_quant_one(v: i32)
    ensures
        quant_level(v, 1, 0) == v,
        quant_value(v, 1, 0) == v,
{
}

/// A sample is off by half a step at most, and by what the shift of the rounding comes to: `q` times
/// its level is that near to it, and so is the multiple of `q` that stands for it.
pub proof fn law_quant_error(v: i32, q: int, b: int, m: int)
    requires
        1 <= q <= 255,
        -m <= b <= m <= 0x1000,
        -0x4000_0000 <= v <= 0x4000_0000,
    ensures
        -(32 * q + m) <= 64 * (quant_level(v, q, b) * q - v) <= 32 * q + m,
        quant_value(v, q, b) == quant_level(v, q, b) * q,
        -(32 * q + m) <= 64 * (quant_value(v, q, b) - v) <= 32 * q + m,
        quant_value(v, q, b) as int % q == 0,
{
    let a = if v < 0 {
        -(v as int)
    } else {
        v as int
    };
    let bias = if v >= 0 {
        b
    } else {
        -b
    };
    let n = 64 * a + 32 * q + bias;
    let d = 64 * q;
    let t = if n >= 0 {
        n
    } else {
        -n
    };
    let k = t / d;
    vstd::arithmetic::div_mod::lemma_fundamental_div_mod(t, d);
    vstd::arithmetic::div_mod::lemma_mod_bound(t, d);
    vstd::arithmetic::div_mod::lemma_div_pos_is_pos(t, d);
    assert(d * k == 64 * (q * k)) by (nonlinear_arith)
        requires
            d == 64 * q,
    ;
    assert(k * q == q * k) by (nonlinear_arith);
    assert((-k) * q == -(k * q)) by (nonlinear_arith);
    assert(k <= a + 0x1100) by (nonlinear_arith)
        requires
            64 * (q * k) <= t,
            t <= 64 * a + 32 * q + 0x1000,
            1 <= q <= 255,
            k >= 0,
            a >= 0,
    ;
    vstd::arithmetic::div_mod::lemma_mod_multiples_basic(k, q);
    vstd::arithmetic::div_mod::lemma_mod_multiples_basic(-k, q);
    let level = quant_level(v, q, b);
    assert(level == k || level == -k);
}

/// No level is passed over: a larger sample has no smaller level.
pub proof fn law_quant_rises(u: i32, v: i32, q: int, b: int)
    requires
        1 <= q <= 255,
        0 <= u <= v,
        -0x1000 <= b <= 0x1000,
    ensures
        quant_level(u, q, b) <= quant_level(v, q, b),
{
    let (x, y) = (64 * u + 32 * q + b, 64 * v + 32 * q + b);
    let d = 64 * q;
    if x >= 0 {
        vstd::arithmetic::div_mod::lemma_div_is_ordered(x, y, d);
    } else {
        vstd::arithmetic::div_mod::lemma_div_pos_is_pos(-x, d);
        if y >= 0 {
            vstd::arithmetic::div_mod::lemma_div_pos_is_pos(y, d);
        } else {
            vstd::arithmetic::div_mod::lemma_div_is_ordered(-y, -x, d);
        }
    }
}

/// What a level stands for is that many steps, as far as numbers go.
pub proof fn law_dequant(level: i32, q: int)
    requires
        1 <= q <= 255,
    ensures
        i32::MIN <= level * q <= i32::MAX ==> dequant(level, q) == level * q,
        level * q > i32::MAX ==> dequant(level, q) == i32::MAX,
        level * q < i32::MIN ==> dequant(level, q) == i32::MIN,
{
}

/// How many steps of `q` the sample `v` is from zero.
pub fn quant_level_exec(v: i32, q: u8, b: i8) -> (r: i32)
    requires
        q >= 1,
    ensures
        r == quant_level(v, q as int, b as int),
{
    let a: i64 = if v < 0 {
        -(v as i64)
    } else {
        v as i64
    };
    let bias: i64 = if v >= 0 {
        b as i64
    } else {
        -(b as i64)
    };
    let n: i64 = 64 * a + 32 * q as i64 + bias;
    let d: i64 = 64 * q as i64;
    proof {
        let m = if n >= 0 {
            n as int / d as int
        } else {
            (-n) as int / d as int
        };
        let top = if n >= 0 {
            n as int
        } else {
            -n as int
        };
        vstd::arithmetic::div_mod::lemma_div_is_ordered_by_denominator(top, 1, d as int);
        vstd::arithmetic::div_mod::lemma_div_pos_is_pos(top, d as int);
        assert(0 <= m <= top);
    }
    let m: i64 = if n >= 0 {
        n / d
    } else {
        -((-n) / d)
    };
    let s: i64 = if v < 0 {
        -m
    } else {
        m
    };
    clamp32_exec(s)
}

fn clamp32_exec(s: i64) -> (r: i32)
    ensures
        r == clamp32(s as int),
{
    if s > i32::MAX as i64 {
        i32::MAX
    } else if s < i32::MIN as i64 {
        i32::MIN
    } else {
        s as i32
    }
}

/// The sample that `level` steps of `q` stand for.
pub open spec fn dequant(level: i32, q: int) -> i32 {
    clamp32(level * q)
}

/// The sample that `level` steps of `q` stand for.
pub fn dequant_exec(level: i32, q: u8) -> (r: i32)
    ensures
        r == dequant(level, q as int),
{
    proof {
        assert(-0x80_0000_0000 <= level * q <= 0x80_0000_0000) by (nonlinear_arith)
            requires
                -0x8000_0000 <= level <= 0x7fff_ffff,
                0 <= q <= 255,
        ;
    }
    clamp32_exec(level as i64 * q as i64)
}

/// The multiple of `q` that stands for the sample `v`.
pub fn quant_value_exec(v: i32, q: u8, b: i8) -> (r: i32)
    requires
        q >= 1,
    ensures
        r == quant_value(v, q as int, b as int),
{
    dequant_exec(quant_level_exec(v, q, b), q)
}

/// The multiple of `q` that is nearest to the sample `v`.
pub fn quant_scalar(v: i32, q: u8) -> (r: i32)
    requires
        q >= 1,
    ensures
        r == quant_value(v, q as int, 0),
{
    quant_value_exec(v, q, 0)
}

/// The nearest multiples of the step `q`.
pub open spec fn quantized(px: Seq<i32>, q: int) -> Seq<i32> {
    Seq::new(px.len(), |i: int| quant_value(px[i], q, 0))
}

/// The nearest multiples of the step `q_step`.
pub fn quantize_residuals(px: &[i32], q_step: u8) -> (out: Vec<i32>)
    ensures
        out@ == quantized(px@, at_least_one(q_step)),
{
    let q: u8 = if q_step == 0 {
        1
    } else {
        q_step
    };
    let mut out: Vec<i32> = Vec::with_capacity(px.len());
    let mut i: usize = 0;
    while i < px.len()
        invariant
            q >= 1,
            i <= px@.len(),
            out@ == quantized(px@, q as int).take(i as int),
        decreases px@.len() - i,
    {
        out.push(quant_scalar(px[i], q));
        i = i + 1;
        assert(out@ =~= quantized(px@, q as int).take(i as int));
    }
    assert(out@ =~= quantized(px@, q as int));
    out
}

/// The step for sample `i`, in an image whose rows have `stride` samples: that of its band, where
/// there is a table of steps, else `step`.
pub open spec fn step_at(i: int, stride: int, step: u8, bands: Option<Seq<u8>>) -> int {
    match bands {
        Some(t) => {
            let b = i / stride / (BAND_HEIGHT as int);
            if b < t.len() {
                at_least_one(t[b])
            } else {
                at_least_one(step)
            }
        },
        None => at_least_one(step),
    }
}

/// Where there is a table of steps, each stands for the rows of its band, 32 of them; rows that the
/// table does not reach, and frames without a table, have the step of the frame.
pub proof fn law_step_at(x: int, y: int, stride: int, step: u8, t: Seq<u8>)
    requires
        0 <= x < stride,
        0 <= y,
    ensures
        y < 32 * t.len() && t[y / 32] >= 1 ==> step_at(y * stride + x, stride, step, Some(t))
            == t[y / 32],
        y >= 32 * t.len() && step >= 1 ==> step_at(y * stride + x, stride, step, Some(t)) == step,
        step >= 1 ==> step_at(y * stride + x, stride, step, None) == step,
        step_at(y * stride + x, stride, step, Some(t)) >= 1,
        step_at(y * stride + x, stride, step, None) >= 1,
{
    vstd::arithmetic::div_mod::lemma_fundamental_div_mod_converse(y * stride + x, stride, y, x);
}

/// What a loop of prediction and quantisation works with.
pub struct LoopParams {
    pub w: int,
    pub c: int,
    pub mode: PredictionMode,
    pub step: u8,
    pub bias: i8,
    pub bands: Option<Seq<u8>>,
}

/// Quantised residuals of the first `n` samples: each sample is predicted from what the decoder
/// will have in place of those before it.
pub open spec fn loop_residuals(px: Seq<i32>, p: LoopParams, n: nat) -> Seq<i32>
    decreases n,
{
    if n == 0 {
        Seq::empty()
    } else {
        let res = loop_residuals(px, p, (n - 1) as nat);
        let known = predict::undo_from(Seq::empty(), res, p.w, p.c, p.mode);
        let guess = predict::predict_spec(known, n - 1, p.w, p.c, p.mode);
        let q = step_at(n - 1, p.w * p.c, p.step, p.bands);
        res.push(quant_value(px[n - 1].wrapping_sub(guess), q, p.bias as int))
    }
}

pub proof fn lemma_loop_len(px: Seq<i32>, p: LoopParams, n: nat)
    ensures
        loop_residuals(px, p, n).len() == n,
    decreases n,
{
    if n > 0 {
        lemma_loop_len(px, p, (n - 1) as nat);
    }
}

/// With steps of one and no shift the loop gives the plain residuals.
pub proof fn lemma_loop_lossless(px: Seq<i32>, p: LoopParams, n: nat)
    requires
        predict::geometry_ok(p.w, p.c),
        n <= px.len(),
        p.step <= 1,
        p.bias == 0,
        p.bands is None,
    ensures
        loop_residuals(px, p, n) == predict::residuals(px, p.w, p.c, p.mode, 0, n as int),
    decreases n,
{
    let all = predict::residuals(px, p.w, p.c, p.mode, 0, n as int);
    if n > 0 {
        let m = (n - 1) as nat;
        lemma_loop_lossless(px, p, m);
        let res = predict::residuals(px, p.w, p.c, p.mode, 0, m as int);
        predict::lemma_undo_residuals(px, p.w, p.c, p.mode, 0, m as int);
        assert(px.take(0) =~= Seq::<i32>::empty());
        let known = px.take(m as int);
        assert(known.take(m as int) =~= px.take(m as int));
        predict::lemma_predict_prefix(known, px, m as int, p.w, p.c, p.mode);
        lemma_quant_one(px[m as int].wrapping_sub(predict::predict_spec(px, m as int, p.w, p.c, p.mode)));
        assert(loop_residuals(px, p, n) =~= all);
    } else {
        assert(all =~= Seq::<i32>::empty());
    }
}

/// Quantised residuals of an image, and what the decoder makes of them.
pub fn closed_loop_predict_quant_banded(
    pixels: &[i32],
    width: usize,
    components: usize,
    mode: PredictionMode,
    step: u8,
    bias: i8,
    band_steps: Option<&Vec<u8>>,
) -> (r: (Vec<i32>, Vec<i32>))
    requires
        predict::geometry_ok(width as int, components as int),
    ensures
        r.0@ == loop_residuals(
            pixels@,
            (LoopParams {
                w: width as int,
                c: components as int,
                mode,
                step,
                bias,
                bands: bands_view(band_steps),
            }),
            pixels@.len(),
        ),
        r.1@ == predict::undo_from(
            Seq::empty(),
            r.0@,
            width as int,
            components as int,
            mode,
        ),
{
    let ghost p = LoopParams {
        w: width as int,
        c: components as int,
        mode,
        step,
        bias,
        bands: bands_view(band_steps),
    };
    proof {
        assert(1 <= width * components <= 0xffff * 4) by (nonlinear_arith)
            requires
                1 <= width <= 0xffff,
                1 <= components <= 4,
        ;
    }
    let stride: usize = width * components;
    let n: usize = pixels.len();
    let mut res: Vec<i32> = Vec::with_capacity(n);
    let mut known: Vec<i32> = Vec::with_capacity(n);
    let mut cur = Cursor::new(0, width, components);
    while cur.idx < n
        invariant
            predict::geometry_ok(width as int, components as int),
            p == (LoopParams {
                w: width as int,
                c: components as int,
                mode,
                step,
                bias,
                bands: bands_view(band_steps),
            }),
            stride == width * components,
            stride >= 1,
            n == pixels@.len(),
            cur.idx <= n,
            cur.at(cur.idx as int, width as int, components as int),
            res@ == loop_residuals(pixels@, p, cur.idx as nat),
            res@.len() == cur.idx,
            known@ == predict::undo_from(
                Seq::empty(),
                res@,
                width as int,
                components as int,
                mode,
            ),
            known@.len() == cur.idx,
        decreases n - cur.idx,
    {
        let i: usize = cur.idx;
        let guess: i32 = predict_at(&known, i, cur.x, components, width, mode);
        let q: u8 = match band_steps {
            Some(t) => {
                let b: usize = i / stride / BAND_HEIGHT;
                if b < t.len() {
                    if t[b] == 0 {
                        1
                    } else {
                        t[b]
                    }
                } else if step == 0 {
                    1
                } else {
                    step
                }
            },
            None => {
                if step == 0 {
                    1
                } else {
                    step
                }
            },
        };
        assert(q == step_at(i as int, stride as int, step, p.bands));
        let r: i32 = quant_value_exec(pixels[i].wrapping_sub(guess), q, bias);
        let ghost before = res@;
        res.push(r);
        known.push(r.wrapping_add(guess));
        cur.advance(width, components);
        assert(res@.drop_last() =~= before);
    }
    (res, known)
}

pub open spec fn bands_view(b: Option<&Vec<u8>>) -> Option<Seq<u8>> {
    match b {
        Some(t) => Some(t@),
        None => None,
    }
}

/// The closed loop does not drift: where no sample overflows, what the decoder has differs from each
/// sample by half a step at most, and by what the shift of the rounding comes to.
pub proof fn law_closed_loop_error(px: Seq<i32>, p: LoopParams, n: nat, i: int, m: int)
    requires
        predict::geometry_ok(p.w, p.c),
        0 <= i < n <= px.len(),
        -m <= p.bias <= m <= 128,
        ({
            let res = loop_residuals(px, p, i as nat);
            let known = predict::undo_from(Seq::empty(), res, p.w, p.c, p.mode);
            let guess = predict::predict_spec(known, i, p.w, p.c, p.mode);
            -0x2000_0000 <= guess <= 0x2000_0000 && -0x2000_0000 <= px[i] <= 0x2000_0000
        }),
    ensures
        ({
            let known = predict::undo_from(
                Seq::empty(),
                loop_residuals(px, p, n),
                p.w,
                p.c,
                p.mode,
            );
            let q = step_at(i, p.w * p.c, p.step, p.bands);
            -(32 * q + m) <= 64 * (known[i] - px[i]) <= 32 * q + m
        }),
    decreases n,
{
    lemma_loop_len(px, p, n);
    lemma_loop_len(px, p, (n - 1) as nat);
    let res = loop_residuals(px, p, (n - 1) as nat);
    let all = loop_residuals(px, p, n);
    assert(all.drop_last() =~= res);
    predict::lemma_undo_len(Seq::empty(), res, p.w, p.c, p.mode);
    let known = predict::undo_from(Seq::empty(), res, p.w, p.c, p.mode);
    if i < n - 1 {
        law_closed_loop_error(px, p, (n - 1) as nat, i, m);
    } else {
        let guess = predict::predict_spec(known, i, p.w, p.c, p.mode);
        let q = step_at(i, p.w * p.c, p.step, p.bands);
        law_quant_error(px[i].wrapping_sub(guess), q, p.bias as int, m);
    }
}

/// The steps of a loop are at most `s`.
pub open spec fn steps_within(step: u8, bands: Option<Seq<u8>>, s: int) -> bool {
    &&& 1 <= s <= 255
    &&& step <= s
    &&& bands is Some ==> forall|b: int| 0 <= b < bands->0.len() ==> #[trigger] bands->0[b] <= s
}

proof fn lemma_step_within(i: int, stride: int, step: u8, bands: Option<Seq<u8>>, s: int)
    requires
        0 <= i,
        1 <= stride,
        steps_within(step, bands, s),
    ensures
        1 <= step_at(i, stride, step, bands) <= s,
{
    vstd::arithmetic::div_mod::lemma_div_pos_is_pos(i, stride);
    if let Some(t) = bands {
        let b = i / stride / (BAND_HEIGHT as int);
        if b < t.len() {
            assert(t[b] <= s);
        }
    }
}

/// What the decoder has of the first `n` samples.
pub open spec fn loop_known(px: Seq<i32>, p: LoopParams, n: nat) -> Seq<i32> {
    predict::undo_from(Seq::empty(), loop_residuals(px, p, n), p.w, p.c, p.mode)
}

/// Whatever the image, the decoder has each sample to half the coarsest step and the shift of the
/// rounding, where samples are not extreme.
pub proof fn law_closed_loop_close(px: Seq<i32>, p: LoopParams, n: nat, s: int, m: int)
    requires
        predict::geometry_ok(p.w, p.c),
        n <= px.len(),
        -m <= p.bias <= m <= 128,
        steps_within(p.step, p.bands, s),
        forall|i: int| 0 <= i < px.len() ==> -0x1000_0000 <= #[trigger] px[i] <= 0x1000_0000,
    ensures
        loop_known(px, p, n).len() == n,
        forall|i: int|
            0 <= i < n ==> -(32 * s + m) <= 64 * (#[trigger] loop_known(px, p, n)[i] - px[i]) <= 32
                * s + m,
    decreases n,
{
    lemma_loop_len(px, p, n);
    predict::lemma_undo_len(Seq::empty(), loop_residuals(px, p, n), p.w, p.c, p.mode);
    if n > 0 {
        let k = (n - 1) as nat;
        law_closed_loop_close(px, p, k, s, m);
        let known = loop_known(px, p, k);
        assert forall|j: int| 0 <= j < known.len() implies -0x1000_1000 <= #[trigger] known[j]
            <= 0x1000_1000 by {
            assert(-0x1000_0000 <= px[j] <= 0x1000_0000);
        }
        assert(known.take(k as int) =~= known);
        crate::common::bounds::lemma_predict_small(known, k as int, p.w, p.c, p.mode, 0x1000_1000);
        assert(1 <= p.w * p.c) by (nonlinear_arith)
            requires
                1 <= p.w,
                1 <= p.c,
        ;
        assert(-0x1000_0000 <= px[k as int] <= 0x1000_0000);
        lemma_step_within(k as int, p.w * p.c, p.step, p.bands, s);
        law_closed_loop_error(px, p, n, k as int, m);
        let all = loop_residuals(px, p, n);
        assert(all.drop_last() =~= loop_residuals(px, p, k));
        assert forall|i: int| 0 <= i < n implies -(32 * s + m) <= 64 * (
        #[trigger] loop_known(px, p, n)[i] - px[i]) <= 32 * s + m by {
            if i < k {
                assert(loop_known(px, p, n)[i] == known[i]);
            }
        }
    }
}

/// Quantised residuals of small samples are small.
pub proof fn lemma_loop_small(px: Seq<i32>, p: LoopParams, n: nat, s: int, m: int)
    requires
        predict::geometry_ok(p.w, p.c),
        n <= px.len(),
        steps_within(p.step, p.bands, s),
        crate::common::bounds::small(px, m),
        0 <= m <= 0x800_0000,
    ensures
        crate::common::bounds::small(loop_residuals(px, p, n), 2 * m + 2 * s + 8),
    decreases n,
{
    if n > 0 {
        let k = (n - 1) as nat;
        lemma_loop_small(px, p, k, s, m);
        assert forall|i: int| 0 <= i < px.len() implies -0x1000_0000 <= #[trigger] px[i]
            <= 0x1000_0000 by {
            assert(-m <= px[i] <= m);
        }
        law_closed_loop_close(px, p, k, s, 128);
        let known = loop_known(px, p, k);
        let b = m + s + 2;
        assert forall|j: int| 0 <= j < known.len() implies -b <= #[trigger] known[j] <= b by {
            assert(-m <= px[j] <= m);
        }
        assert(known.take(k as int) =~= known);
        crate::common::bounds::lemma_predict_small(known, k as int, p.w, p.c, p.mode, b);
        assert(1 <= p.w * p.c) by (nonlinear_arith)
            requires
                1 <= p.w,
                1 <= p.c,
        ;
        lemma_step_within(k as int, p.w * p.c, p.step, p.bands, s);
        let guess = predict::predict_spec(known, k as int, p.w, p.c, p.mode);
        let q = step_at(k as int, p.w * p.c, p.step, p.bands);
        assert(-m <= px[k as int] <= m);
        law_quant_error(px[k as int].wrapping_sub(guess), q, p.bias as int, 128);
        let all = loop_residuals(px, p, n);
        lemma_loop_len(px, p, k);
        assert forall|i: int| 0 <= i < all.len() implies -(2 * m + 2 * s + 8) <= #[trigger] all[i]
            <= 2 * m + 2 * s + 8 by {
            if i < k {
                assert(all[i] == loop_residuals(px, p, k)[i]);
            }
        }
    }
}

} // verus!

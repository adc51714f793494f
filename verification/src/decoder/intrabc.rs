//! Decoder of frames coded block by block, where a block may repeat an earlier stretch.

use vstd::prelude::*;
use crate::common::bits;
use crate::common::block_copy;
use crate::common::block_copy::block_grid;
use crate::common::blocks;
use crate::common::blocks::{Grid, Tiling};
use crate::common::bounds;
use crate::common::codes;
use crate::common::domain::PredictionMode;
use crate::common::error;
use crate::common::error::{invalid, short, CrfResult, Fault};
use crate::common::framing;
use crate::common::framing::get_part;
use crate::common::le;
use crate::common::le::get_le32;
use crate::common::predict;
use crate::common::predict::predict_at;
use crate::decoder::exp_golomb;
use crate::decoder::exp_golomb::decode_frame_exp_golomb;
use crate::decoder::rle_golomb;
use crate::decoder::rle_golomb::decode_frame_rle_golomb;
use crate::encoder::intrabc as enc;
use crate::encoder::lengths;

verus! {

/// Bytes that a payload has at least.
pub const HEADER: usize = 11;

/// Sizes of an image, and what its blocks come to.
pub struct Plan {
    pub w: int,
    pub h: int,
    pub c: int,
    pub mode: PredictionMode,
    pub decisions: Seq<i32>,
    pub vectors: Seq<i32>,
    pub residuals: Seq<i32>,
}

impl Plan {
    pub open spec fn grid(self) -> Tiling {
        block_copy::grid(self.w, self.h, self.c)
    }
}

/// Number of blocks among the first `n` that are repeated.
pub open spec fn copies(decisions: Seq<i32>, n: nat) -> nat
    decreases n,
{
    if n == 0 {
        0
    } else {
        copies(decisions, (n - 1) as nat) + if decisions[n - 1] == 1 {
            1nat
        } else {
            0nat
        }
    }
}

/// Number of samples of the blocks among the first `n` that are predicted.
pub open spec fn predicted(g: Tiling, decisions: Seq<i32>, n: nat) -> int
    decreases n,
{
    if n == 0 {
        0
    } else {
        predicted(g, decisions, (n - 1) as nat) + if decisions[n - 1] == 1 {
            0
        } else {
            g.area(n - 1)
        }
    }
}

/// An image in which block `t` repeats what stands `shift` further on.
pub open spec fn copied(buf: Seq<i32>, g: Tiling, t: int, shift: int) -> Seq<i32> {
    Seq::new(
        buf.len(),
        |i: int|
            if g.tile_of(i) == t {
                buf[i + shift]
            } else {
                buf[i]
            },
    )
}

/// An image in which the first `n` samples of block `t` are made from residuals.
pub open spec fn filled(buf: Seq<i32>, p: Plan, t: int, res: Seq<i32>, n: nat) -> Seq<i32>
    decreases n,
{
    if n == 0 {
        buf
    } else {
        let b = filled(buf, p, t, res, (n - 1) as nat);
        let i = p.grid().pos(t, n - 1);
        b.update(
            i,
            res[n - 1].wrapping_add(predict::predict_spec(b, i, p.w, p.c, p.mode)),
        )
    }
}

/// The place that block `t` repeats.
pub open spec fn source(p: Plan, t: int) -> (int, int) {
    let k = 2 * copies(p.decisions, t as nat) as int;
    (
        block_copy::column(p.w, p.h, p.c, t) + p.vectors[k],
        block_copy::row(p.w, p.h, p.c, t) + p.vectors[k + 1],
    )
}

/// The residuals of block `t`.
pub open spec fn residuals_of(p: Plan, t: int) -> Seq<i32> {
    let at = predicted(p.grid(), p.decisions, t as nat);
    p.residuals.subrange(at, at + p.grid().area(t))
}

/// The image after the first `n` blocks.
pub open spec fn painted(p: Plan, n: nat) -> Result<Seq<i32>, Fault>
    decreases n,
{
    if n == 0 {
        Ok(Seq::new((p.h * (p.w * p.c)) as nat, |i: int| 0i32))
    } else {
        let t = n - 1;
        match painted(p, t as nat) {
            Err(f) => Err(f),
            Ok(buf) => if p.decisions[t] == 1 {
                let (sx, sy) = source(p, t);
                if block_copy::may_copy(p.w, p.h, p.c, t, sx, sy) {
                    Ok(copied(buf, p.grid(), t, block_copy::shift(p.w, p.h, p.c, t, sx, sy)))
                } else {
                    Err(Fault::Invalid)
                }
            } else {
                Ok(filled(buf, p, t, residuals_of(p, t), p.grid().area(t) as nat))
            },
        }
    }
}

/// The plan that the streams of a payload with `n` blocks make.
pub open spec fn plan_of(
    w: int,
    h: int,
    c: int,
    data: Seq<u8>,
    n: nat,
    dec: Seq<u8>,
    vec: Seq<u8>,
    res: Seq<u8>,
) -> Plan {
    let decisions = rle_golomb::rle_frame(dec, data[5] as nat, n);
    Plan {
        w,
        h,
        c,
        mode: PredictionMode::of_code(data[4]),
        decisions,
        vectors: exp_golomb::exp_frame(vec, (2 * copies(decisions, n)) as nat),
        residuals: rle_golomb::rle_frame(
            res,
            data[6] as nat,
            predicted(block_copy::grid(w, h, c), decisions, n) as nat,
        ),
    }
}

/// The image that a payload stands for.
pub open spec fn intrabc_result(data: Seq<u8>, w: int, h: int, c: int) -> Result<Seq<i32>, Fault> {
    if data.len() < HEADER {
        Err(Fault::Short { expected: HEADER as int, actual: data.len() as int })
    } else {
        let n = le::le32_at(data, 0);
        match framing::part_at(data, 7) {
            Err(f) => Err(f),
            Ok((dec, a)) => match framing::part_at(data, a) {
                Err(f) => Err(f),
                Ok((vec, b)) => match framing::part_at(data, b) {
                    Err(f) => Err(f),
                    Ok((res, _)) => if n > block_copy::grid(w, h, c).count() {
                        Err(Fault::Invalid)
                    } else {
                        painted(plan_of(w, h, c, data, n, dec, vec, res), n)
                    },
                },
            },
        }
    }
}

/// How many vectors and residuals the first `n` blocks take.
proof fn lemma_taken(g: Tiling, decisions: Seq<i32>, n: nat, m: nat)
    requires
        g.ok(),
        n <= m <= g.count(),
    ensures
        copies(decisions, n) <= copies(decisions, m) <= m,
        0 <= predicted(g, decisions, n) <= predicted(g, decisions, m) <= enc::area_upto(g, m),
    decreases m,
{
    if m > 0 {
        blocks::lemma_tile_dims(g, m - 1);
        if n < m {
            lemma_taken(g, decisions, n, (m - 1) as nat);
        } else {
            lemma_taken(g, decisions, (m - 1) as nat, (m - 1) as nat);
        }
    }
}

proof fn lemma_err_stays(p: Plan, n: nat, m: nat)
    requires
        n <= m,
        painted(p, n) is Err,
    ensures
        painted(p, m) == painted(p, n),
    decreases m,
{
    if n < m {
        lemma_err_stays(p, n, (m - 1) as nat);
    }
}

/// Counts what the decisions ask for: repeated blocks, and samples of predicted ones.
fn count_streams(decisions: &Vec<i32>, g: Grid) -> (r: (usize, usize))
    requires
        g.ok(),
        decisions@.len() <= g@.count(),
    ensures
        r.0 == copies(decisions@, decisions@.len()),
        r.1 == predicted(g@, decisions@, decisions@.len()),
{
    let n: usize = decisions.len();
    let mut k: usize = 0;
    let mut area: usize = 0;
    let mut t: usize = 0;
    while t < n
        invariant
            g.ok(),
            n == decisions@.len(),
            n <= g@.count(),
            t <= n,
            k <= t,
            k == copies(decisions@, t as nat),
            area == predicted(g@, decisions@, t as nat),
        decreases n - t,
    {
        let (_x0, _y0, tw, th) = g.rect(t);
        proof {
            lemma_taken(g@, decisions@, (t + 1) as nat, (t + 1) as nat);
            enc::lemma_area_upto(g@, (t + 1) as nat);
            blocks::lemma_tile_dims(g@, t as int);
            lemma_taken(g@, decisions@, t as nat, t as nat);
            enc::lemma_area_upto(g@, t as nat);
            assert(th * tw <= g.w * g.h) by (nonlinear_arith)
                requires
                    0 <= th <= g.h,
                    0 <= tw <= g.w,
            ;
        }
        if decisions[t] == 1 {
            k = k + 1;
        } else {
            area = area + th * tw;
        }
        t = t + 1;
    }
    (k, area)
}

/// Repeats in block `t` what starts at `sx`, `sy`.
fn copy_block(
    buf: &mut Vec<i32>,
    g: Grid,
    t: usize,
    sx: usize,
    sy: usize,
    components: usize,
    Ghost(w): Ghost<int>,
)
    requires
        block_copy::size_ok(w, g.h as int, components as int),
        g@ == block_copy::grid(w, g.h as int, components as int),
        g.ok(),
        t < g@.count(),
        old(buf)@.len() == g.h * (w * components),
        block_copy::may_copy(w, g.h as int, components as int, t as int, sx as int, sy as int),
    ensures
        final(buf)@ == copied(
            old(buf)@,
            g@,
            t as int,
            block_copy::shift(w, g.h as int, components as int, t as int, sx as int, sy as int),
        ),
{
    let ghost before = buf@;
    let ghost (h, c) = (g.h as int, components as int);
    let ghost sh = block_copy::shift(w, h, c, t as int, sx as int, sy as int);
    let (_x0, _y0, tw, th) = g.rect(t);
    proof {
        blocks::lemma_tile_dims(g@, t as int);
        block_copy::lemma_grid(w, h, c);
        assert(1 <= th * tw <= h * (w * c)) by (nonlinear_arith)
            requires
                1 <= th <= h,
                1 <= tw <= w * c,
        ;
    }
    let n: usize = th * tw;
    let mut j: usize = 0;
    while j < n
        invariant
            block_copy::size_ok(w, h, c),
            h == g.h,
            c == components,
            g@ == block_copy::grid(w, h, c),
            g.ok(),
            t < g@.count(),
            block_copy::may_copy(w, h, c, t as int, sx as int, sy as int),
            sh == block_copy::shift(w, h, c, t as int, sx as int, sy as int),
            tw == g@.tw(t as int),
            1 <= tw,
            n == g@.area(t as int),
            j <= n,
            before.len() == h * (w * c),
            buf@.len() == before.len(),
            forall|i: int|
                0 <= i < before.len() ==> #[trigger] buf@[i] == if g@.tile_of(i) == t
                    && g@.within(i) < j {
                    before[i + sh]
                } else {
                    before[i]
                },
        decreases n - j,
    {
        proof {
            block_copy::lemma_source(w, h, c, t as int, j as int, sx as int, sy as int);
            block_copy::lemma_grid(w, h, c);
            let y = sy + j as int / tw as int;
            blocks::lemma_pos(g@, t as int, j as int);
            blocks::lemma_tile_dims(g@, t as int);
            assert(0 <= y * (w * c) <= h * (w * c)) by (nonlinear_arith)
                requires
                    0 <= y <= h,
                    w * c >= 0,
            ;
            assert(0 <= sx * c <= w * c) by (nonlinear_arith)
                requires
                    0 <= sx <= w,
                    c >= 1,
            ;
        }
        let p: usize = g.place(t, j);
        let q: usize = (sy + j / tw) * g.w + sx * components + j % tw;
        let v: i32 = buf[q];
        assert(v == before[p + sh]);
        buf.set(p, v);
        proof {
            assert forall|i: int| 0 <= i < before.len() implies #[trigger] buf@[i] == if g@.tile_of(
                i,
            ) == t && g@.within(i) < j + 1 {
                before[i + sh]
            } else {
                before[i]
            } by {
                blocks::lemma_place(g@, i);
            }
        }
        j = j + 1;
    }
    proof {
        assert forall|i: int| 0 <= i < before.len() implies #[trigger] buf@[i] == copied(
            before,
            g@,
            t as int,
            sh,
        )[i] by {
            blocks::lemma_place(g@, i);
        }
        assert(buf@ =~= copied(before, g@, t as int, sh));
    }
}

/// Makes block `t` from the residuals from `at` on.
fn fill_block(
    buf: &mut Vec<i32>,
    g: Grid,
    t: usize,
    res: &Vec<i32>,
    at: usize,
    width: usize,
    components: usize,
    mode: PredictionMode,
    Ghost(p): Ghost<Plan>,
)
    requires
        p.w == width,
        p.h == g.h,
        p.c == components,
        p.mode == mode,
        block_copy::size_ok(p.w, p.h, p.c),
        g@ == p.grid(),
        g.ok(),
        t < g@.count(),
        old(buf)@.len() == p.h * (p.w * p.c),
        at + g@.area(t as int) <= res@.len(),
    ensures
        final(buf)@ == filled(
            old(buf)@,
            p,
            t as int,
            res@.subrange(at as int, at + g@.area(t as int)),
            g@.area(t as int) as nat,
        ),
        final(buf)@.len() == old(buf)@.len(),
{
    let ghost before = buf@;
    let ghost rs = res@.subrange(at as int, at + g@.area(t as int));
    let (_x0, _y0, tw, th) = g.rect(t);
    let len: usize = res.len();
    proof {
        blocks::lemma_tile_dims(g@, t as int);
        block_copy::lemma_grid(p.w, p.h, p.c);
        assert(1 <= th * tw <= p.h * (p.w * p.c)) by (nonlinear_arith)
            requires
                1 <= th <= p.h,
                1 <= tw <= p.w * p.c,
        ;
    }
    let n: usize = th * tw;
    let mut j: usize = 0;
    while j < n
        invariant
            p.w == width,
            p.h == g.h,
            p.c == components,
            p.mode == mode,
            block_copy::size_ok(p.w, p.h, p.c),
            g@ == p.grid(),
            g.ok(),
            t < g@.count(),
            n == g@.area(t as int),
            len == res@.len(),
            at + n <= len,
            rs == res@.subrange(at as int, at + n),
            j <= n,
            buf@.len() == p.h * (p.w * p.c),
            buf@ == filled(before, p, t as int, rs, j as nat),
        decreases n - j,
    {
        proof {
            block_copy::lemma_grid(p.w, p.h, p.c);
        }
        let i: usize = g.place(t, j);
        proof {
            block_copy::lemma_pixel_column(p.w, p.h, p.c, i as int);
        }
        let x: usize = (i % g.w) / components;
        let guess: i32 = predict_at(buf.as_slice(), i, x, components, width, mode);
        let v: i32 = res[at + j].wrapping_add(guess);
        assert(rs[j as int] == res@[at + j]);
        buf.set(i, v);
        j = j + 1;
    }
}

fn blank(n: usize) -> (v: Vec<i32>)
    ensures
        v@ == Seq::new(n as nat, |i: int| 0i32),
{
    let mut v: Vec<i32> = Vec::new();
    let mut i: usize = 0;
    while i < n
        invariant
            i <= n,
            v@.len() == i,
            forall|j: int| 0 <= j < i ==> #[trigger] v@[j] == 0,
        decreases n - i,
    {
        v.push(0);
        i = i + 1;
    }
    assert(v@ =~= Seq::new(n as nat, |i: int| 0i32));
    v
}

/// Goes through the blocks.
fn paint(
    g: Grid,
    width: usize,
    components: usize,
    mode: PredictionMode,
    decisions: &Vec<i32>,
    vectors: &Vec<i32>,
    residuals: &Vec<i32>,
    Ghost(p): Ghost<Plan>,
) -> (r: CrfResult<Vec<i32>>)
    requires
        p.w == width,
        p.h == g.h,
        p.c == components,
        p.mode == mode,
        p.decisions == decisions@,
        p.vectors == vectors@,
        p.residuals == residuals@,
        block_copy::size_ok(p.w, p.h, p.c),
        g@ == p.grid(),
        g.ok(),
        decisions@.len() <= g@.count(),
        vectors@.len() == 2 * copies(decisions@, decisions@.len()),
        residuals@.len() == predicted(g@, decisions@, decisions@.len()),
    ensures
        error::agrees(r, painted(p, decisions@.len())),
        r is Ok ==> r->Ok_0@.len() == p.h * (p.w * p.c),
{
    proof {
        block_copy::lemma_grid(p.w, p.h, p.c);
    }
    let n: usize = decisions.len();
    let vlen: usize = vectors.len();
    let rlen: usize = residuals.len();
    let mut buf: Vec<i32> = blank(g.w * g.h);
    let mut k: usize = 0;
    let mut at: usize = 0;
    let mut t: usize = 0;
    assert(buf@ == painted(p, 0)->Ok_0);
    while t < n
        invariant
            p.w == width,
            p.h == g.h,
            p.c == components,
            p.mode == mode,
            p.decisions == decisions@,
            p.vectors == vectors@,
            p.residuals == residuals@,
            block_copy::size_ok(p.w, p.h, p.c),
            g@ == p.grid(),
            g.ok(),
            n == decisions@.len(),
            n <= g@.count(),
            vlen == vectors@.len(),
            rlen == residuals@.len(),
            vlen == 2 * copies(decisions@, n as nat),
            rlen == predicted(g@, decisions@, n as nat),
            t <= n,
            k == 2 * copies(decisions@, t as nat),
            at == predicted(g@, decisions@, t as nat),
            buf@.len() == p.h * (p.w * p.c),
            painted(p, t as nat) == Ok::<Seq<i32>, Fault>(buf@),
        decreases n - t,
    {
        proof {
            lemma_taken(g@, decisions@, (t + 1) as nat, n as nat);
            block_copy::lemma_column(p.w, p.h, p.c, t as int);
            blocks::lemma_tile_dims(g@, t as int);
        }
        if decisions[t] == 1 {
            let (_x0, y0, _tw, _th) = g.rect(t);
            let across: usize = g.across();
            let x: i64 = ((t % across) * 8) as i64;
            let y: i64 = y0 as i64;
            let sx: i64 = x + vectors[k] as i64;
            let sy: i64 = y + vectors[k + 1] as i64;
            let inside: bool = sx >= 0 && sy >= 0 && sx + 8 <= width as i64 && sy + 8 <= g.h as i64;
            if !inside || !(sy + 8 <= y || (sx + 8 <= x && sy <= y)) {
                proof {
                    assert(painted(p, (t + 1) as nat) == Err::<Seq<i32>, Fault>(Fault::Invalid));
                    lemma_err_stays(p, (t + 1) as nat, n as nat);
                }
                return Err(invalid("block copy outside of what is known"));
            }
            copy_block(
                &mut buf,
                g,
                t,
                sx as usize,
                sy as usize,
                components,
                Ghost(p.w),
            );
            k = k + 2;
        } else {
            let (_x0, _y0, tw, th) = g.rect(t);
            proof {
                assert(g@.area(t as int) == th * tw);
                assert(th * tw <= p.h * (p.w * p.c)) by (nonlinear_arith)
                    requires
                        0 <= th <= p.h,
                        0 <= tw <= p.w * p.c,
                ;
            }
            fill_block(&mut buf, g, t, residuals, at, width, components, mode, Ghost(p));
            at = at + th * tw;
        }
        t = t + 1;
    }
    Ok(buf)
}

/// Decodes an image coded block by block.
pub fn decode_intrabc_payload(
    data: &[u8],
    width: usize,
    height: usize,
    components: usize,
) -> (r: CrfResult<Vec<i32>>)
    requires
        block_copy::size_ok(width as int, height as int, components as int),
    ensures
        error::agrees(
            r,
            intrabc_result(data@, width as int, height as int, components as int),
        ),
        r is Ok ==> r->Ok_0@.len() == height * (width * components),
{
    let len: usize = data.len();
    if len < HEADER {
        return Err(short(0, HEADER, len));
    }
    let n: usize = get_le32(data, 0) as usize;
    let mode: PredictionMode = PredictionMode::from_u8(data[4]);
    let (a0, a1) = match get_part(data, 7) {
        Ok(v) => v,
        Err(e) => {
            return Err(e);
        },
    };
    let (b0, b1) = match get_part(data, a1) {
        Ok(v) => v,
        Err(e) => {
            return Err(e);
        },
    };
    let (c0, c1) = match get_part(data, b1) {
        Ok(v) => v,
        Err(e) => {
            return Err(e);
        },
    };
    let g: Grid = block_grid(width, height, components);
    if n > g.count() {
        return Err(invalid("more blocks than the image has"));
    }
    let dec: &[u8] = vstd::slice::slice_subrange(data, a0, a1);
    let vec: &[u8] = vstd::slice::slice_subrange(data, b0, b1);
    let res: &[u8] = vstd::slice::slice_subrange(data, c0, c1);
    let ghost p = plan_of(
        width as int,
        height as int,
        components as int,
        data@,
        n as nat,
        dec@,
        vec@,
        res@,
    );
    let decisions: Vec<i32> = decode_frame_rle_golomb(dec, data[5], n);
    proof {
        rle_golomb::lemma_rle_len(bits::bits_of(dec@), 0, data@[5] as nat, n as nat);
        block_copy::lemma_grid(width as int, height as int, components as int);
        lemma_taken(g@, decisions@, n as nat, n as nat);
    }
    let (k, area) = count_streams(&decisions, g);
    let vectors: Vec<i32> = decode_frame_exp_golomb(vec, 2 * k);
    let residuals: Vec<i32> = decode_frame_rle_golomb(res, data[6], area);
    proof {
        rle_golomb::lemma_rle_len(bits::bits_of(res@), 0, data@[6] as nat, area as nat);
        codes::lemma_exps_len(bits::bits_of(vec@), 0, exp_golomb::EXP_CAP as nat, (2 * k) as nat);
    }
    paint(g, width, components, mode, &decisions, &vectors, &residuals, Ghost(p))
}

/// What the first blocks come to does not depend on those behind them.
proof fn lemma_trace_prefix(s: enc::Sheet, mode: PredictionMode, n: nat, m: nat)
    requires
        s.ok(),
        n <= m <= s.grid().count(),
    ensures
        ({
            let a = enc::trace(s, mode, n);
            let b = enc::trace(s, mode, m);
            &&& a.decisions.len() <= b.decisions.len()
            &&& a.vectors.len() <= b.vectors.len()
            &&& a.residuals.len() <= b.residuals.len()
            &&& b.decisions.take(a.decisions.len() as int) == a.decisions
            &&& b.vectors.take(a.vectors.len() as int) == a.vectors
            &&& b.residuals.take(a.residuals.len() as int) == a.residuals
        }),
    decreases m,
{
    let a = enc::trace(s, mode, n);
    let b = enc::trace(s, mode, m);
    if n < m {
        lemma_trace_prefix(s, mode, n, (m - 1) as nat);
        let p = enc::trace(s, mode, (m - 1) as nat);
        assert(b.decisions.take(p.decisions.len() as int) =~= p.decisions);
        assert(b.vectors.take(p.vectors.len() as int) =~= p.vectors);
        assert(b.residuals.take(p.residuals.len() as int) =~= p.residuals);
        assert(b.decisions.take(a.decisions.len() as int) =~= p.decisions.take(
            a.decisions.len() as int,
        ));
        assert(b.vectors.take(a.vectors.len() as int) =~= p.vectors.take(a.vectors.len() as int));
        assert(b.residuals.take(a.residuals.len() as int) =~= p.residuals.take(
            a.residuals.len() as int,
        ));
    } else {
        assert(b.decisions.take(a.decisions.len() as int) =~= a.decisions);
        assert(b.vectors.take(a.vectors.len() as int) =~= a.vectors);
        assert(b.residuals.take(a.residuals.len() as int) =~= a.residuals);
    }
}

/// The decisions tell how long the other streams are.
proof fn lemma_trace_counts(s: enc::Sheet, mode: PredictionMode, n: nat, m: nat)
    requires
        s.ok(),
        n <= m <= s.grid().count(),
    ensures
        ({
            let a = enc::trace(s, mode, n);
            let b = enc::trace(s, mode, m);
            &&& 2 * copies(b.decisions, n) == a.vectors.len()
            &&& predicted(s.grid(), b.decisions, n) == a.residuals.len()
        }),
    decreases n,
{
    if n > 0 {
        let t = n - 1;
        lemma_trace_counts(s, mode, t as nat, m);
        lemma_trace_prefix(s, mode, n, m);
        enc::lemma_trace_len(s, mode, n);
        enc::lemma_trace_len(s, mode, t as nat);
        let a = enc::trace(s, mode, n);
        let b = enc::trace(s, mode, m);
        assert(b.decisions.take(n as int)[t] == a.decisions[t]);
        block_copy::lemma_grid(s.w, s.h, s.c);
        blocks::lemma_tile_dims(s.grid(), t);
    }
}

/// Two images agree in the first `n` blocks.
spec fn agree(a: Seq<i32>, b: Seq<i32>, g: Tiling, t: int, j: int) -> bool {
    a.len() == b.len() && forall|i: int|
        0 <= i < a.len() && #[trigger] block_copy::before(g, i, t, j) ==> a[i] == b[i]
}

/// Residuals of a block make the block.
proof fn lemma_filled(s: enc::Sheet, p: Plan, buf: Seq<i32>, t: int, n: nat)
    requires
        s.ok(),
        p.w == s.w,
        p.h == s.h,
        p.c == s.c,
        block_copy::blockwise(p.mode),
        0 <= t < s.grid().count(),
        n <= s.grid().area(t),
        agree(buf, s.px, s.grid(), t, 0),
    ensures
        agree(
            filled(buf, p, t, enc::block_residuals(s, p.mode, t), n),
            s.px,
            s.grid(),
            t,
            n as int,
        ),
    decreases n,
{
    if n > 0 {
        let g = s.grid();
        let rs = enc::block_residuals(s, p.mode, t);
        lemma_filled(s, p, buf, t, (n - 1) as nat);
        let b = filled(buf, p, t, rs, (n - 1) as nat);
        let r = filled(buf, p, t, rs, n);
        block_copy::lemma_grid(s.w, s.h, s.c);
        blocks::lemma_pos(g, t, n - 1);
        let q = g.pos(t, n - 1);
        block_copy::lemma_predict_blockwise(b, s.px, s.w, s.h, s.c, p.mode, t, n - 1);
        predict::lemma_wrapping_cancel(
            s.px[q],
            predict::predict_spec(s.px, q, s.w, s.c, p.mode),
        );
        assert(r[q] == s.px[q]);
        assert forall|i: int| 0 <= i < r.len() && #[trigger] block_copy::before(g, i, t, n as int)
            implies r[i] == s.px[i] by {
            if i != q {
                blocks::lemma_place(g, i);
                assert(block_copy::before(g, i, t, n - 1));
                assert(r[i] == b[i]);
            }
        }
    }
}

/// A repeated block is the block.
proof fn lemma_copied(s: enc::Sheet, buf: Seq<i32>, t: int, sx: int, sy: int)
    requires
        s.ok(),
        0 <= t < s.grid().count(),
        agree(buf, s.px, s.grid(), t, 0),
        enc::suits(s, t, (sx, sy)),
    ensures
        agree(
            copied(buf, s.grid(), t, block_copy::shift(s.w, s.h, s.c, t, sx, sy)),
            s.px,
            s.grid(),
            t + 1,
            0,
        ),
{
    let g = s.grid();
    let sh = block_copy::shift(s.w, s.h, s.c, t, sx, sy);
    let r = copied(buf, g, t, sh);
    block_copy::lemma_grid(s.w, s.h, s.c);
    assert forall|i: int| 0 <= i < r.len() && #[trigger] block_copy::before(g, i, t + 1, 0)
        implies r[i] == s.px[i] by {
        blocks::lemma_place(g, i);
        if g.tile_of(i) == t {
            let j = g.within(i);
            block_copy::lemma_source(s.w, s.h, s.c, t, j, sx, sy);
            assert(g.pos(t, j) == i);
            assert(block_copy::before(g, i + sh, t, 0));
            assert(s.px[g.pos(t, j)] == s.px[g.pos(t, j) + sh]);
        } else {
            assert(block_copy::before(g, i, t, 0));
        }
    }
}

/// A whole block takes to the start of the next.
proof fn lemma_next_block(s: enc::Sheet, r: Seq<i32>, t: int)
    requires
        s.ok(),
        0 <= t < s.grid().count(),
        agree(r, s.px, s.grid(), t, s.grid().area(t)),
    ensures
        agree(r, s.px, s.grid(), t + 1, 0),
{
    let g = s.grid();
    block_copy::lemma_grid(s.w, s.h, s.c);
    assert forall|i: int| 0 <= i < r.len() && #[trigger] block_copy::before(g, i, t + 1, 0)
        implies r[i] == s.px[i] by {
        blocks::lemma_place(g, i);
        assert(block_copy::before(g, i, t, g.area(t)));
    }
}

/// Going through the blocks makes the image.
#[verifier::spinoff_prover]
#[verifier::rlimit(40)]
proof fn lemma_painted(s: enc::Sheet, p: Plan, n: nat)
    requires
        s.ok(),
        block_copy::blockwise(p.mode),
        p.w == s.w,
        p.h == s.h,
        p.c == s.c,
        p.decisions == enc::trace(s, p.mode, s.grid().count() as nat).decisions,
        p.vectors == enc::trace(s, p.mode, s.grid().count() as nat).vectors,
        p.residuals == enc::trace(s, p.mode, s.grid().count() as nat).residuals,
        n <= s.grid().count(),
    ensures
        painted(p, n) is Ok,
        agree(painted(p, n)->Ok_0, s.px, s.grid(), n as int, 0),
    decreases n,
{
    let g = s.grid();
    block_copy::lemma_grid(s.w, s.h, s.c);
    if n == 0 {
        let b = painted(p, 0)->Ok_0;
        assert forall|i: int| 0 <= i < b.len() && #[trigger] block_copy::before(g, i, 0, 0)
            implies b[i] == s.px[i] by {
            blocks::lemma_place(g, i);
        }
    } else {
        let t = n - 1;
        let m = g.count() as nat;
        lemma_painted(s, p, t as nat);
        let buf = painted(p, t as nat)->Ok_0;
        let a = enc::trace(s, p.mode, t as nat);
        let b = enc::trace(s, p.mode, n);
        let f = enc::trace(s, p.mode, m);
        lemma_trace_prefix(s, p.mode, n, m);
        lemma_trace_counts(s, p.mode, t as nat, m);
        enc::lemma_trace_len(s, p.mode, n);
        enc::lemma_trace_len(s, p.mode, t as nat);
        assert(f.decisions.take(n as int)[t] == b.decisions[t]);
        blocks::lemma_tile_dims(g, t);
        match enc::found(s, a.seen, t) {
            Some((sx, sy)) => {
                enc::lemma_first_suiting(s, t, enc::sources(s, a.seen, t));
                block_copy::lemma_column(s.w, s.h, s.c, t);
                let k = a.vectors.len() as int;
                assert(f.vectors.take(k + 2)[k] == b.vectors[k]);
                assert(f.vectors.take(k + 2)[k + 1] == b.vectors[k + 1]);
                assert(source(p, t) == (sx, sy));
                lemma_copied(s, buf, t, sx, sy);
            },
            None => {
                let at = a.residuals.len() as int;
                let rs = enc::block_residuals(s, p.mode, t);
                assert(residuals_of(p, t) =~= rs) by {
                    assert(f.residuals.take(at + rs.len()) == b.residuals);
                    assert(f.residuals.subrange(at, at + rs.len()) =~= b.residuals.subrange(
                        at,
                        at + rs.len(),
                    ));
                    assert(b.residuals.subrange(at, at + rs.len()) =~= rs);
                }
                lemma_filled(s, p, buf, t, g.area(t) as nat);
                lemma_next_block(s, filled(buf, p, t, rs, g.area(t) as nat), t);
            },
        }
    }
}

/// The three streams read back.
proof fn lemma_streams(tr: enc::Trace, n: nat, mode: PredictionMode)
    requires
        n <= u32::MAX,
        enc::trace_bytes(tr, n, mode).len() <= u32::MAX,
    ensures
        ({
            let data = enc::trace_bytes(tr, n, mode);
            let (kd, kr) = (enc::k_of(tr.decisions), enc::k_of(tr.residuals));
            let dec = crate::encoder::rle_golomb::rle_bytes(tr.decisions, kd);
            let vec = bits::pack(codes::exp_bits(codes::zigzags(tr.vectors)));
            let res = crate::encoder::rle_golomb::rle_bytes(tr.residuals, kr);
            let a = 11 + dec.len() as int;
            let b = a + 4 + vec.len() as int;
            &&& data.len() >= HEADER
            &&& le::le32_at(data, 0) == n
            &&& data[4] == mode.code()
            &&& data[5] == kd
            &&& data[6] == kr
            &&& framing::part_at(data, 7) == Ok::<(Seq<u8>, int), Fault>((dec, a))
            &&& framing::part_at(data, a) == Ok::<(Seq<u8>, int), Fault>((vec, b))
            &&& framing::part_at(data, b) == Ok::<(Seq<u8>, int), Fault>(
                (res, b + 4 + res.len() as int),
            )
        }),
{
    let data = enc::trace_bytes(tr, n, mode);
    let (kd, kr) = (enc::k_of(tr.decisions), enc::k_of(tr.residuals));
    let dec = crate::encoder::rle_golomb::rle_bytes(tr.decisions, kd);
    let vec = bits::pack(codes::exp_bits(codes::zigzags(tr.vectors)));
    let res = crate::encoder::rle_golomb::rle_bytes(tr.residuals, kr);
    let head = le::le32(n as u32) + seq![mode.code(), kd as u8, kr as u8];
    framing::lemma_three(head, dec, vec, res);
    assert forall|i: int| 0 <= i < 7 implies #[trigger] data[i] == head[i] by {}
    assert(data.subrange(0, 4) =~= le::le32(n as u32)) by {
        assert(head.subrange(0, 4) =~= le::le32(n as u32));
        assert(data.subrange(0, 4) =~= head.subrange(0, 4));
    }
    le::lemma_le32(data, 0, n as u32);
    assert(head[4] == mode.code() && head[5] == kd as u8 && head[6] == kr as u8);
}

/// Coding an image block by block loses nothing, as long as lengths fit their fields.
pub proof fn law_intrabc_roundtrip(s: enc::Sheet)
    requires
        s.ok(),
        enc::intrabc_payload(s).len() <= u32::MAX,
    ensures
        intrabc_result(enc::intrabc_payload(s), s.w, s.h, s.c) == Ok::<Seq<i32>, Fault>(s.px),
{
    let data = enc::intrabc_payload(s);
    let mode = enc::mode_of(s);
    let g = s.grid();
    let n = g.count() as nat;
    let tr = enc::trace(s, mode, n);
    block_copy::lemma_grid(s.w, s.h, s.c);
    enc::lemma_trace_len(s, mode, n);
    lemma_streams(tr, n, mode);
    let (kd, kr) = (enc::k_of(tr.decisions), enc::k_of(tr.residuals));
    let dec = crate::encoder::rle_golomb::rle_bytes(tr.decisions, kd);
    let vec = bits::pack(codes::exp_bits(codes::zigzags(tr.vectors)));
    let res = crate::encoder::rle_golomb::rle_bytes(tr.residuals, kr);
    let p = plan_of(s.w, s.h, s.c, data, n, dec, vec, res);
    assert(PredictionMode::of_code(mode.code()) == mode);
    assert(p.decisions == tr.decisions) by {
        rle_golomb::law_rle_golomb_roundtrip(tr.decisions, kd);
    }
    lemma_trace_counts(s, mode, n, n);
    assert(p.vectors == tr.vectors) by {
        exp_golomb::law_exp_golomb_roundtrip(tr.vectors);
    }
    assert(p.residuals == tr.residuals) by {
        rle_golomb::law_rle_golomb_roundtrip(tr.residuals, kr);
    }
    lemma_painted(s, p, n);
    let r = painted(p, n)->Ok_0;
    assert forall|i: int| 0 <= i < r.len() implies r[i] == s.px[i] by {
        blocks::lemma_place(g, i);
        assert(block_copy::before(g, i, n as int, 0));
    }
    assert(r =~= s.px);
}

proof fn lemma_filled_len(buf: Seq<i32>, p: Plan, t: int, res: Seq<i32>, n: nat)
    requires
        block_copy::size_ok(p.w, p.h, p.c),
        0 <= t < p.grid().count(),
        n <= p.grid().area(t),
        buf.len() == p.h * (p.w * p.c),
    ensures
        filled(buf, p, t, res, n).len() == buf.len(),
    decreases n,
{
    if n > 0 {
        lemma_filled_len(buf, p, t, res, (n - 1) as nat);
        block_copy::lemma_grid(p.w, p.h, p.c);
        blocks::lemma_pos(p.grid(), t, n - 1);
    }
}

proof fn lemma_painted_len(p: Plan, n: nat)
    requires
        block_copy::size_ok(p.w, p.h, p.c),
        n <= p.grid().count(),
    ensures
        painted(p, n) is Ok ==> painted(p, n)->Ok_0.len() == p.h * (p.w * p.c),
    decreases n,
{
    block_copy::lemma_grid(p.w, p.h, p.c);
    if n > 0 {
        let t = n - 1;
        lemma_painted_len(p, t as nat);
        blocks::lemma_tile_dims(p.grid(), t);
        if painted(p, t as nat) is Ok {
            lemma_filled_len(
                painted(p, t as nat)->Ok_0,
                p,
                t,
                residuals_of(p, t),
                p.grid().area(t) as nat,
            );
        }
    }
}

/// What the blocks of an image of small samples come to is small.
proof fn lemma_trace_small(s: enc::Sheet, mode: PredictionMode, n: nat, m: int)
    requires
        s.ok(),
        n <= s.grid().count(),
        bounds::small(s.px, m),
        0 <= m <= 0x10_0000,
    ensures
        bounds::small(enc::trace(s, mode, n).decisions, 1),
        bounds::small(enc::trace(s, mode, n).residuals, 2 * m),
    decreases n,
{
    if n > 0 {
        let t = n - 1;
        lemma_trace_small(s, mode, t as nat, m);
        let a = enc::trace(s, mode, t as nat);
        let b = enc::trace(s, mode, n);
        let new = enc::block_residuals(s, mode, t);
        block_copy::lemma_grid(s.w, s.h, s.c);
        assert forall|j: int| 0 <= j < new.len() implies -2 * m <= #[trigger] new[j] <= 2 * m by {
            let p = s.grid().pos(t, j);
            blocks::lemma_tile_dims(s.grid(), t);
            blocks::lemma_pos(s.grid(), t, j);
            assert(bounds::small(s.px.take(p), m));
            bounds::lemma_predict_small(s.px, p, s.w, s.c, mode, m);
            assert(-m <= s.px[p] <= m);
        }
        assert forall|j: int| 0 <= j < b.decisions.len() implies -1 <= #[trigger] b.decisions[j]
            <= 1 by {
            if j < a.decisions.len() {
                assert(b.decisions[j] == a.decisions[j]);
            }
        }
        assert forall|j: int| 0 <= j < b.residuals.len() implies -2 * m <= #[trigger] b.residuals[j]
            <= 2 * m by {
            if j < a.residuals.len() {
                assert(b.residuals[j] == a.residuals[j]);
            } else {
                assert(b.residuals[j] == new[j - a.residuals.len()]);
            }
        }
    }
}

/// Coding an image block by block loses nothing if its samples are small and not too many: lengths
/// fit their fields then.
pub proof fn law_small_intrabc_roundtrip(s: enc::Sheet, m: int)
    requires
        s.ok(),
        bounds::small(s.px, m),
        0 <= m <= 0x10_0000,
        s.px.len() * (4 * m + 184) <= 0x7_ffff_fe00,
    ensures
        enc::intrabc_payload(s).len() <= u32::MAX,
        intrabc_result(enc::intrabc_payload(s), s.w, s.h, s.c) == Ok::<Seq<i32>, Fault>(s.px),
{
    let mode = enc::mode_of(s);
    let n = s.grid().count() as nat;
    let tr = enc::trace(s, mode, n);
    block_copy::lemma_grid(s.w, s.h, s.c);
    enc::lemma_trace_len(s, mode, n);
    lemma_trace_small(s, mode, n, m);
    let (kd, kr) = (enc::k_of(tr.decisions), enc::k_of(tr.residuals));
    let dec = crate::encoder::rle_golomb::rle_bytes(tr.decisions, kd);
    let vec = bits::pack(codes::exp_bits(codes::zigzags(tr.vectors)));
    let res = crate::encoder::rle_golomb::rle_bytes(tr.residuals, kr);
    lengths::lemma_any_rle_bytes(tr.decisions, kd, 1);
    lengths::lemma_any_rle_bytes(tr.residuals, kr, 2 * m);
    codes::lemma_exp_bits_len(codes::zigzags(tr.vectors));
    bits::lemma_pack(codes::exp_bits(codes::zigzags(tr.vectors)));
    framing::lemma_framed3(dec, vec, res);
    let all = s.px.len() as int;
    assert(tr.decisions.len() * (2 + kd + 5) <= all * 22) by (nonlinear_arith)
        requires
            0 <= tr.decisions.len() <= all,
            0 <= kd <= 15,
    ;
    assert(tr.residuals.len() * (2 * (2 * m) + kr + 5) <= all * (4 * m + 20)) by (nonlinear_arith)
        requires
            0 <= tr.residuals.len() <= all,
            0 <= kr <= 15,
            m >= 0,
    ;
    assert(all * (4 * m + 184) == all * (4 * m + 20) + 164 * all) by (nonlinear_arith);
    law_intrabc_roundtrip(s);
}

/// A payload gives as many samples as the image has.
pub proof fn lemma_intrabc_len(data: Seq<u8>, w: int, h: int, c: int)
    requires
        block_copy::size_ok(w, h, c),
    ensures
        ({
            let r = intrabc_result(data, w, h, c);
            r is Ok ==> r->Ok_0.len() == h * (w * c)
        }),
{
    if intrabc_result(data, w, h, c) is Ok {
        let n = le::le32_at(data, 0);
        let (dec, a) = framing::part_at(data, 7)->Ok_0;
        let (vec, b) = framing::part_at(data, a)->Ok_0;
        let (res, _z) = framing::part_at(data, b)->Ok_0;
        lemma_painted_len(plan_of(w, h, c, data, n, dec, vec, res), n);
    }
}

} // verus!

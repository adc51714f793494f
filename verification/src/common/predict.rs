//! Spatial prediction of samples from their neighbours.

use vstd::prelude::*;
use crate::common::domain::PredictionMode;

verus! {

/// The four neighbours of a sample that come before it: left, above, above left, above right.
/// Where one lies outside the image, another stands in for it; for the first pixel all are zero.
pub struct Neighbours {
    pub l: i32,
    pub t: i32,
    pub tl: i32,
    pub tr: i32,
}

/// The neighbours of sample `idx` in an image `w` pixels wide with `c` samples per pixel.
pub open spec fn neighbours(px: Seq<i32>, idx: int, w: int, c: int) -> Neighbours {
    let stride = w * c;
    let x = (idx / c) % w;
    let has_left = x > 0;
    let has_top = idx >= stride;
    let l = px[idx - c];
    let t = px[idx - stride];
    if has_top {
        Neighbours {
            l: if has_left {
                l
            } else {
                t
            },
            t,
            tl: if has_left {
                px[idx - stride - c]
            } else {
                t
            },
            tr: if x + 1 < w {
                px[idx - stride + c]
            } else {
                t
            },
        }
    } else if has_left {
        Neighbours { l, t: l, tl: l, tr: l }
    } else {
        Neighbours { l: 0, t: 0, tl: 0, tr: 0 }
    }
}

pub open spec fn min2(a: int, b: int) -> int {
    if a < b {
        a
    } else {
        b
    }
}

pub open spec fn max2(a: int, b: int) -> int {
    if a < b {
        b
    } else {
        a
    }
}

pub open spec fn abs(a: int) -> int {
    if a < 0 {
        -a
    } else {
        a
    }
}

/// The median of `l`, `t` and `l + t - tl`.
pub open spec fn med(n: Neighbours) -> int {
    let p = n.l + n.t - n.tl;
    if p < min2(n.l as int, n.t as int) {
        min2(n.l as int, n.t as int)
    } else if p > max2(n.l as int, n.t as int) {
        max2(n.l as int, n.t as int)
    } else {
        p
    }
}

/// The one of `l`, `t` and `tl` that is nearest to `l + t - tl`.
pub open spec fn paeth(n: Neighbours) -> int {
    let p = n.l + n.t - n.tl;
    let da = abs(p - n.l);
    let db = abs(p - n.t);
    let dc = abs(p - n.tl);
    if da <= db && da <= dc {
        n.l as int
    } else if db <= dc {
        n.t as int
    } else {
        n.tl as int
    }
}

pub open spec fn predict_from(n: Neighbours, mode: PredictionMode) -> i32 {
    match mode {
        PredictionMode::Off => 0,
        PredictionMode::Horizontal => n.l,
        PredictionMode::Vertical => n.t,
        PredictionMode::Average => ((n.l + n.t) / 2) as i32,
        PredictionMode::DC => ((n.l + n.t + n.tl + n.tr) / 4) as i32,
        PredictionMode::Med => med(n) as i32,
        PredictionMode::Paeth => paeth(n) as i32,
        PredictionMode::TopRight => n.tr,
        PredictionMode::Diagonal => n.tl,
    }
}

/// The prediction of sample `idx`.
pub open spec fn predict_spec(px: Seq<i32>, idx: int, w: int, c: int, mode: PredictionMode) -> i32 {
    predict_from(neighbours(px, idx, w, c), mode)
}

fn floor_half(v: i64) -> (r: i64)
    requires
        -0x4_0000_0000 < v < 0x4_0000_0000,
    ensures
        r == v as int / 2,
{
    if v >= 0 {
        v / 2
    } else {
        -((-v + 1) / 2)
    }
}

fn floor_quarter(v: i64) -> (r: i64)
    requires
        -0x4_0000_0000 < v < 0x4_0000_0000,
    ensures
        r == v as int / 4,
{
    if v >= 0 {
        v / 4
    } else {
        -((-v + 3) / 4)
    }
}

fn abs64(v: i64) -> (r: i64)
    requires
        -0x4_0000_0000 < v < 0x4_0000_0000,
    ensures
        r == abs(v as int),
{
    if v < 0 {
        -v
    } else {
        v
    }
}

fn predict_from_exec(n: Neighbours, mode: PredictionMode) -> (p: i32)
    ensures
        p == predict_from(n, mode),
{
    match mode {
        PredictionMode::Off => 0,
        PredictionMode::Horizontal => n.l,
        PredictionMode::Vertical => n.t,
        PredictionMode::Average => floor_half(n.l as i64 + n.t as i64) as i32,
        PredictionMode::DC => {
            floor_quarter(n.l as i64 + n.t as i64 + n.tl as i64 + n.tr as i64) as i32
        },
        PredictionMode::Med => {
            let p: i64 = n.l as i64 + n.t as i64 - n.tl as i64;
            let lo: i64 = if n.l < n.t {
                n.l as i64
            } else {
                n.t as i64
            };
            let hi: i64 = if n.l < n.t {
                n.t as i64
            } else {
                n.l as i64
            };
            if p < lo {
                lo as i32
            } else if p > hi {
                hi as i32
            } else {
                p as i32
            }
        },
        PredictionMode::Paeth => {
            let p: i64 = n.l as i64 + n.t as i64 - n.tl as i64;
            let da: i64 = abs64(p - n.l as i64);
            let db: i64 = abs64(p - n.t as i64);
            let dc: i64 = abs64(p - n.tl as i64);
            if da <= db && da <= dc {
                n.l
            } else if db <= dc {
                n.t
            } else {
                n.tl
            }
        },
        PredictionMode::TopRight => n.tr,
        PredictionMode::Diagonal => n.tl,
    }
}

/// What an image's width and samples per pixel must be for samples to have neighbours.
pub open spec fn geometry_ok(w: int, c: int) -> bool {
    1 <= w <= 0xffff && 1 <= c <= 4
}

/// The neighbours of a sample lie before it.
pub proof fn lemma_neighbour_indices(idx: int, w: int, c: int)
    requires
        geometry_ok(w, c),
        0 <= idx,
    ensures
        (idx / c) % w > 0 ==> idx - c >= 0,
        idx >= w * c && (idx / c) % w > 0 ==> idx - w * c - c >= 0,
        idx >= w * c && (idx / c) % w + 1 < w ==> 0 <= idx - w * c + c < idx,
        w * c >= 1,
{
    assert(w * c >= 1) by (nonlinear_arith)
        requires
            w >= 1,
            c >= 1,
    ;
    let x = (idx / c) % w;
    let q = idx / c;
    vstd::arithmetic::div_mod::lemma_fundamental_div_mod(idx, c);
    if x > 0 {
        if q == 0 {
            assert(0int % w == 0) by {
                vstd::arithmetic::div_mod::lemma_small_mod(0, w as nat);
            }
        }
        assert(idx >= c) by (nonlinear_arith)
            requires
                idx == c * q + idx % c,
                q >= 1,
                c >= 1,
                idx % c >= 0,
        ;
        if idx >= w * c {
            // the pixel is not the first of its row, so the one left above exists
            vstd::arithmetic::div_mod::lemma_fundamental_div_mod(q, w);
            let y = q / w;
            if y == 0 {
                assert(idx < w * c) by (nonlinear_arith)
                    requires
                        idx == c * q + idx % c,
                        q == w * y + x,
                        y == 0,
                        x < w,
                        idx % c < c,
                        c >= 1,
                ;
            }
            assert(y >= 1);
            assert(idx - w * c - c >= 0) by (nonlinear_arith)
                requires
                    idx == c * q + idx % c,
                    idx % c >= 0,
                    q == w * y + x,
                    y >= 1,
                    x >= 1,
                    w >= 1,
                    c >= 1,
            ;
        }
    }
    if x + 1 < w {
        assert(w * c >= 2 * c) by (nonlinear_arith)
            requires
                w >= 2,
                c >= 1,
        ;
    }
}

/// The prediction depends only on the samples before.
pub proof fn lemma_predict_prefix(
    a: Seq<i32>,
    b: Seq<i32>,
    idx: int,
    w: int,
    c: int,
    mode: PredictionMode,
)
    requires
        geometry_ok(w, c),
        0 <= idx <= a.len(),
        idx <= b.len(),
        a.take(idx) == b.take(idx),
    ensures
        predict_spec(a, idx, w, c, mode) == predict_spec(b, idx, w, c, mode),
{
    lemma_neighbour_indices(idx, w, c);
    assert forall|j: int| 0 <= j < idx implies a[j] == b[j] by {
        assert(a.take(idx)[j] == a[j]);
        assert(b.take(idx)[j] == b[j]);
    }
}

/// Predicts sample `idx`, of the pixel in column `x`.
pub fn predict_at(
    pixels: &[i32],
    idx: usize,
    x: usize,
    components: usize,
    width: usize,
    mode: PredictionMode,
) -> (p: i32)
    requires
        geometry_ok(width as int, components as int),
        idx <= pixels@.len(),
        x == (idx as int / components as int) % (width as int),
    ensures
        p == predict_spec(pixels@, idx as int, width as int, components as int, mode),
{
    proof {
        lemma_neighbour_indices(idx as int, width as int, components as int);
        assert(width * components <= 0xffff * 4) by (nonlinear_arith)
            requires
                width <= 0xffff,
                components <= 4,
        ;
    }
    let stride: usize = width * components;
    let n: Neighbours = if idx >= stride {
        let t: i32 = pixels[idx - stride];
        Neighbours {
            l: if x > 0 {
                pixels[idx - components]
            } else {
                t
            },
            t,
            tl: if x > 0 {
                pixels[idx - stride - components]
            } else {
                t
            },
            tr: if x + 1 < width {
                pixels[idx - stride + components]
            } else {
                t
            },
        }
    } else if x > 0 {
        let l: i32 = pixels[idx - components];
        Neighbours { l, t: l, tl: l, tr: l }
    } else {
        Neighbours { l: 0, t: 0, tl: 0, tr: 0 }
    };
    predict_from_exec(n, mode)
}

/// Residuals of the samples `lo..hi` of an image.
pub open spec fn residuals(
    px: Seq<i32>,
    w: int,
    c: int,
    mode: PredictionMode,
    lo: int,
    hi: int,
) -> Seq<i32> {
    Seq::new(
        (hi - lo) as nat,
        |j: int| px[lo + j].wrapping_sub(predict_spec(px, lo + j, w, c, mode)),
    )
}

/// The samples that the residuals `res` add to those already known.
pub open spec fn undo_from(
    known: Seq<i32>,
    res: Seq<i32>,
    w: int,
    c: int,
    mode: PredictionMode,
) -> Seq<i32>
    decreases res.len(),
{
    if res.len() == 0 {
        known
    } else {
        let p = undo_from(known, res.drop_last(), w, c, mode);
        p.push(res.last().wrapping_add(predict_spec(p, p.len() as int, w, c, mode)))
    }
}

pub proof fn lemma_undo_len(known: Seq<i32>, res: Seq<i32>, w: int, c: int, mode: PredictionMode)
    ensures
        undo_from(known, res, w, c, mode).len() == known.len() + res.len(),
        undo_from(known, res, w, c, mode).take(known.len() as int) == known,
    decreases res.len(),
{
    if res.len() > 0 {
        lemma_undo_len(known, res.drop_last(), w, c, mode);
        let p = undo_from(known, res.drop_last(), w, c, mode);
        assert(undo_from(known, res, w, c, mode).take(known.len() as int) =~= p.take(
            known.len() as int,
        ));
    } else {
        assert(known.take(known.len() as int) =~= known);
    }
}

/// Adding what was subtracted gives back the sample, also where the difference wraps.
pub proof fn lemma_wrapping_cancel(a: i32, b: i32)
    ensures
        a.wrapping_sub(b).wrapping_add(b) == a,
        a.wrapping_add(b).wrapping_sub(b) == a,
{
}

/// Undoing the prediction of a stretch of samples gives them back.
pub proof fn lemma_undo_residuals(
    px: Seq<i32>,
    w: int,
    c: int,
    mode: PredictionMode,
    lo: int,
    hi: int,
)
    requires
        geometry_ok(w, c),
        0 <= lo <= hi <= px.len(),
    ensures
        undo_from(px.take(lo), residuals(px, w, c, mode, lo, hi), w, c, mode) == px.take(hi),
    decreases hi - lo,
{
    let res = residuals(px, w, c, mode, lo, hi);
    if lo < hi {
        lemma_undo_residuals(px, w, c, mode, lo, hi - 1);
        assert(res.drop_last() =~= residuals(px, w, c, mode, lo, hi - 1));
        let p = px.take(hi - 1);
        assert(p.take(hi - 1) =~= px.take(hi - 1));
        lemma_predict_prefix(p, px, hi - 1, w, c, mode);
        lemma_wrapping_cancel(px[hi - 1], predict_spec(px, hi - 1, w, c, mode));
        assert(p.push(px[hi - 1]) =~= px.take(hi));
    } else {
        assert(res =~= Seq::<i32>::empty());
    }
}

/// Prediction loses nothing: undoing it gives back every sample.
pub proof fn law_prediction_roundtrip(px: Seq<i32>, w: int, c: int, mode: PredictionMode)
    requires
        geometry_ok(w, c),
    ensures
        undo_from(
            Seq::empty(),
            residuals(px, w, c, mode, 0, px.len() as int),
            w,
            c,
            mode,
        ) == px,
{
    lemma_undo_residuals(px, w, c, mode, 0, px.len() as int);
    assert(px.take(0) =~= Seq::<i32>::empty());
    assert(px.take(px.len() as int) =~= px);
}

/// The column of the sample behind sample `idx`.
proof fn lemma_next_column(idx: int, w: int, c: int)
    requires
        geometry_ok(w, c),
        idx >= 0,
    ensures
        (idx + 1) % c != 0 ==> ((idx + 1) / c) % w == (idx / c) % w,
        (idx + 1) % c == 0 ==> ((idx + 1) / c) % w == if (idx / c) % w + 1 == w {
            0
        } else {
            (idx / c) % w + 1
        },
{
    let q = idx / c;
    vstd::arithmetic::div_mod::lemma_fundamental_div_mod(idx, c);
    vstd::arithmetic::div_mod::lemma_fundamental_div_mod(idx + 1, c);
    if (idx + 1) % c != 0 {
        assert((idx + 1) / c == q) by (nonlinear_arith)
            requires
                idx == c * q + idx % c,
                idx + 1 == c * ((idx + 1) / c) + (idx + 1) % c,
                0 <= idx % c < c,
                0 < (idx + 1) % c < c,
        ;
    } else {
        assert((idx + 1) / c == q + 1) by (nonlinear_arith)
            requires
                idx == c * q + idx % c,
                idx + 1 == c * ((idx + 1) / c),
                0 <= idx % c < c,
        ;
        vstd::arithmetic::div_mod::lemma_fundamental_div_mod(q, w);
        let x = q % w;
        let y = q / w;
        if x + 1 == w {
            assert(q + 1 == w * (y + 1)) by (nonlinear_arith)
                requires
                    q == w * y + x,
                    x + 1 == w,
            ;
            vstd::arithmetic::div_mod::lemma_mod_multiples_basic(y + 1, w);
            vstd::arithmetic::mul::lemma_mul_is_commutative(w, y + 1);
        } else {
            vstd::arithmetic::div_mod::lemma_fundamental_div_mod_converse(q + 1, w, y, x + 1);
        }
    }
}

/// A walk over the samples of an image that knows the column it is in.
pub struct Cursor {
    pub idx: usize,
    pub x: usize,
    pub k: usize,
}

impl Cursor {
    pub open spec fn at(&self, idx: int, w: int, c: int) -> bool {
        &&& self.idx == idx
        &&& self.x == (idx / c) % w
        &&& self.k == idx % c
    }

    /// The cursor at sample `idx`.
    pub fn new(idx: usize, w: usize, c: usize) -> (r: Cursor)
        requires
            geometry_ok(w as int, c as int),
        ensures
            r.at(idx as int, w as int, c as int),
    {
        Cursor { idx, x: (idx / c) % w, k: idx % c }
    }

    /// Moves to the next sample.
    pub fn advance(&mut self, w: usize, c: usize)
        requires
            geometry_ok(w as int, c as int),
            old(self).at(old(self).idx as int, w as int, c as int),
            old(self).idx < usize::MAX,
        ensures
            final(self).at(old(self).idx + 1, w as int, c as int),
    {
        proof {
            lemma_next_column(self.idx as int, w as int, c as int);
            let i = self.idx as int;
            vstd::arithmetic::div_mod::lemma_mod_bound(i, c as int);
            vstd::arithmetic::div_mod::lemma_mod_bound(i / (c as int), w as int);
            vstd::arithmetic::div_mod::lemma_add_mod_noop(i, 1, c as int);
            if c > 1 {
                vstd::arithmetic::div_mod::lemma_small_mod(1, c as nat);
            }
            if self.k + 1 == c {
                vstd::arithmetic::div_mod::lemma_mod_self_0(c as int);
                vstd::arithmetic::div_mod::lemma_fundamental_div_mod(i, c as int);
                let q = i / (c as int);
                assert(i + 1 == (q + 1) * c as int + 0) by (nonlinear_arith)
                    requires
                        i == c as int * q + (c - 1),
                ;
                vstd::arithmetic::div_mod::lemma_fundamental_div_mod_converse(
                    i + 1,
                    c as int,
                    q + 1,
                    0,
                );
            } else {
                vstd::arithmetic::div_mod::lemma_fundamental_div_mod(i, c as int);
                vstd::arithmetic::div_mod::lemma_fundamental_div_mod_converse(
                    i + 1,
                    c as int,
                    i / (c as int),
                    self.k + 1,
                );
            }
        }
        self.idx = self.idx + 1;
        self.k = self.k + 1;
        if self.k == c {
            self.k = 0;
            self.x = self.x + 1;
            if self.x == w {
                self.x = 0;
            }
        }
    }
}

/// Residuals of the samples `lo..hi`.
pub fn apply_prediction_range(
    pixels: &[i32],
    width: usize,
    components: usize,
    mode: PredictionMode,
    lo: usize,
    hi: usize,
) -> (res: Vec<i32>)
    requires
        geometry_ok(width as int, components as int),
        lo <= hi <= pixels@.len(),
    ensures
        res@ == residuals(
            pixels@,
            width as int,
            components as int,
            mode,
            lo as int,
            hi as int,
        ),
{
    let ghost all = residuals(
        pixels@,
        width as int,
        components as int,
        mode,
        lo as int,
        hi as int,
    );
    let mut res: Vec<i32> = Vec::with_capacity(hi - lo);
    let mut cur = Cursor::new(lo, width, components);
    while cur.idx < hi
        invariant
            geometry_ok(width as int, components as int),
            lo <= cur.idx <= hi <= pixels@.len(),
            cur.at(cur.idx as int, width as int, components as int),
            all == residuals(
                pixels@,
                width as int,
                components as int,
                mode,
                lo as int,
                hi as int,
            ),
            res@ == all.take(cur.idx - lo),
        decreases hi - cur.idx,
    {
        let p: i32 = predict_at(pixels, cur.idx, cur.x, components, width, mode);
        res.push(pixels[cur.idx].wrapping_sub(p));
        cur.advance(width, components);
        assert(res@ =~= all.take(cur.idx - lo));
    }
    assert(res@ =~= all);
    res
}

/// Residuals of all samples.
pub fn apply_prediction(
    pixels: &[i32],
    width: usize,
    components: usize,
    mode: PredictionMode,
) -> (res: Vec<i32>)
    requires
        geometry_ok(width as int, components as int),
    ensures
        res@ == residuals(
            pixels@,
            width as int,
            components as int,
            mode,
            0,
            pixels@.len() as int,
        ),
{
    apply_prediction_range(pixels, width, components, mode, 0, pixels.len())
}

/// Appends the samples that the residuals `res` stand for.
pub fn undo_prediction_onto(
    known: &mut Vec<i32>,
    res: &[i32],
    width: usize,
    components: usize,
    mode: PredictionMode,
)
    requires
        geometry_ok(width as int, components as int),
        old(known)@.len() + res@.len() <= usize::MAX,
    ensures
        final(known)@ == undo_from(
            old(known)@,
            res@,
            width as int,
            components as int,
            mode,
        ),
{
    let ghost start = known@;
    let mut cur = Cursor::new(known.len(), width, components);
    let mut i: usize = 0;
    assert(res@.take(0) =~= Seq::<i32>::empty());
    while i < res.len()
        invariant
            geometry_ok(width as int, components as int),
            i <= res@.len(),
            start.len() + res@.len() <= usize::MAX,
            known@.len() == start.len() + i,
            cur.at(known@.len() as int, width as int, components as int),
            known@ == undo_from(
                start,
                res@.take(i as int),
                width as int,
                components as int,
                mode,
            ),
        decreases res@.len() - i,
    {
        let p: i32 = predict_at(known, cur.idx, cur.x, components, width, mode);
        known.push(res[i].wrapping_add(p));
        cur.advance(width, components);
        proof {
            assert(res@.take(i + 1).drop_last() =~= res@.take(i as int));
        }
        i = i + 1;
    }
    assert(res@.take(i as int) =~= res@);
}

/// The samples that the residuals `res` of a whole image stand for.
pub fn undo_prediction(
    res: &[i32],
    width: usize,
    components: usize,
    mode: PredictionMode,
) -> (px: Vec<i32>)
    requires
        geometry_ok(width as int, components as int),
    ensures
        px@ == undo_from(Seq::empty(), res@, width as int, components as int, mode),
        px@.len() == res@.len(),
{
    let mut px: Vec<i32> = Vec::with_capacity(res.len());
    undo_prediction_onto(&mut px, res, width, components, mode);
    proof {
        lemma_undo_len(Seq::empty(), res@, width as int, components as int, mode);
    }
    px
}

/// What each mode predicts of sample `k` of pixel (`x`, `y`): the sample to the left, or above; their
/// mean; the mean of these, the one above to the left and the one above to the right; the middle one
/// of left, above and the plane through all three; of the three the one next to that plane; above to
/// the right; above to the left. In the first row all is taken from the left, in the first column from
/// above, and of the first pixel nothing is known.
pub proof fn law_predictions(px: Seq<i32>, w: int, c: int, x: int, y: int, k: int)
    requires
        geometry_ok(w, c),
        0 <= x < w,
        0 <= y,
        0 <= k < c,
        (y * w + x) * c + k <= px.len(),
    ensures
        ({
            let i = (y * w + x) * c + k;
            let up = (y * w + x - w) * c + k;
            let (l, t, tl) = (px[i - c], px[up], px[up - c]);
            let tr = if x + 1 < w {
                px[up + c]
            } else {
                t
            };
            let p = |m: PredictionMode| predict_spec(px, i, w, c, m);
            &&& p(PredictionMode::Off) == 0
            &&& x > 0 && y > 0 ==> {
                let (med, pae) = (p(PredictionMode::Med), p(PredictionMode::Paeth));
                let flat = l + t - tl;
                &&& p(PredictionMode::Horizontal) == l
                &&& p(PredictionMode::Vertical) == t
                &&& p(PredictionMode::Diagonal) == tl
                &&& p(PredictionMode::TopRight) == tr
                &&& 0 <= l + t - 2 * p(PredictionMode::Average) <= 1
                &&& 0 <= l + t + tl + tr - 4 * p(PredictionMode::DC) <= 3
                &&& (l <= med <= t || t <= med <= l)
                &&& (l <= flat <= t || t <= flat <= l) ==> med == flat
                &&& flat <= l && flat <= t ==> med == l || med == t
                &&& flat <= l && flat <= t ==> med <= l && med <= t
                &&& flat >= l && flat >= t ==> med >= l && med >= t
                &&& pae == l || pae == t || pae == tl
                &&& nearer(flat, pae as int, l as int)
                &&& nearer(flat, pae as int, t as int)
                &&& nearer(flat, pae as int, tl as int)
            }
            &&& x > 0 && y == 0 ==> {
                &&& p(PredictionMode::Horizontal) == l
                &&& p(PredictionMode::Vertical) == l
                &&& p(PredictionMode::Diagonal) == l
                &&& p(PredictionMode::TopRight) == l
                &&& p(PredictionMode::Average) == l
                &&& p(PredictionMode::DC) == l
                &&& p(PredictionMode::Med) == l
                &&& p(PredictionMode::Paeth) == l
            }
            &&& x == 0 && y > 0 ==> {
                &&& p(PredictionMode::Horizontal) == t
                &&& p(PredictionMode::Vertical) == t
                &&& p(PredictionMode::Diagonal) == t
                &&& p(PredictionMode::TopRight) == tr
                &&& p(PredictionMode::Average) == t
                &&& 0 <= 3 * t + tr - 4 * p(PredictionMode::DC) <= 3
                &&& p(PredictionMode::Med) == t
                &&& p(PredictionMode::Paeth) == t
            }
            &&& x == 0 && y == 0 ==> {
                &&& p(PredictionMode::Horizontal) == 0
                &&& p(PredictionMode::Vertical) == 0
                &&& p(PredictionMode::Average) == 0
                &&& p(PredictionMode::DC) == 0
                &&& p(PredictionMode::Med) == 0
                &&& p(PredictionMode::Paeth) == 0
                &&& p(PredictionMode::TopRight) == 0
                &&& p(PredictionMode::Diagonal) == 0
            }
        }),
{
    let q = y * w + x;
    let i = q * c + k;
    vstd::arithmetic::div_mod::lemma_fundamental_div_mod_converse(q, w, y, x);
    vstd::arithmetic::div_mod::lemma_fundamental_div_mod_converse(i, c, q, k);
    assert((q - w) * c + k == i - w * c) by (nonlinear_arith)
        requires
            i == q * c + k,
    ;
    assert(y > 0 ==> i >= w * c) by (nonlinear_arith)
        requires
            i == q * c + k,
            q == y * w + x,
            x >= 0,
            k >= 0,
            w >= 1,
            c >= 1,
            y >= 0,
    ;
    assert(y == 0 ==> i < w * c) by (nonlinear_arith)
        requires
            i == q * c + k,
            q == y * w + x,
            x < w,
            0 <= k < c,
            c >= 1,
    ;
}

/// `a` is no further from `p` than `b` is.
pub open spec fn nearer(p: int, a: int, b: int) -> bool {
    if b >= p {
        p - (b - p) <= a <= b
    } else {
        b <= a <= p + (p - b)
    }
}

} // verus!

//! Reversible integer transforms of blocks, made of lifting steps.

use vstd::prelude::*;
use vstd::arithmetic::div_mod::*;
use crate::common::arith;
use crate::common::arith::half_exec;
use crate::common::predict;

verus! {

/// The difference of two samples.
pub open spec fn hi(a: i32, b: i32) -> i32 {
    a.wrapping_sub(b)
}

/// The mean of two samples, rounded down.
pub open spec fn lo(a: i32, b: i32) -> i32 {
    b.wrapping_add(arith::half(a.wrapping_sub(b)))
}

/// The second of two samples, from their mean and difference.
pub open spec fn second(l: i32, h: i32) -> i32 {
    l.wrapping_sub(arith::half(h))
}

/// The first of two samples, from their mean and difference.
pub open spec fn first(l: i32, h: i32) -> i32 {
    h.wrapping_add(second(l, h))
}

proof fn lemma_pair(a: i32, b: i32)
    ensures
        first(lo(a, b), hi(a, b)) == a,
        second(lo(a, b), hi(a, b)) == b,
{
    predict::lemma_wrapping_cancel(a, b);
    predict::lemma_wrapping_cancel(b, arith::half(a.wrapping_sub(b)));
}

/// `x` less half of `y`.
pub open spec fn lift(x: i32, y: i32) -> i32 {
    x.wrapping_sub(arith::half(y))
}

/// `x` plus half of `y`.
pub open spec fn unlift(x: i32, y: i32) -> i32 {
    x.wrapping_add(arith::half(y))
}

proof fn lemma_lift(x: i32, y: i32)
    ensures
        unlift(lift(x, y), y) == x,
{
    predict::lemma_wrapping_cancel(x, arith::half(y));
}

/// Transform of four samples, low frequencies first.
#[verifier::opaque]
pub open spec fn fwd4(s: Seq<i32>) -> Seq<i32> {
    let s0 = lo(s[0], s[3]);
    let s1 = lo(s[1], s[2]);
    let d0 = hi(s[0], s[3]);
    let d1 = hi(s[1], s[2]);
    seq![lo(s0, s1), d0, hi(s0, s1), lift(d1, d0)]
}

#[verifier::opaque]
pub open spec fn inv4(c: Seq<i32>) -> Seq<i32> {
    let s0 = first(c[0], c[2]);
    let s1 = second(c[0], c[2]);
    let d0 = c[1];
    let d1 = unlift(c[3], d0);
    seq![first(s0, d0), first(s1, d1), second(s1, d1), second(s0, d0)]
}

/// Transform of eight samples, low frequencies first.
#[verifier::opaque]
pub open spec fn fwd8(s: Seq<i32>) -> Seq<i32> {
    let e = fwd4(seq![lo(s[0], s[7]), lo(s[1], s[6]), lo(s[2], s[5]), lo(s[3], s[4])]);
    let d0 = hi(s[0], s[7]);
    let d1 = hi(s[1], s[6]);
    let d2 = hi(s[2], s[5]);
    let d3 = hi(s[3], s[4]);
    seq![e[0], d0, e[1], lift(d1, d0), e[2], lift(d2, d1), e[3], lift(d3, d2)]
}

#[verifier::opaque]
pub open spec fn inv8(c: Seq<i32>) -> Seq<i32> {
    let e = inv4(seq![c[0], c[2], c[4], c[6]]);
    let d0 = c[1];
    let d1 = unlift(c[3], d0);
    let d2 = unlift(c[5], d1);
    let d3 = unlift(c[7], d2);
    seq![
        first(e[0], d0),
        first(e[1], d1),
        first(e[2], d2),
        first(e[3], d3),
        second(e[3], d3),
        second(e[2], d2),
        second(e[1], d1),
        second(e[0], d0),
    ]
}

/// Transform of four or eight samples; other numbers of samples are left alone.
pub open spec fn line(s: Seq<i32>, forward: bool) -> Seq<i32> {
    if s.len() == 4 {
        if forward {
            fwd4(s)
        } else {
            inv4(s)
        }
    } else if s.len() == 8 {
        if forward {
            fwd8(s)
        } else {
            inv8(s)
        }
    } else {
        s
    }
}

proof fn lemma_fwd4(s: Seq<i32>)
    requires
        s.len() == 4,
    ensures
        inv4(fwd4(s)) == s,
{
    reveal(fwd4);
    reveal(inv4);
    lemma_pair(s[0], s[3]);
    lemma_pair(s[1], s[2]);
    lemma_pair(lo(s[0], s[3]), lo(s[1], s[2]));
    lemma_lift(hi(s[1], s[2]), hi(s[0], s[3]));
    assert(inv4(fwd4(s)) =~= s);
}

proof fn lemma_fwd8(s: Seq<i32>)
    requires
        s.len() == 8,
    ensures
        inv8(fwd8(s)) == s,
{
    reveal(fwd8);
    reveal(inv8);
    let m = seq![lo(s[0], s[7]), lo(s[1], s[6]), lo(s[2], s[5]), lo(s[3], s[4])];
    lemma_fwd4(m);
    let c = fwd8(s);
    lemma_lens(m);
    assert(seq![c[0], c[2], c[4], c[6]] =~= fwd4(m));
    lemma_pair(s[0], s[7]);
    lemma_pair(s[1], s[6]);
    lemma_pair(s[2], s[5]);
    lemma_pair(s[3], s[4]);
    lemma_lift(hi(s[1], s[6]), hi(s[0], s[7]));
    lemma_lift(hi(s[2], s[5]), hi(s[1], s[6]));
    lemma_lift(hi(s[3], s[4]), hi(s[2], s[5]));
    assert(inv8(fwd8(s)) =~= s);
}

proof fn lemma_lens(s: Seq<i32>)
    ensures
        fwd4(s).len() == 4,
        inv4(s).len() == 4,
        fwd8(s).len() == 8,
        inv8(s).len() == 8,
{
    reveal(fwd4);
    reveal(inv4);
    reveal(fwd8);
    reveal(inv8);
}

pub proof fn lemma_line(s: Seq<i32>)
    ensures
        line(line(s, true), false) == s,
        forall|f: bool| #[trigger] line(s, f).len() == s.len(),
{
    lemma_lens(s);
    if s.len() == 4 {
        lemma_fwd4(s);
    } else if s.len() == 8 {
        lemma_fwd8(s);
    }
}

/// A row of a block.
pub open spec fn row(b: Seq<i32>, bw: int, r: int) -> Seq<i32> {
    Seq::new(bw as nat, |c: int| b[r * bw + c])
}

/// Transforms each row.
pub open spec fn rows(b: Seq<i32>, bw: int, bh: int, forward: bool) -> Seq<i32> {
    Seq::new((bw * bh) as nat, |j: int| line(row(b, bw, j / bw), forward)[j % bw])
}

/// Rows become columns.
pub open spec fn transpose(b: Seq<i32>, bw: int, bh: int) -> Seq<i32> {
    Seq::new((bw * bh) as nat, |j: int| b[(j % bh) * bw + j / bh])
}

/// Transform of a block: of its rows, then of its columns.
pub open spec fn forward2(b: Seq<i32>, bw: int, bh: int) -> Seq<i32> {
    transpose(rows(transpose(rows(b, bw, bh, true), bw, bh), bh, bw, true), bh, bw)
}

/// The inverse of [`forward2`].
pub open spec fn inverse2(b: Seq<i32>, bw: int, bh: int) -> Seq<i32> {
    rows(transpose(rows(transpose(b, bw, bh), bh, bw, false), bh, bw), bw, bh, false)
}

pub proof fn lemma_split(j: int, r: int, c: int, w: int, h: int)
    requires
        w >= 1,
        0 <= r < h,
        0 <= c < w,
        j == r * w + c,
    ensures
        0 <= j < w * h,
        j / w == r,
        j % w == c,
{
    lemma_fundamental_div_mod_converse(j, w, r, c);
    assert(0 <= j < w * h) by (nonlinear_arith)
        requires
            j == r * w + c,
            0 <= r < h,
            0 <= c < w,
    ;
}

pub proof fn lemma_index(j: int, w: int, h: int)
    requires
        w >= 1,
        0 <= j < w * h,
    ensures
        0 <= j / w < h,
        0 <= j % w < w,
        (j / w) * w + j % w == j,
{
    lemma_fundamental_div_mod(j, w);
    lemma_div_pos_is_pos(j, w);
    assert(j / w < h) by (nonlinear_arith)
        requires
            j == w * (j / w) + j % w,
            0 <= j % w,
            j < w * h,
            w >= 1,
    ;
    assert((j / w) * w == w * (j / w)) by (nonlinear_arith);
}

proof fn lemma_transpose(b: Seq<i32>, bw: int, bh: int)
    requires
        bw >= 1,
        bh >= 1,
        b.len() == bw * bh,
    ensures
        transpose(transpose(b, bw, bh), bh, bw) == b,
        transpose(b, bw, bh).len() == bh * bw,
{
    assert(bw * bh == bh * bw) by (nonlinear_arith);
    let t = transpose(b, bw, bh);
    let u = transpose(t, bh, bw);
    assert forall|j: int| 0 <= j < b.len() implies u[j] == b[j] by {
        lemma_index(j, bw, bh);
        let r = j / bw;
        let c = j % bw;
        let k = c * bh + r;
        lemma_split(k, c, r, bh, bw);
        assert(u[j] == t[(j % bw) * bh + j / bw]);
        assert(t[k] == b[(k % bh) * bw + k / bh]);
    }
    assert(u =~= b);
}

proof fn lemma_rows(b: Seq<i32>, bw: int, bh: int)
    requires
        bw >= 1,
        bh >= 1,
        b.len() == bw * bh,
    ensures
        rows(rows(b, bw, bh, true), bw, bh, false) == b,
        rows(b, bw, bh, true).len() == bw * bh,
        rows(b, bw, bh, false).len() == bw * bh,
{
    let f = rows(b, bw, bh, true);
    let u = rows(f, bw, bh, false);
    assert forall|j: int| 0 <= j < b.len() implies u[j] == b[j] by {
        lemma_index(j, bw, bh);
        let r = j / bw;
        let s = row(b, bw, r);
        lemma_line(s);
        assert forall|c: int| 0 <= c < bw implies row(f, bw, r)[c] == line(s, true)[c] by {
            lemma_split(r * bw + c, r, c, bw, bh);
        }
        assert(row(f, bw, r) =~= line(s, true));
    }
    assert(u =~= b);
}

/// The transform of a block loses nothing.
pub proof fn law_transform_roundtrip(b: Seq<i32>, bw: int, bh: int)
    requires
        bw >= 1,
        bh >= 1,
        b.len() == bw * bh,
    ensures
        inverse2(forward2(b, bw, bh), bw, bh) == b,
        forward2(b, bw, bh).len() == bw * bh,
{
    assert(bw * bh == bh * bw) by (nonlinear_arith);
    let r1 = rows(b, bw, bh, true);
    lemma_rows(b, bw, bh);
    let t1 = transpose(r1, bw, bh);
    lemma_transpose(r1, bw, bh);
    let r2 = rows(t1, bh, bw, true);
    lemma_rows(t1, bh, bw);
    lemma_transpose(r2, bh, bw);
}

pub proof fn lemma_inverse_len(b: Seq<i32>, bw: int, bh: int)
    requires
        bw >= 1,
        bh >= 1,
    ensures
        inverse2(b, bw, bh).len() == bw * bh,
{
    assert(bw * bh >= 1) by (nonlinear_arith)
        requires
            bw >= 1,
            bh >= 1,
    ;
}

fn lo_exec(a: i32, b: i32) -> (r: i32)
    ensures
        r == lo(a, b),
{
    b.wrapping_add(half_exec(a.wrapping_sub(b)))
}

fn first_exec(l: i32, h: i32) -> (r: i32)
    ensures
        r == first(l, h),
{
    h.wrapping_add(l.wrapping_sub(half_exec(h)))
}

fn second_exec(l: i32, h: i32) -> (r: i32)
    ensures
        r == second(l, h),
{
    l.wrapping_sub(half_exec(h))
}

fn lift_exec(x: i32, y: i32) -> (r: i32)
    ensures
        r == lift(x, y),
{
    x.wrapping_sub(half_exec(y))
}

fn unlift_exec(x: i32, y: i32) -> (r: i32)
    ensures
        r == unlift(x, y),
{
    x.wrapping_add(half_exec(y))
}

fn push4(out: &mut Vec<i32>, a: i32, b: i32, c: i32, d: i32)
    ensures
        final(out)@ == old(out)@ + seq![a, b, c, d],
{
    out.push(a);
    out.push(b);
    out.push(c);
    out.push(d);
    assert(out@ =~= old(out)@ + seq![a, b, c, d]);
}

fn line_exec(s: &Vec<i32>, forward: bool) -> (out: Vec<i32>)
    ensures
        out@ == line(s@, forward),
{
    let mut out: Vec<i32> = Vec::new();
    if s.len() == 4 {
        if forward {
            let s0: i32 = lo_exec(s[0], s[3]);
            let s1: i32 = lo_exec(s[1], s[2]);
            let d0: i32 = s[0].wrapping_sub(s[3]);
            let d1: i32 = s[1].wrapping_sub(s[2]);
            push4(&mut out, lo_exec(s0, s1), d0, s0.wrapping_sub(s1), lift_exec(d1, d0));
            proof {
                reveal(fwd4);
                assert(out@ =~= fwd4(s@));
            }
        } else {
            let s0: i32 = first_exec(s[0], s[2]);
            let s1: i32 = second_exec(s[0], s[2]);
            let d0: i32 = s[1];
            let d1: i32 = unlift_exec(s[3], d0);
            push4(
                &mut out,
                first_exec(s0, d0),
                first_exec(s1, d1),
                second_exec(s1, d1),
                second_exec(s0, d0),
            );
            proof {
                reveal(inv4);
                assert(out@ =~= inv4(s@));
            }
        }
    } else if s.len() == 8 {
        if forward {
            let m0: i32 = lo_exec(s[0], s[7]);
            let m1: i32 = lo_exec(s[1], s[6]);
            let m2: i32 = lo_exec(s[2], s[5]);
            let m3: i32 = lo_exec(s[3], s[4]);
            let d0: i32 = s[0].wrapping_sub(s[7]);
            let d1: i32 = s[1].wrapping_sub(s[6]);
            let d2: i32 = s[2].wrapping_sub(s[5]);
            let d3: i32 = s[3].wrapping_sub(s[4]);
            let s0: i32 = lo_exec(m0, m3);
            let s1: i32 = lo_exec(m1, m2);
            let e1: i32 = m0.wrapping_sub(m3);
            let f1: i32 = m1.wrapping_sub(m2);
            push4(&mut out, lo_exec(s0, s1), d0, e1, lift_exec(d1, d0));
            push4(
                &mut out,
                s0.wrapping_sub(s1),
                lift_exec(d2, d1),
                lift_exec(f1, e1),
                lift_exec(d3, d2),
            );
            proof {
                reveal(fwd4);
                reveal(fwd8);
                let e = fwd4(seq![m0, m1, m2, m3]);
                assert(e[0] == lo(s0, s1) && e[1] == e1 && e[2] == hi(s0, s1) && e[3] == lift(
                    f1,
                    e1,
                ));
                assert(out@ =~= fwd8(s@));
            }
        } else {
            let s0: i32 = first_exec(s[0], s[4]);
            let s1: i32 = second_exec(s[0], s[4]);
            let e1: i32 = s[2];
            let f1: i32 = unlift_exec(s[6], e1);
            let m0: i32 = first_exec(s0, e1);
            let m1: i32 = first_exec(s1, f1);
            let m2: i32 = second_exec(s1, f1);
            let m3: i32 = second_exec(s0, e1);
            let d0: i32 = s[1];
            let d1: i32 = unlift_exec(s[3], d0);
            let d2: i32 = unlift_exec(s[5], d1);
            let d3: i32 = unlift_exec(s[7], d2);
            push4(
                &mut out,
                first_exec(m0, d0),
                first_exec(m1, d1),
                first_exec(m2, d2),
                first_exec(m3, d3),
            );
            push4(
                &mut out,
                second_exec(m3, d3),
                second_exec(m2, d2),
                second_exec(m1, d1),
                second_exec(m0, d0),
            );
            proof {
                reveal(inv4);
                reveal(inv8);
                let e = inv4(seq![s@[0], s@[2], s@[4], s@[6]]);
                assert(e[0] == m0 && e[1] == m1 && e[2] == m2 && e[3] == m3);
                assert(out@ =~= inv8(s@));
            }
        }
    } else {
        out = s.clone();
        assert(out@ =~= s@);
    }
    out
}

fn rows_exec(b: &Vec<i32>, bw: usize, bh: usize, forward: bool) -> (out: Vec<i32>)
    requires
        bw >= 1,
        b@.len() == bw * bh,
    ensures
        out@ == rows(b@, bw as int, bh as int, forward),
{
    let ghost all = rows(b@, bw as int, bh as int, forward);
    let total: usize = b.len();
    let mut out: Vec<i32> = Vec::new();
    let mut r: usize = 0;
    while r < bh
        invariant
            bw >= 1,
            total == b@.len(),
            b@.len() == bw * bh,
            r <= bh,
            all == rows(b@, bw as int, bh as int, forward),
            all.len() == bw * bh,
            out@.len() == r * bw,
            r * bw <= all.len(),
            out@ == all.take(r * bw),
        decreases bh - r,
    {
        proof {
            assert(r * bw + bw <= bw * bh) by (nonlinear_arith)
                requires
                    r < bh,
            ;
        }
        let mut s: Vec<i32> = Vec::new();
        let base: usize = r * bw;
        let mut c: usize = 0;
        while c < bw
            invariant
                b@.len() == bw * bh,
                total == b@.len(),
                base == r * bw,
                base + bw <= b@.len(),
                c <= bw,
                s@ == row(b@, bw as int, r as int).take(c as int),
            decreases bw - c,
        {
            s.push(b[base + c]);
            c = c + 1;
            assert(s@ =~= row(b@, bw as int, r as int).take(c as int));
        }
        assert(s@ =~= row(b@, bw as int, r as int));
        let t: Vec<i32> = line_exec(&s, forward);
        proof {
            lemma_line(s@);
        }
        let ghost before = out@;
        out.extend_from_slice(&t);
        proof {
            assert(out@ =~= before + t@);
            assert((r + 1) * bw == r * bw + bw) by (nonlinear_arith);
            assert forall|j: int| r * bw <= j < r * bw + bw implies all[j] == t@[j - r * bw] by {
                lemma_split(j, r as int, j - r * bw, bw as int, bh as int);
            }
            assert(out@ =~= all.take((r + 1) * bw));
        }
        r = r + 1;
    }
    assert(r * bw == bw * bh) by (nonlinear_arith)
        requires
            r == bh,
    ;
    assert(out@ =~= all);
    out
}

fn transpose_exec(b: &Vec<i32>, bw: usize, bh: usize) -> (out: Vec<i32>)
    requires
        bw >= 1,
        bh >= 1,
        b@.len() == bw * bh,
    ensures
        out@ == transpose(b@, bw as int, bh as int),
{
    let n: usize = b.len();
    let ghost all = transpose(b@, bw as int, bh as int);
    let mut out: Vec<i32> = Vec::new();
    let mut j: usize = 0;
    while j < n
        invariant
            bw >= 1,
            bh >= 1,
            n == b@.len(),
            b@.len() == bw * bh,
            all == transpose(b@, bw as int, bh as int),
            all.len() == n,
            j <= n,
            out@ == all.take(j as int),
        decreases n - j,
    {
        proof {
            assert(bw * bh == bh * bw) by (nonlinear_arith);
            lemma_index(j as int, bh as int, bw as int);
            let r = j as int % bh as int;
            let c = j as int / bh as int;
            lemma_split(r * bw + c, r, c, bw as int, bh as int);
            assert(0 <= r * bw <= r * bw + c) by (nonlinear_arith)
                requires
                    r >= 0,
                    c >= 0,
                    bw >= 1,
            ;
        }
        out.push(b[(j % bh) * bw + j / bh]);
        j = j + 1;
        assert(out@ =~= all.take(j as int));
    }
    assert(out@ =~= all);
    out
}

/// Transforms a block.
pub fn block_forward(b: &Vec<i32>, bw: usize, bh: usize) -> (out: Vec<i32>)
    requires
        bw >= 1,
        bh >= 1,
        b@.len() == bw * bh,
    ensures
        out@ == forward2(b@, bw as int, bh as int),
        out@.len() == bw * bh,
{
    proof {
        assert(bw * bh == bh * bw) by (nonlinear_arith);
        law_transform_roundtrip(b@, bw as int, bh as int);
    }
    let r: Vec<i32> = rows_exec(b, bw, bh, true);
    let t: Vec<i32> = transpose_exec(&r, bw, bh);
    let q: Vec<i32> = rows_exec(&t, bh, bw, true);
    transpose_exec(&q, bh, bw)
}

/// Undoes [`block_forward`].
pub fn block_inverse(b: &Vec<i32>, bw: usize, bh: usize) -> (out: Vec<i32>)
    requires
        bw >= 1,
        bh >= 1,
        b@.len() == bw * bh,
    ensures
        out@ == inverse2(b@, bw as int, bh as int),
        out@.len() == bw * bh,
{
    proof {
        assert(bw * bh == bh * bw) by (nonlinear_arith);
        lemma_inverse_len(b@, bw as int, bh as int);
    }
    let t: Vec<i32> = transpose_exec(b, bw, bh);
    let q: Vec<i32> = rows_exec(&t, bh, bw, false);
    let r: Vec<i32> = transpose_exec(&q, bh, bw);
    rows_exec(&r, bw, bh, false)
}

proof fn lemma_flat_line(s: Seq<i32>, v: i32)
    requires
        s.len() == 4 || s.len() == 8,
        forall|i: int| 0 <= i < s.len() ==> #[trigger] s[i] == v,
    ensures
        line(s, true).len() == s.len(),
        line(s, true)[0] == v,
        forall|i: int| 1 <= i < s.len() ==> #[trigger] line(s, true)[i] == 0,
{
    reveal(fwd4);
    reveal(fwd8);
    assert(s[0] == v && s[1] == v && s[2] == v && s[3] == v);
    if s.len() == 8 {
        assert(s[4] == v && s[5] == v && s[6] == v && s[7] == v);
    }
}

/// Of a block of one brightness only the first coefficient is left, and it is that brightness.
pub proof fn law_flat_block(b: Seq<i32>, bw: int, bh: int, v: i32, j: int)
    requires
        bw == 4 || bw == 8,
        bh == 4 || bh == 8,
        b.len() == bw * bh,
        forall|i: int| 0 <= i < b.len() ==> #[trigger] b[i] == v,
        0 <= j < bw * bh,
    ensures
        forward2(b, bw, bh)[j] == (if j == 0 {
            v
        } else {
            0
        }),
{
    assert(bw * bh == bh * bw) by (nonlinear_arith);
    let a = rows(b, bw, bh, true);
    assert forall|i: int| 0 <= i < bw * bh implies #[trigger] a[i] == (if i % bw == 0 {
        v
    } else {
        0
    }) by {
        let r = i / bw;
        lemma_index(i, bw, bh);
        let t = row(b, bw, r);
        assert forall|c: int| 0 <= c < t.len() implies #[trigger] t[c] == v by {
            assert(0 <= r * bw + c < bw * bh) by (nonlinear_arith)
                requires
                    0 <= r < bh,
                    0 <= c < bw,
            ;
            assert(b[r * bw + c] == v);
        }
        lemma_flat_line(t, v);
        assert(0 <= i % bw < bw);
        assert(line(t, true)[i % bw] == if i % bw == 0 {
            v
        } else {
            0
        });
    }
    let c = transpose(a, bw, bh);
    assert forall|i: int| 0 <= i < bw * bh implies #[trigger] c[i] == (if i / bh == 0 {
        v
    } else {
        0
    }) by {
        lemma_index(i, bh, bw);
        let (x, y) = (i / bh, i % bh);
        let k = y * bw + x;
        assert(0 <= k < bw * bh) by (nonlinear_arith)
            requires
                0 <= x < bw,
                0 <= y < bh,
                k == y * bw + x,
        ;
        vstd::arithmetic::div_mod::lemma_fundamental_div_mod_converse(k, bw, y, x);
        assert(a[k] == if k % bw == 0 {
            v
        } else {
            0
        });
    }
    let d = rows(c, bh, bw, true);
    assert forall|i: int| 0 <= i < bw * bh implies #[trigger] d[i] == (if i == 0 {
        v
    } else {
        0
    }) by {
        lemma_index(i, bh, bw);
        let r = i / bh;
        let t = row(c, bh, r);
        let u: i32 = if r == 0 {
            v
        } else {
            0
        };
        assert forall|k: int| 0 <= k < t.len() implies #[trigger] t[k] == u by {
            let q = r * bh + k;
            assert(0 <= q < bw * bh) by (nonlinear_arith)
                requires
                    0 <= r < bw,
                    0 <= k < bh,
                    q == r * bh + k,
            ;
            vstd::arithmetic::div_mod::lemma_fundamental_div_mod_converse(q, bh, r, k);
            assert(c[q] == if q / bh == 0 {
                v
            } else {
                0
            });
        }
        lemma_flat_line(t, u);
        assert(0 <= i % bh < bh);
        assert(line(t, true)[i % bh] == if i % bh == 0 {
            u
        } else {
            0
        });
        vstd::arithmetic::div_mod::lemma_fundamental_div_mod(i, bh);
        if r == 0 {
            assert(bh * r == 0) by (nonlinear_arith)
                requires
                    r == 0,
            ;
        } else {
            assert(bh * r >= bh) by (nonlinear_arith)
                requires
                    r >= 1,
                    bh >= 1,
            ;
        }
    }
    let e = forward2(b, bw, bh);
    lemma_index(j, bw, bh);
    let (x, y) = (j % bw, j / bw);
    let k = x * bh + y;
    assert(0 <= k < bw * bh) by (nonlinear_arith)
        requires
            0 <= x < bw,
            0 <= y < bh,
            k == x * bh + y,
    ;
    assert(e[j] == d[k]);
    vstd::arithmetic::div_mod::lemma_fundamental_div_mod(j, bw);
    assert(k == 0 <==> j == 0) by (nonlinear_arith)
        requires
            k == x * bh + y,
            j == bw * y + x,
            0 <= x < bw,
            0 <= y < bh,
    ;
}

} // verus!

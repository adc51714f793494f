//! Sample-wise arithmetic: differences, colour transform, illumination compensation.

use vstd::prelude::*;
use crate::common::domain;
use crate::common::error::{CrfError, CrfResult};
use crate::common::predict;

verus! {

/// Differences of samples.
pub open spec fn sub_spec(a: Seq<i32>, b: Seq<i32>) -> Seq<i32> {
    Seq::new(a.len(), |i: int| a[i].wrapping_sub(b[i]))
}

/// Sums of samples, as many as both have.
pub open spec fn add_spec(a: Seq<i32>, b: Seq<i32>) -> Seq<i32> {
    Seq::new(
        if a.len() < b.len() {
            a.len()
        } else {
            b.len()
        },
        |i: int| a[i].wrapping_add(b[i]),
    )
}

/// The differences `a - b`.
pub fn sub_i32(a: &[i32], b: &[i32]) -> (d: Vec<i32>)
    requires
        a@.len() == b@.len(),
    ensures
        d@ == sub_spec(a@, b@),
{
    let mut d: Vec<i32> = Vec::with_capacity(a.len());
    let mut i: usize = 0;
    while i < a.len()
        invariant
            i <= a@.len(),
            a@.len() == b@.len(),
            d@ == sub_spec(a@, b@).take(i as int),
        decreases a@.len() - i,
    {
        d.push(a[i].wrapping_sub(b[i]));
        i = i + 1;
        assert(d@ =~= sub_spec(a@, b@).take(i as int));
    }
    assert(d@ =~= sub_spec(a@, b@));
    d
}

/// The sums `a + b`, as many as both have samples.
pub fn add_i32(a: &[i32], b: &[i32]) -> (s: Vec<i32>)
    ensures
        s@ == add_spec(a@, b@),
{
    let n: usize = if a.len() < b.len() {
        a.len()
    } else {
        b.len()
    };
    let mut s: Vec<i32> = Vec::with_capacity(n);
    let mut i: usize = 0;
    while i < n
        invariant
            i <= n,
            n <= a@.len(),
            n <= b@.len(),
            n == add_spec(a@, b@).len(),
            s@ == add_spec(a@, b@).take(i as int),
        decreases n - i,
    {
        s.push(a[i].wrapping_add(b[i]));
        i = i + 1;
        assert(s@ =~= add_spec(a@, b@).take(i as int));
    }
    assert(s@ =~= add_spec(a@, b@));
    s
}

/// Adding back a difference gives the minuend.
pub proof fn law_difference_roundtrip(a: Seq<i32>, b: Seq<i32>)
    requires
        a.len() == b.len(),
    ensures
        add_spec(b, sub_spec(a, b)) == a,
{
    assert forall|i: int| 0 <= i < a.len() implies add_spec(b, sub_spec(a, b))[i] == a[i] by {
        predict::lemma_wrapping_cancel(a[i], b[i]);
    }
    assert(add_spec(b, sub_spec(a, b)) =~= a);
}

/// Half of a sample, rounded down.
pub open spec fn half(v: i32) -> i32 {
    (v as int / 2) as i32
}

/// Half of a sample, rounded down.
pub fn half_exec(v: i32) -> (r: i32)
    ensures
        r == half(v),
{
    if v >= 0 {
        v / 2
    } else {
        -((-(v + 1)) / 2) - 1
    }
}

/// A pixel after the reversible colour transform: luma and two colour differences.
pub open spec fn rct_pixel(r: i32, g: i32, b: i32) -> (i32, i32, i32) {
    let co = r.wrapping_sub(b);
    let t = b.wrapping_add(half(co));
    let cg = g.wrapping_sub(t);
    let y = t.wrapping_add(half(cg));
    (y, co, cg)
}

/// The pixel before the colour transform.
pub open spec fn unrct_pixel(y: i32, co: i32, cg: i32) -> (i32, i32, i32) {
    let t = y.wrapping_sub(half(cg));
    let g = cg.wrapping_add(t);
    let b = t.wrapping_sub(half(co));
    let r = b.wrapping_add(co);
    (r, g, b)
}

/// The colour transform of a pixel loses nothing.
pub proof fn lemma_rct_pixel(r: i32, g: i32, b: i32)
    ensures
        ({
            let (y, co, cg) = rct_pixel(r, g, b);
            unrct_pixel(y, co, cg) == (r, g, b)
        }),
{
    let co = r.wrapping_sub(b);
    let t = b.wrapping_add(half(co));
    let cg = g.wrapping_sub(t);
    predict::lemma_wrapping_cancel(t, half(cg));
    predict::lemma_wrapping_cancel(g, t);
    predict::lemma_wrapping_cancel(b, half(co));
    predict::lemma_wrapping_cancel(r, b);
    assert(cg.wrapping_add(t) == g);
    assert(b.wrapping_add(co) == r);
}

pub open spec fn pick3(p: (i32, i32, i32), k: int) -> i32 {
    if k == 0 {
        p.0
    } else if k == 1 {
        p.1
    } else {
        p.2
    }
}

/// The colour transform of an image with three samples per pixel.
pub open spec fn rct_spec(px: Seq<i32>) -> Seq<i32> {
    Seq::new(
        px.len(),
        |i: int|
            pick3(
                rct_pixel(px[i / 3 * 3], px[i / 3 * 3 + 1], px[i / 3 * 3 + 2]),
                i % 3,
            ),
    )
}

/// The inverse of [`rct_spec`].
pub open spec fn unrct_spec(px: Seq<i32>) -> Seq<i32> {
    Seq::new(
        px.len(),
        |i: int|
            pick3(
                unrct_pixel(px[i / 3 * 3], px[i / 3 * 3 + 1], px[i / 3 * 3 + 2]),
                i % 3,
            ),
    )
}

/// The colour transform loses nothing.
pub proof fn law_rct_roundtrip(px: Seq<i32>)
    requires
        px.len() % 3 == 0,
    ensures
        unrct_spec(rct_spec(px)) == px,
{
    let t = rct_spec(px);
    assert forall|i: int| 0 <= i < px.len() implies unrct_spec(t)[i] == px[i] by {
        let b = i / 3 * 3;
        assert(b + 2 < px.len());
        lemma_rct_pixel(px[b], px[b + 1], px[b + 2]);
        let p = rct_pixel(px[b], px[b + 1], px[b + 2]);
        assert(b / 3 * 3 == b && (b + 1) / 3 * 3 == b && (b + 2) / 3 * 3 == b);
        assert(t[b] == p.0);
        assert(t[b + 1] == p.1);
        assert(t[b + 2] == p.2);
    }
    assert(unrct_spec(t) =~= px);
}

/// Colour transforms an image of three samples per pixel.
pub fn rct_forward(px: &[i32], components: usize) -> (r: CrfResult<Vec<i32>>)
    ensures
        r is Ok <==> components == 3 && px@.len() % 3 == 0,
        r is Ok ==> r->Ok_0@ == rct_spec(px@),
        r is Err ==> r->Err_0 is InvalidCodingParams,
{
    if components != 3 || px.len() % 3 != 0 {
        return Err(CrfError::InvalidCodingParams("colour transform".to_string()));
    }
    let mut out: Vec<i32> = Vec::with_capacity(px.len());
    let mut i: usize = 0;
    let n: usize = px.len();
    while i < n
        invariant
            i <= n,
            n == px@.len(),
            n % 3 == 0,
            i % 3 == 0,
            out@ == rct_spec(px@).take(i as int),
        decreases n - i,
    {
        let r: i32 = px[i];
        let g: i32 = px[i + 1];
        let b: i32 = px[i + 2];
        let co: i32 = r.wrapping_sub(b);
        let t: i32 = b.wrapping_add(half_exec(co));
        let cg: i32 = g.wrapping_sub(t);
        let y: i32 = t.wrapping_add(half_exec(cg));
        out.push(y);
        out.push(co);
        out.push(cg);
        i = i + 3;
        assert(out@ =~= rct_spec(px@).take(i as int));
    }
    assert(out@ =~= rct_spec(px@));
    Ok(out)
}

/// Undoes [`rct_forward`].
pub fn rct_inverse(px: &[i32], components: usize) -> (r: CrfResult<Vec<i32>>)
    ensures
        r is Ok <==> components == 3 && px@.len() % 3 == 0,
        r is Ok ==> r->Ok_0@ == unrct_spec(px@),
        r is Err ==> r->Err_0 is InvalidCodingParams,
{
    if components != 3 || px.len() % 3 != 0 {
        return Err(CrfError::InvalidCodingParams("colour transform".to_string()));
    }
    let mut out: Vec<i32> = Vec::with_capacity(px.len());
    let mut i: usize = 0;
    let n: usize = px.len();
    while i < n
        invariant
            i <= n,
            n == px@.len(),
            n % 3 == 0,
            i % 3 == 0,
            out@ == unrct_spec(px@).take(i as int),
        decreases n - i,
    {
        let y: i32 = px[i];
        let co: i32 = px[i + 1];
        let cg: i32 = px[i + 2];
        let t: i32 = y.wrapping_sub(half_exec(cg));
        let g: i32 = cg.wrapping_add(t);
        let b: i32 = t.wrapping_sub(half_exec(co));
        let r: i32 = b.wrapping_add(co);
        out.push(r);
        out.push(g);
        out.push(b);
        i = i + 3;
        assert(out@ =~= unrct_spec(px@).take(i as int));
    }
    assert(out@ =~= unrct_spec(px@));
    Ok(out)
}

/// A sample under a change of illumination by `a` hundredths and `b`, rounded toward zero.
pub open spec fn lic_sample(v: i32, a: int, b: int) -> i32 {
    let p = v as int * a;
    let q = if p >= 0 {
        p / 100
    } else {
        -((-p) / 100)
    };
    let r = q + b;
    if r > i32::MAX {
        i32::MAX
    } else if r < i32::MIN {
        i32::MIN
    } else {
        r as i32
    }
}

pub open spec fn lic_spec(px: Seq<i32>, a: int, b: int) -> Seq<i32> {
    Seq::new(px.len(), |i: int| lic_sample(px[i], a, b))
}

/// A sample under a change of illumination.
pub fn lic_sample_exec(v: i32, a: i32, b: i32) -> (r: i32)
    requires
        0 <= a <= 255,
        -128 <= b <= 127,
    ensures
        r == lic_sample(v, a as int, b as int),
{
    proof {
        assert(-0x80_0000_0000 <= v * a <= 0x80_0000_0000) by (nonlinear_arith)
            requires
                0 <= a <= 255,
                -0x8000_0000 <= v <= 0x7fff_ffff,
        ;
    }
    let p: i64 = v as i64 * a as i64;
    let q: i64 = if p >= 0 {
        p / 100
    } else {
        -((-p) / 100)
    };
    let r: i64 = q + b as i64;
    if r > i32::MAX as i64 {
        i32::MAX
    } else if r < i32::MIN as i64 {
        i32::MIN
    } else {
        r as i32
    }
}

/// The samples `px` under a change of illumination.
pub fn fit_into(px: &[i32], a: i32, b: i32) -> (out: Vec<i32>)
    requires
        0 <= a <= 255,
        -128 <= b <= 127,
    ensures
        out@ == lic_spec(px@, a as int, b as int),
{
    let mut out: Vec<i32> = Vec::with_capacity(px.len());
    let mut i: usize = 0;
    while i < px.len()
        invariant
            i <= px@.len(),
            0 <= a <= 255,
            -128 <= b <= 127,
            out@ == lic_spec(px@, a as int, b as int).take(i as int),
        decreases px@.len() - i,
    {
        out.push(lic_sample_exec(px[i], a, b));
        i = i + 1;
        assert(out@ =~= lic_spec(px@, a as int, b as int).take(i as int));
    }
    assert(out@ =~= lic_spec(px@, a as int, b as int));
    out
}

/// The reference samples `px` weighted as a frame header with the bytes `a_num` and `b` asks for.
pub open spec fn weighted_spec(px: Seq<i32>, a_num: u8, b: u8) -> Seq<i32> {
    if a_num != 0 {
        lic_spec(px, a_num as int, domain::byte_signed(b))
    } else {
        px
    }
}

/// The reference samples `px` weighted as a frame header with the bytes `a_num` and `b` asks for.
pub fn apply_lic_weighted(px: &Vec<i32>, a_num: u8, b: u8) -> (out: Vec<i32>)
    ensures
        out@ == weighted_spec(px@, a_num, b),
{
    if a_num == 0 {
        let out: Vec<i32> = px.clone();
        assert(out@ =~= px@);
        return out;
    }
    let bs: i32 = if b < 128 {
        b as i32
    } else {
        b as i32 - 256
    };
    fit_into(px, a_num as i32, bs)
}

/// A difference is what the second image has to be raised by, sample by sample, and a sum raises it by
/// as much.
pub proof fn law_difference(a: Seq<i32>, b: Seq<i32>, i: int)
    requires
        a.len() == b.len(),
        0 <= i < a.len(),
    ensures
        i32::MIN <= a[i] - b[i] <= i32::MAX ==> sub_spec(a, b)[i] == a[i] - b[i],
        i32::MIN <= a[i] + b[i] <= i32::MAX ==> add_spec(a, b)[i] == a[i] + b[i],
        sub_spec(a, b).len() == a.len(),
        add_spec(a, b).len() == a.len(),
{
}

/// Of a pixel's transformed colours the first is the brightness, a mean of red, blue and twice green;
/// the second is how much redder than blue it is; the third how much greener than the mean of both. A
/// grey pixel has no colour.
pub proof fn law_rct_colours(px: Seq<i32>, k: int)
    requires
        0 <= k,
        3 * k + 2 < px.len(),
        forall|i: int| 0 <= i < px.len() ==> -0x800_0000 <= #[trigger] px[i] <= 0x800_0000,
    ensures
        ({
            let (r, g, b) = (px[3 * k], px[3 * k + 1], px[3 * k + 2]);
            let t = rct_spec(px);
            let (y, co, cg) = (t[3 * k], t[3 * k + 1], t[3 * k + 2]);
            &&& t.len() == px.len()
            &&& -3 <= 4 * y - (r + 2 * g + b) <= 3
            &&& co == r - b
            &&& 0 <= 2 * cg - (2 * g - r - b) <= 1
            &&& r == g && g == b ==> y == g && co == 0 && cg == 0
        }),
{
    assert((3 * k) / 3 == k && (3 * k + 1) / 3 == k && (3 * k + 2) / 3 == k);
    assert((3 * k) % 3 == 0 && (3 * k + 1) % 3 == 1 && (3 * k + 2) % 3 == 2);
    assert(-0x800_0000 <= px[3 * k] <= 0x800_0000);
    assert(-0x800_0000 <= px[3 * k + 1] <= 0x800_0000);
    assert(-0x800_0000 <= px[3 * k + 2] <= 0x800_0000);
}

/// A change of illumination multiplies by `a` hundredths, to less than one, and adds `b`; a hundred
/// hundredths and nothing leave samples alone, and a brighter sample stays the brighter one.
pub proof fn law_lic_sample(u: i32, v: i32, a: int, b: int)
    requires
        u <= v,
        -0x80_0000 <= u,
        v <= 0x80_0000,
        0 <= a <= 255,
        -128 <= b <= 127,
    ensures
        -100 < 100 * (lic_sample(v, a, b) - b) - a * v < 100,
        lic_sample(u, a, b) <= lic_sample(v, a, b),
        lic_sample(v, 100, 0) == v,
        lic_sample(v, a, b) == lic_sample(v, a, 0) + b,
{
    let (p, q) = (u as int * a, v as int * a);
    assert(p <= q && -0x80_0000 * 255 <= p && q <= 0x80_0000 * 255) by (nonlinear_arith)
        requires
            p == u as int * a,
            q == v as int * a,
            u <= v,
            -0x80_0000 <= u,
            v <= 0x80_0000,
            0 <= a <= 255,
    ;
    assert(q == a * v) by (nonlinear_arith)
        requires
            q == v as int * a,
    ;
}

} // verus!

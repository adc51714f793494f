//! Finding a change of illumination between two frames.

use vstd::prelude::*;
use crate::common::arith;
use crate::common::arith::lic_sample_exec;
use crate::common::predict;

verus! {

/// Every so many samples one is looked at.
pub const LIC_STRIDE: usize = 7;

/// Smallest factor that is tried, in hundredths.
pub const LIC_A_MIN: i32 = 80;

/// Largest factor that is tried, in hundredths.
pub const LIC_A_MAX: i32 = 120;

/// How far apart the factors are that are tried.
pub const LIC_A_STEP: i32 = 5;

/// How many factors are tried.
pub const LIC_A_COUNT: i32 = 9;

/// How far from zero an offset may be.
pub const LIC_B_MAX: i32 = 64;

/// A change of illumination, and how far two frames are apart with and without it.
#[derive(Clone, Copy, PartialEq, Eq, Debug, Structural)]
pub struct LicFit {
    /// Factor, in hundredths.
    pub a_num: i32,
    /// Offset.
    pub b: i32,
    /// Sum of differences that are left.
    pub cost: u64,
    /// Sum of differences without a change.
    pub base_cost: u64,
    /// Number of samples looked at.
    pub count: u64,
}

/// How many samples of `n` are looked at.
pub open spec fn looked_at(n: int) -> int {
    (n + 6) / 7
}

/// Sum of what the factor `a` alone leaves, over the first `n` samples looked at.
pub open spec fn gap(g: Seq<i32>, f: Seq<i32>, a: int, n: nat) -> int
    decreases n,
{
    if n == 0 {
        0
    } else {
        gap(g, f, a, (n - 1) as nat) + (f[7 * (n - 1)] - arith::lic_sample(g[7 * (n - 1)], a, 0))
    }
}

/// Sum of the magnitudes of what a factor and an offset leave.
pub open spec fn left(g: Seq<i32>, f: Seq<i32>, a: int, b: int, n: nat) -> int
    decreases n,
{
    if n == 0 {
        0
    } else {
        left(g, f, a, b, (n - 1) as nat) + predict::abs(
            f[7 * (n - 1)] - arith::lic_sample(g[7 * (n - 1)], a, b),
        )
    }
}

/// The offset that goes with a factor: what it leaves on average, to the nearest whole number, no
/// further from zero than offsets may be.
pub open spec fn offset(g: Seq<i32>, f: Seq<i32>, a: int, n: nat) -> int {
    let s = gap(g, f, a, n);
    let q = if s >= 0 {
        (2 * s + n) / (2 * n as int)
    } else {
        -((n - 2 * s) / (2 * n as int))
    };
    if q < -LIC_B_MAX {
        -LIC_B_MAX as int
    } else if q > LIC_B_MAX {
        LIC_B_MAX as int
    } else {
        q
    }
}

/// The change with factor `a`.
pub open spec fn fit(g: Seq<i32>, f: Seq<i32>, a: int, n: nat) -> LicFit {
    let b = offset(g, f, a, n);
    LicFit {
        a_num: a as i32,
        b: b as i32,
        cost: left(g, f, a, b, n) as u64,
        base_cost: left(g, f, 100, 0, n) as u64,
        count: n as u64,
    }
}

/// The best of the first `k` changes that are tried, the first of those that leave least.
pub open spec fn best_fit(g: Seq<i32>, f: Seq<i32>, n: nat, k: nat) -> LicFit
    decreases k,
{
    if k <= 1 {
        fit(g, f, LIC_A_MIN as int, n)
    } else {
        let b = best_fit(g, f, n, (k - 1) as nat);
        let c = fit(g, f, LIC_A_MIN + LIC_A_STEP * (k - 1), n);
        if c.cost < b.cost {
            c
        } else {
            b
        }
    }
}

impl LicFit {
    /// Whether a difference is worth speaking of, and five sixths of it go away.
    pub open spec fn pays(self) -> bool {
        self.base_cost >= self.count && 6 * self.cost <= self.base_cost
    }

    /// Whether a difference is worth speaking of, and five sixths of it go away.
    pub fn worthwhile(&self) -> (b: bool)
        ensures
            b == self.pays(),
    {
        self.base_cost >= self.count && self.cost <= self.base_cost / 6
    }
}

/// The change of illumination from `golden` to `frame` that leaves least, for frames of the same
/// size that are not empty.
pub open spec fn search(g: Seq<i32>, f: Seq<i32>) -> Option<LicFit> {
    if g.len() == 0 || g.len() != f.len() {
        None
    } else {
        Some(best_fit(g, f, looked_at(g.len() as int) as nat, LIC_A_COUNT as nat))
    }
}

/// A change that is found can be written in a frame header.
pub proof fn lemma_best_fit(g: Seq<i32>, f: Seq<i32>, n: nat, k: nat)
    requires
        k <= LIC_A_COUNT,
    ensures
        LIC_A_MIN <= best_fit(g, f, n, k).a_num <= LIC_A_MAX,
        -LIC_B_MAX <= best_fit(g, f, n, k).b <= LIC_B_MAX,
    decreases k,
{
    if k > 1 {
        lemma_best_fit(g, f, n, (k - 1) as nat);
    }
}

proof fn lemma_looked_at(len: int, j: int)
    requires
        len >= 1,
        0 <= j < looked_at(len),
    ensures
        7 * j < len,
        1 <= looked_at(len) <= len,
{
}

fn sum_gap(g: &[i32], f: &[i32], a: i32, n: usize) -> (s: i128)
    requires
        g@.len() == f@.len(),
        g@.len() >= 1,
        n == looked_at(g@.len() as int),
        0 <= a <= 255,
    ensures
        s == gap(g@, f@, a as int, n as nat),
        -n * 0x1_0000_0000 <= s <= n * 0x1_0000_0000,
{
    let len: usize = g.len();
    let mut s: i128 = 0;
    let mut j: usize = 0;
    while j < n
        invariant
            len == g@.len(),
            len == f@.len(),
            len >= 1,
            n == looked_at(len as int),
            0 <= a <= 255,
            j <= n,
            s == gap(g@, f@, a as int, j as nat),
            -j * 0x1_0000_0000 <= s <= j * 0x1_0000_0000,
        decreases n - j,
    {
        proof {
            lemma_looked_at(len as int, j as int);
        }
        let i: usize = LIC_STRIDE * j;
        let r: i32 = lic_sample_exec(g[i], a, 0);
        s = s + (f[i] as i128 - r as i128);
        j = j + 1;
    }
    s
}

fn sum_left(g: &[i32], f: &[i32], a: i32, b: i32, n: usize) -> (s: u64)
    requires
        g@.len() == f@.len(),
        1 <= g@.len() <= 0xffff_fffe,
        n == looked_at(g@.len() as int),
        0 <= a <= 255,
        -128 <= b <= 127,
    ensures
        s == left(g@, f@, a as int, b as int, n as nat),
{
    let len: usize = g.len();
    let mut s: u64 = 0;
    let mut j: usize = 0;
    while j < n
        invariant
            len == g@.len(),
            len == f@.len(),
            1 <= len <= 0xffff_fffe,
            n == looked_at(len as int),
            0 <= a <= 255,
            -128 <= b <= 127,
            j <= n,
            s == left(g@, f@, a as int, b as int, j as nat),
            s <= j * 0x1_0000_0000,
        decreases n - j,
    {
        proof {
            lemma_looked_at(len as int, j as int);
        }
        let i: usize = LIC_STRIDE * j;
        let r: i32 = lic_sample_exec(g[i], a, b);
        let d: i64 = f[i] as i64 - r as i64;
        s = s + if d < 0 {
            (-d) as u64
        } else {
            d as u64
        };
        j = j + 1;
    }
    s
}

fn fit_exec(g: &[i32], f: &[i32], a: i32, base_cost: u64, n: usize) -> (r: LicFit)
    requires
        g@.len() == f@.len(),
        1 <= g@.len() <= 0xffff_fffe,
        n == looked_at(g@.len() as int),
        0 <= a <= 255,
        base_cost == left(g@, f@, 100, 0, n as nat),
    ensures
        r == fit(g@, f@, a as int, n as nat),
        -LIC_B_MAX <= r.b <= LIC_B_MAX,
{
    proof {
        lemma_looked_at(g@.len() as int, 0);
    }
    let s: i128 = sum_gap(g, f, a, n);
    let q: i128 = if s >= 0 {
        (2 * s + n as i128) / (2 * n as i128)
    } else {
        -((n as i128 - 2 * s) / (2 * n as i128))
    };
    let b: i32 = if q < -(LIC_B_MAX as i128) {
        -LIC_B_MAX
    } else if q > LIC_B_MAX as i128 {
        LIC_B_MAX
    } else {
        q as i32
    };
    let cost: u64 = sum_left(g, f, a, b, n);
    LicFit { a_num: a, b, cost, base_cost, count: n as u64 }
}

/// Finds the change of illumination from `golden` to `frame` that leaves least.
pub fn search_lic(golden: &[i32], frame: &[i32]) -> (r: Option<LicFit>)
    requires
        golden@.len() <= 0xffff_fffe,
    ensures
        r == search(golden@, frame@),
        r is Some ==> LIC_A_MIN <= r->0.a_num <= LIC_A_MAX && -LIC_B_MAX <= r->0.b <= LIC_B_MAX,
{
    let len: usize = golden.len();
    if len == 0 || len != frame.len() {
        return None;
    }
    let n: usize = (len - 1) / LIC_STRIDE + 1;
    proof {
        assert((len - 1) / 7 + 1 == (len + 6) / 7);
    }
    let base: u64 = sum_left(golden, frame, 100, 0, n);
    let mut best: LicFit = fit_exec(golden, frame, LIC_A_MIN, base, n);
    let mut k: i32 = 1;
    while k < LIC_A_COUNT
        invariant
            golden@.len() == frame@.len(),
            1 <= golden@.len() <= 0xffff_fffe,
            n == looked_at(golden@.len() as int),
            base == left(golden@, frame@, 100, 0, n as nat),
            1 <= k <= LIC_A_COUNT,
            best == best_fit(golden@, frame@, n as nat, k as nat),
            LIC_A_MIN <= best.a_num <= LIC_A_MAX,
            -LIC_B_MAX <= best.b <= LIC_B_MAX,
        decreases LIC_A_COUNT - k,
    {
        let c: LicFit = fit_exec(golden, frame, LIC_A_MIN + LIC_A_STEP * k, base, n);
        if c.cost < best.cost {
            best = c;
        }
        k = k + 1;
    }
    Some(best)
}

proof fn lemma_left(g: Seq<i32>, f: Seq<i32>, a: int, b: int, n: nat)
    ensures
        0 <= left(g, f, a, b, n) <= n * 0x1_0000_0000,
        left(g, f, a, b, n) == 0 <==> forall|j: int|
            0 <= j < n ==> f[7 * j] == arith::lic_sample(#[trigger] g[7 * j], a, b),
    decreases n,
{
    if n > 0 {
        let m = (n - 1) as nat;
        lemma_left(g, f, a, b, m);
        let j = n - 1;
        assert(n * 0x1_0000_0000 == m * 0x1_0000_0000 + 0x1_0000_0000);
        if left(g, f, a, b, n) == 0 {
            assert forall|i: int| 0 <= i < n implies f[7 * i] == arith::lic_sample(
                #[trigger] g[7 * i],
                a,
                b,
            ) by {
                if i < m {
                    assert(f[7 * i] == arith::lic_sample(g[7 * i], a, b));
                } else {
                    assert(i == j);
                }
            }
        } else if forall|i: int|
            0 <= i < n ==> f[7 * i] == arith::lic_sample(#[trigger] g[7 * i], a, b) {
            assert(f[7 * j] == arith::lic_sample(g[7 * j], a, b));
            assert(left(g, f, a, b, m) > 0);
            let i = choose|i: int|
                0 <= i < m && f[7 * i] != arith::lic_sample(#[trigger] g[7 * i], a, b);
            assert(f[7 * i] == arith::lic_sample(g[7 * i], a, b));
        }
    }
}

proof fn lemma_gap(g: Seq<i32>, f: Seq<i32>, a: int, b: int, n: nat)
    requires
        forall|j: int| 0 <= j < n ==> f[7 * j] == arith::lic_sample(#[trigger] g[7 * j], a, 0) + b,
    ensures
        gap(g, f, a, n) == n * b,
    decreases n,
{
    if n > 0 {
        lemma_gap(g, f, a, b, (n - 1) as nat);
        assert(f[7 * (n - 1)] == arith::lic_sample(g[7 * (n - 1)], a, 0) + b);
        assert(n * b == (n - 1) * b + b) by (nonlinear_arith);
    } else {
        assert(0 * b == 0);
    }
}

proof fn lemma_offset(g: Seq<i32>, f: Seq<i32>, a: int, b: int, n: nat)
    requires
        n >= 1,
        gap(g, f, a, n) == n * b,
        -64 <= b <= 64,
    ensures
        offset(g, f, a, n) == b,
{
    let s = n * b;
    if s >= 0 {
        assert(2 * s + n == (2 * n as int) * b + n) by (nonlinear_arith)
            requires
                s == n * b,
        ;
        vstd::arithmetic::div_mod::lemma_fundamental_div_mod_converse(
            2 * s + n,
            2 * n as int,
            b,
            n as int,
        );
    } else {
        assert(n - 2 * s == (2 * n as int) * (-b) + n) by (nonlinear_arith)
            requires
                s == n * b,
        ;
        vstd::arithmetic::div_mod::lemma_fundamental_div_mod_converse(
            n - 2 * s,
            2 * n as int,
            -b,
            n as int,
        );
    }
}

proof fn lemma_offset_within(g: Seq<i32>, f: Seq<i32>, a: int, n: nat)
    ensures
        -64 <= offset(g, f, a, n) <= 64,
{
}

proof fn lemma_least_fit(g: Seq<i32>, f: Seq<i32>, n: nat, k: nat, i: int)
    requires
        1 <= k <= 9,
        0 <= i < k,
        n <= 0x2500_0000,
    ensures
        best_fit(g, f, n, k).cost <= fit(g, f, 80 + 5 * i, n).cost,
        ({
            let t = best_fit(g, f, n, k);
            &&& 80 <= t.a_num <= 120
            &&& t.a_num % 5 == 0
            &&& t == fit(g, f, t.a_num as int, n)
        }),
    decreases k,
{
    if k > 1 {
        if i < k - 1 {
            lemma_least_fit(g, f, n, (k - 1) as nat, i);
        } else {
            lemma_least_fit(g, f, n, (k - 1) as nat, 0);
        }
    }
}

/// The change of illumination that is found leaves no more than any other brightness among those
/// tried; if the frame is a change of illumination of the first frame, by one of the factors tried and
/// no more than 64, what is found leaves nothing where it was looked. It is told to leave nothing only
/// if that is so.
pub proof fn law_search_lic(g: Seq<i32>, f: Seq<i32>, a: int, b: int)
    requires
        g.len() == f.len(),
        1 <= g.len() <= u32::MAX,
        80 <= a <= 120,
        a % 5 == 0,
        -64 <= b <= 64,
        forall|i: int| 0 <= i < g.len() ==> -0x80_0000 <= #[trigger] g[i] <= 0x80_0000,
    ensures
        ({
            let r = search(g, f);
            let t = r->0;
            let n = (g.len() + 6) / 7;
            &&& r is Some
            &&& 80 <= t.a_num <= 120 && t.a_num % 5 == 0 && -64 <= t.b <= 64
            &&& t.count == n
            &&& t.cost == 0 <==> forall|j: int|
                0 <= j < n ==> f[7 * j] == arith::lic_sample(
                    #[trigger] g[7 * j],
                    t.a_num as int,
                    t.b as int,
                )
            &&& t.base_cost == 0 <==> forall|j: int|
                0 <= j < n ==> f[7 * j] == arith::lic_sample(#[trigger] g[7 * j], 100, 0)
            &&& t.cost <= fit(g, f, a, n as nat).cost
            &&& f == arith::lic_spec(g, a, b) ==> t.cost == 0
        }),
{
    let n = looked_at(g.len() as int) as nat;
    assert(n == (g.len() + 6) / 7);
    let i = (a - 80) / 5;
    lemma_least_fit(g, f, n, 9, i);
    let t = best_fit(g, f, n, 9);
    lemma_offset_within(g, f, t.a_num as int, n);
    lemma_left(g, f, t.a_num as int, t.b as int, n);
    lemma_left(g, f, 100, 0, n);
    if f == arith::lic_spec(g, a, b) {
        assert forall|j: int| 0 <= j < n implies f[7 * j] == arith::lic_sample(
            #[trigger] g[7 * j],
            a,
            0,
        ) + b && f[7 * j] == arith::lic_sample(g[7 * j], a, b) by {
            assert(-0x80_0000 <= g[7 * j] <= 0x80_0000);
            arith::law_lic_sample(g[7 * j], g[7 * j], a, b);
        }
        lemma_gap(g, f, a, b, n);
        lemma_offset(g, f, a, b, n);
        lemma_left(g, f, a, b, n);
    }
}

/// A change of illumination is used only where it leaves a sixth of what is left without it, and where
/// that is at least one on average.
pub proof fn law_lic_pays(t: LicFit)
    ensures
        t.pays() ==> 6 * t.cost <= t.base_cost,
        t.pays() ==> t.base_cost >= t.count,
        t.base_cost >= t.count && t.cost == 0 ==> t.pays(),
{
}

} // verus!

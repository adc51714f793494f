//! Choice of the Golomb-Rice parameter.

use vstd::prelude::*;
use vstd::arithmetic::power2::*;
use crate::common::codes;

verus! {

/// Largest parameter that [`adaptive_k`] picks.
pub const MAX_K: u8 = 15;

pub open spec fn sum_u32(vals: Seq<u32>) -> nat
    decreases vals.len(),
{
    if vals.len() == 0 {
        0
    } else {
        sum_u32(vals.drop_last()) + vals.last() as nat
    }
}

/// The parameter for values with the given mean: the integer part of its binary logarithm.
pub open spec fn k_for_mean(mean: nat) -> nat {
    let k = codes::ilog2(mean);
    if k < MAX_K {
        k
    } else {
        MAX_K as nat
    }
}

pub open spec fn adaptive_k_spec(vals: Seq<u32>) -> nat {
    if vals.len() == 0 {
        0
    } else {
        k_for_mean(sum_u32(vals) / vals.len())
    }
}

/// Integer part of the binary logarithm of a positive number.
pub fn floor_log2(n: u32) -> (m: u32)
    requires
        n >= 1,
    ensures
        m == codes::ilog2(n as nat),
        m <= 31,
        pow2(m as nat) <= n < pow2(m as nat + 1),
{
    let lz: u32 = n.leading_zeros();
    proof {
        vstd::std_specs::bits::axiom_u32_leading_zeros(n);
        let m = (31 - lz) as u32;
        let m1 = (32 - lz) as u32;
        vstd::bits::lemma_u32_shr_is_div(n, m);
        lemma_pow2_pos(m as nat);
        lemma_pow2_pos(m1 as nat);
        lemma2_to64();
        let x = n >> m;
        assert(x & 1 != 0 ==> x >= 1) by (bit_vector);
        assert(n as nat / pow2(m as nat) >= 1);
        vstd::arithmetic::div_mod::lemma_fundamental_div_mod(n as int, pow2(m as nat) as int);
        assert(n as nat >= pow2(m as nat)) by (nonlinear_arith)
            requires
                n as nat == pow2(m as nat) * (n as nat / pow2(m as nat)) + n as nat % pow2(
                    m as nat,
                ),
                n as nat / pow2(m as nat) >= 1,
                pow2(m as nat) > 0,
        ;
        if m1 < 32 {
            vstd::bits::lemma_u32_shr_is_div(n, m1);
            vstd::arithmetic::div_mod::lemma_fundamental_div_mod(
                n as int,
                pow2(m1 as nat) as int,
            );
            vstd::arithmetic::div_mod::lemma_mod_bound(n as int, pow2(m1 as nat) as int);
            assert(n >> m1 == 0);
            assert(n as nat / pow2(m1 as nat) == 0);
        }
        assert(m1 == m + 1);
        assert(n < pow2(m1 as nat));
        codes::lemma_ilog2_unique(n as nat, m as nat);
    }
    31 - lz
}

/// Picks the Golomb-Rice parameter that suits the mean of `values`.
pub fn adaptive_k(values: &[u32]) -> (k: u8)
    requires
        values@.len() <= u32::MAX,
    ensures
        k == adaptive_k_spec(values@),
        k <= MAX_K,
{
    if values.len() == 0 {
        return 0;
    }
    let mut sum: u64 = 0;
    let mut i: usize = 0;
    while i < values.len()
        invariant
            i <= values@.len() <= u32::MAX,
            sum == sum_u32(values@.take(i as int)),
            sum <= i * 0xffff_ffff,
        decreases values@.len() - i,
    {
        proof {
            assert(values@.take(i + 1).drop_last() =~= values@.take(i as int));
            assert(i * 0xffff_ffff + 0xffff_ffff <= 0xffff_ffff * 0xffff_ffff);
        }
        sum = sum + values[i] as u64;
        i = i + 1;
    }
    assert(values@.take(i as int) =~= values@);
    let mean: u64 = sum / values.len() as u64;
    proof {
        assert(mean <= 0xffff_ffff) by {
            vstd::arithmetic::div_mod::lemma_fundamental_div_mod(
                sum as int,
                values@.len() as int,
            );
            assert(mean <= 0xffff_ffff) by (nonlinear_arith)
                requires
                    sum <= values@.len() * 0xffff_ffff,
                    sum as int == values@.len() * mean + sum as int % (values@.len() as int),
                    sum as int % (values@.len() as int) >= 0,
                    values@.len() > 0,
            ;
        }
    }
    if mean < 2 {
        return 0;
    }
    let m: u32 = floor_log2(mean as u32);
    if m < MAX_K as u32 {
        m as u8
    } else {
        MAX_K
    }
}

/// Largest parameter that [`best_k_exec`] considers.
pub const HIST_MAX_K: u8 = 6;

/// Total length in bits of the Golomb-Rice codes, with parameter `k`, of the nonzero values.
pub open spec fn nonzero_cost(vals: Seq<u32>, k: nat) -> nat
    decreases vals.len(),
{
    if vals.len() == 0 {
        0
    } else {
        nonzero_cost(vals.drop_last(), k) + if vals.last() == 0 {
            0
        } else {
            codes::golomb_len(vals.last() as nat, k)
        }
    }
}

/// `k` is the first parameter up to [`HIST_MAX_K`] with the least [`nonzero_cost`].
pub open spec fn is_best_k(vals: Seq<u32>, k: nat) -> bool {
    &&& k <= HIST_MAX_K
    &&& forall|j: nat|
        j <= HIST_MAX_K ==> nonzero_cost(vals, k) <= #[trigger] nonzero_cost(vals, j)
    &&& forall|j: nat| j < k ==> nonzero_cost(vals, k) < #[trigger] nonzero_cost(vals, j)
}

/// The parameter that [`best_k_exec`] returns.
pub open spec fn best_k_of(vals: Seq<u32>) -> nat {
    choose|k: nat| is_best_k(vals, k)
}

pub proof fn lemma_best_k_unique(vals: Seq<u32>, k: nat)
    requires
        is_best_k(vals, k),
    ensures
        best_k_of(vals) == k,
{
    let b = best_k_of(vals);
    assert(is_best_k(vals, b));
    if b < k {
        assert(nonzero_cost(vals, k) < nonzero_cost(vals, b));
        assert(nonzero_cost(vals, b) <= nonzero_cost(vals, k));
    }
    if k < b {
        assert(nonzero_cost(vals, b) < nonzero_cost(vals, k));
        assert(nonzero_cost(vals, k) <= nonzero_cost(vals, b));
    }
}

/// A best parameter exists.
pub proof fn lemma_best_k(vals: Seq<u32>)
    ensures
        is_best_k(vals, best_k_of(vals)),
        best_k_of(vals) <= HIST_MAX_K,
{
    let k = lemma_best_up_to(vals, HIST_MAX_K as nat);
    assert(is_best_k(vals, k));
}

proof fn lemma_best_up_to(vals: Seq<u32>, n: nat) -> (k: nat)
    ensures
        k <= n,
        forall|j: nat| j <= n ==> nonzero_cost(vals, k) <= #[trigger] nonzero_cost(vals, j),
        forall|j: nat| j < k ==> nonzero_cost(vals, k) < #[trigger] nonzero_cost(vals, j),
    decreases n,
{
    if n == 0 {
        0
    } else {
        let k = lemma_best_up_to(vals, (n - 1) as nat);
        if nonzero_cost(vals, n) < nonzero_cost(vals, k) {
            n
        } else {
            k
        }
    }
}

/// Length in bits of the Golomb-Rice codes of the nonzero values.
fn nonzero_cost_exec(values: &[u32], k: u8) -> (total: u64)
    requires
        k <= HIST_MAX_K,
        values@.len() < u32::MAX,
    ensures
        total == nonzero_cost(values@, k as nat),
        total <= values@.len() * 0x1_0000_0000,
{
    let mut total: u64 = 0;
    let mut i: usize = 0;
    proof {
        lemma2_to64();
        lemma_pow2_pos(k as nat);
    }
    while i < values.len()
        invariant
            i <= values@.len() < u32::MAX,
            k <= HIST_MAX_K,
            pow2(k as nat) >= 1,
            total == nonzero_cost(values@.take(i as int), k as nat),
            total <= i * 0x1_0000_0000,
        decreases values@.len() - i,
    {
        proof {
            assert(values@.take(i + 1).drop_last() =~= values@.take(i as int));
        }
        let u: u32 = values[i];
        if u != 0 {
            proof {
                vstd::bits::lemma_u32_shr_is_div(u, k as u32);
                vstd::arithmetic::div_mod::lemma_div_is_ordered_by_denominator(
                    u as int,
                    1,
                    pow2(k as nat) as int,
                );
                if k >= 1 {
                    lemma_pow2_unfold(k as nat);
                    lemma_pow2_pos((k - 1) as nat);
                    vstd::arithmetic::div_mod::lemma_div_is_ordered_by_denominator(
                        u as int,
                        2,
                        pow2(k as nat) as int,
                    );
                }
            }
            total = total + ((u >> (k as u32)) as u64 + 1 + k as u64);
        }
        i = i + 1;
    }
    assert(values@.take(i as int) =~= values@);
    total
}

/// The parameter up to [`HIST_MAX_K`] for which the codes of the nonzero values are shortest.
pub fn best_k_exec(values: &[u32]) -> (k: u8)
    requires
        values@.len() < u32::MAX,
    ensures
        is_best_k(values@, k as nat),
        k == best_k_of(values@),
{
    let mut best: u8 = 0;
    let mut best_len: u64 = nonzero_cost_exec(values, 0);
    let mut k: u8 = 1;
    while k <= HIST_MAX_K
        invariant
            values@.len() < u32::MAX,
            1 <= k <= HIST_MAX_K + 1,
            best < k,
            best_len == nonzero_cost(values@, best as nat),
            forall|j: nat|
                j < k ==> nonzero_cost(values@, best as nat) <= #[trigger] nonzero_cost(values@, j),
            forall|j: nat|
                j < best ==> nonzero_cost(values@, best as nat) < #[trigger] nonzero_cost(
                    values@,
                    j,
                ),
        decreases HIST_MAX_K + 1 - k,
    {
        let total: u64 = nonzero_cost_exec(values, k);
        if total < best_len {
            best_len = total;
            best = k;
        }
        k = k + 1;
    }
    proof {
        assert(is_best_k(values@, best as nat));
        lemma_best_k_unique(values@, best as nat);
    }
    best
}

/// The parameter for values is the number of binary digits of their mean, less one, up to the largest
/// there is: where all are at least two to the power of it and less than twice that, it is that power.
pub proof fn law_adaptive_k(vals: Seq<u32>, k: nat)
    requires
        vals.len() >= 1,
        k <= MAX_K,
        forall|i: int| 0 <= i < vals.len() ==> pow2(k) <= #[trigger] vals[i] < pow2(k + 1),
    ensures
        adaptive_k_spec(vals) == k,
{
    let n = vals.len() as int;
    lemma_sum_between(vals, pow2(k) as int, pow2(k + 1) - 1);
    let s = sum_u32(vals) as int;
    let m = s / n;
    vstd::arithmetic::div_mod::lemma_fundamental_div_mod(s, n);
    vstd::arithmetic::div_mod::lemma_mod_bound(s, n);
    let (a, b) = (pow2(k) as int, pow2(k + 1) - 1);
    assert(a <= m) by (nonlinear_arith)
        requires
            a * n <= s,
            s == n * m + s % n,
            0 <= s % n < n,
    ;
    assert(m <= b) by (nonlinear_arith)
        requires
            s <= b * n,
            s == n * m + s % n,
            0 <= s % n,
            n >= 1,
    ;
    codes::lemma_ilog2_unique(m as nat, k);
}

proof fn lemma_sum_between(vals: Seq<u32>, lo: int, hi: int)
    requires
        forall|i: int| 0 <= i < vals.len() ==> lo <= #[trigger] vals[i] <= hi,
    ensures
        lo * vals.len() <= sum_u32(vals) <= hi * vals.len(),
    decreases vals.len(),
{
    let n = vals.len() as int;
    if n > 0 {
        let d = vals.drop_last();
        assert forall|i: int| 0 <= i < d.len() implies lo <= #[trigger] d[i] <= hi by {
            assert(d[i] == vals[i]);
        }
        lemma_sum_between(d, lo, hi);
        assert(lo <= vals[n - 1] <= hi);
        assert(lo * n == lo * (n - 1) + lo && hi * n == hi * (n - 1) + hi) by (nonlinear_arith);
    } else {
        assert(lo * n == 0 && hi * n == 0) by (nonlinear_arith)
            requires
                n == 0,
        ;
    }
}

} // verus!

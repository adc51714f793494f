//! Prediction modes that compete, and their order by cost.

use vstd::prelude::*;
use crate::common::cabac_syntax as syn;
use crate::common::domain::PredictionMode;
use crate::encoder::rle_cabac::mag_u32;

verus! {

/// Number of modes that compete.
pub const CANDIDATES: usize = 8;

/// The modes that compete.
pub open spec fn candidate(i: int) -> PredictionMode {
    if i == 0 {
        PredictionMode::Horizontal
    } else if i == 1 {
        PredictionMode::Vertical
    } else if i == 2 {
        PredictionMode::Average
    } else if i == 3 {
        PredictionMode::DC
    } else if i == 4 {
        PredictionMode::Med
    } else if i == 5 {
        PredictionMode::Paeth
    } else if i == 6 {
        PredictionMode::TopRight
    } else {
        PredictionMode::Diagonal
    }
}

/// The modes that compete.
pub fn candidate_mode(i: usize) -> (m: PredictionMode)
    ensures
        m == candidate(i as int),
{
    if i == 0 {
        PredictionMode::Horizontal
    } else if i == 1 {
        PredictionMode::Vertical
    } else if i == 2 {
        PredictionMode::Average
    } else if i == 3 {
        PredictionMode::DC
    } else if i == 4 {
        PredictionMode::Med
    } else if i == 5 {
        PredictionMode::Paeth
    } else if i == 6 {
        PredictionMode::TopRight
    } else {
        PredictionMode::Diagonal
    }
}

/// Sum of the magnitudes of residuals.
pub open spec fn sum_mag(res: Seq<i32>) -> int
    decreases res.len(),
{
    if res.len() == 0 {
        0
    } else {
        sum_mag(res.drop_last()) + syn::mag(res.last())
    }
}

/// Sum of the magnitudes of residuals.
pub fn sum_mag_exec(res: &[i32]) -> (s: u64)
    requires
        res@.len() <= u32::MAX,
    ensures
        s == sum_mag(res@),
{
    let mut s: u64 = 0;
    let mut i: usize = 0;
    assert(res@.take(0) =~= Seq::<i32>::empty());
    while i < res.len()
        invariant
            i <= res@.len() <= u32::MAX,
            s == sum_mag(res@.take(i as int)),
            s <= i * 0x8000_0000,
        decreases res@.len() - i,
    {
        proof {
            assert(res@.take(i + 1).drop_last() =~= res@.take(i as int));
        }
        s = s + mag_u32(res[i]) as u64;
        i = i + 1;
    }
    assert(res@.take(i as int) =~= res@);
    s
}

/// The place of the least of the first `n` costs, the first of equals; places like `skip` do not
/// count.
pub open spec fn least(costs: Seq<int>, skip: int, n: nat) -> int
    decreases n,
{
    if n == 0 {
        -1
    } else {
        let b = least(costs, skip, (n - 1) as nat);
        if n - 1 == skip {
            b
        } else if b < 0 || costs[n - 1] < costs[b] {
            n - 1
        } else {
            b
        }
    }
}

/// The places of the two least costs, in order.
pub open spec fn top2(costs: Seq<int>) -> (int, int) {
    let a = least(costs, -1, costs.len());
    (a, least(costs, a, costs.len()))
}

pub open spec fn as_ints(costs: Seq<u128>) -> Seq<int> {
    Seq::new(costs.len(), |i: int| costs[i] as int)
}

pub proof fn lemma_least(costs: Seq<int>, skip: int, n: nat)
    requires
        n <= costs.len(),
        n >= 2 || (n == 1 && skip != 0),
    ensures
        0 <= least(costs, skip, n) < n,
        least(costs, skip, n) != skip,
    decreases n,
{
    if n >= 3 || (n == 2 && skip != 0) {
        lemma_least(costs, skip, (n - 1) as nat);
    } else {
        reveal_with_fuel(least, 3);
    }
}

pub fn least_exec(costs: &Vec<u128>, skip: usize) -> (b: usize)
    requires
        costs@.len() >= 2,
    ensures
        b == least(
            as_ints(costs@),
            if skip < costs@.len() {
                skip as int
            } else {
                -1
            },
            costs@.len(),
        ),
        b < costs@.len(),
{
    let n: usize = costs.len();
    let ghost s: int = if skip < n {
        skip as int
    } else {
        -1
    };
    let mut b: usize = n;
    let mut i: usize = 0;
    while i < n
        invariant
            n == costs@.len(),
            n >= 2,
            s == if skip < n {
                skip as int
            } else {
                -1int
            },
            i <= n,
            b <= n,
            b == n ==> least(as_ints(costs@), s, i as nat) == -1,
            b < n ==> least(as_ints(costs@), s, i as nat) == b,
        decreases n - i,
    {
        if i != skip {
            if b == n {
                b = i;
            } else if costs[i] < costs[b] {
                b = i;
            }
        }
        i = i + 1;
    }
    proof {
        lemma_least(as_ints(costs@), s, n as nat);
    }
    b
}

/// The places of the two least costs, in order.
pub fn top2_exec(costs: &Vec<u128>) -> (r: (usize, usize))
    requires
        costs@.len() >= 2,
    ensures
        r.0 == top2(as_ints(costs@)).0,
        r.1 == top2(as_ints(costs@)).1,
        r.0 < costs@.len(),
        r.1 < costs@.len(),
{
    let a: usize = least_exec(costs, costs.len());
    let b: usize = least_exec(costs, a);
    (a, b)
}

/// The candidate that is picked is one of the others than the one left out, costs no more than any of
/// these, and less than those before it.
pub proof fn law_least(costs: Seq<int>, skip: int, i: int)
    requires
        costs.len() >= 2 || (costs.len() == 1 && skip != 0),
        0 <= i < costs.len(),
        i != skip,
    ensures
        ({
            let b = least(costs, skip, costs.len());
            &&& 0 <= b < costs.len()
            &&& b != skip
            &&& costs[b] <= costs[i]
            &&& i < b ==> costs[b] < costs[i]
        }),
{
    lemma_least(costs, skip, costs.len());
    lemma_least_costs(costs, skip, costs.len(), i);
}

proof fn lemma_least_costs(costs: Seq<int>, skip: int, n: nat, i: int)
    requires
        0 <= i < n <= costs.len(),
        i != skip,
    ensures
        0 <= least(costs, skip, n) < n,
        costs[least(costs, skip, n)] <= costs[i],
        i < least(costs, skip, n) ==> costs[least(costs, skip, n)] < costs[i],
    decreases n,
{
    let m = (n - 1) as nat;
    if i < m {
        lemma_least_costs(costs, skip, m, i);
    } else {
        lemma_least_range(costs, skip, m);
    }
}

proof fn lemma_least_range(costs: Seq<int>, skip: int, n: nat)
    ensures
        -1 <= least(costs, skip, n) < n,
    decreases n,
{
    if n > 0 {
        lemma_least_range(costs, skip, (n - 1) as nat);
    }
}

/// The first of the two best costs no more than the second, and both no more than any other.
pub proof fn law_top2(costs: Seq<int>, i: int)
    requires
        costs.len() >= 2,
        0 <= i < costs.len(),
    ensures
        ({
            let (a, b) = top2(costs);
            &&& 0 <= a < costs.len() && 0 <= b < costs.len() && a != b
            &&& costs[a] <= costs[b]
            &&& i != a ==> costs[b] <= costs[i]
        }),
{
    let (a, b) = top2(costs);
    law_least(costs, -1, i);
    lemma_least(costs, a, costs.len());
    law_least(costs, -1, b);
    if i != a {
        law_least(costs, a, i);
    }
}

/// Magnitudes that are all at least `lo` and at most `hi` add up to at least and at most that many
/// times as much.
pub proof fn law_sum_mag(res: Seq<i32>, lo: int, hi: int)
    requires
        forall|i: int|
            0 <= i < res.len() ==> (lo <= #[trigger] res[i] <= hi || lo <= -res[i] <= hi),
        lo >= 0,
    ensures
        lo * res.len() <= sum_mag(res) <= hi * res.len(),
    decreases res.len(),
{
    let n = res.len() as int;
    if n > 0 {
        let d = res.drop_last();
        assert forall|i: int| 0 <= i < d.len() implies (lo <= #[trigger] d[i] <= hi || lo <= -d[i]
            <= hi) by {
            assert(d[i] == res[i]);
        }
        law_sum_mag(d, lo, hi);
        assert(lo <= res[n - 1] <= hi || lo <= -res[n - 1] <= hi);
        assert(lo * n == lo * (n - 1) + lo && hi * n == hi * (n - 1) + hi) by (nonlinear_arith);
    } else {
        assert(lo * n == 0 && hi * n == 0) by (nonlinear_arith)
            requires
                n == 0,
        ;
    }
}

/// No two candidates are the same, and none is to leave samples alone.
pub proof fn law_candidates(i: int, j: int)
    requires
        0 <= i < j < CANDIDATES,
    ensures
        candidate(i) != candidate(j),
        candidate(i) != PredictionMode::Off,
        candidate(j) != PredictionMode::Off,
{
}

} // verus!

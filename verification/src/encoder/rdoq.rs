//! Quantisation of coefficients by a search that weighs the error against the length of the code.

use vstd::prelude::*;
use crate::common::blocks;
use crate::common::blocks::Grid;
use crate::common::dct;
use crate::common::dct::{quantize_coeffs_with_matrix, step_for_exec};
use crate::common::plane;
use crate::common::plane::{dct_plane_forward_bs, interleave, map_plane, split_components};
use crate::common::quant;
use crate::common::quant::{quant_level_exec, quantize_residuals};

verus! {

/// Weight of a squared error.
pub const LAMBDA_NUM: i128 = 850;

/// Weight of a bit.
pub const LAMBDA_DEN: i128 = 100;

/// Levels beyond this are cut off.
pub const MAX_LEVEL: i32 = 4096;

/// Bits for a level of the given magnitude.
pub open spec fn rice2_bits(m: int) -> int {
    m / 4 + 3
}

/// Bits for a level, behind a zero or not.
pub open spec fn rate_bits(level: int, prev_zero: bool) -> int {
    let m = if level < 0 {
        -level
    } else {
        level
    };
    if level == 0 {
        if prev_zero {
            0
        } else {
            5
        }
    } else if prev_zero {
        4 + rice2_bits(m)
    } else {
        2 + rice2_bits(m)
    }
}

/// The level nearest to a coefficient.
pub open spec fn near(v: i32, q: int) -> int {
    let n = quant::quant_level(v, q, 0) as int;
    if n > MAX_LEVEL {
        MAX_LEVEL as int
    } else if n < -MAX_LEVEL {
        -MAX_LEVEL as int
    } else {
        n
    }
}

/// The levels that come into question: the nearest, its neighbours and zero, in order.
pub open spec fn candidates(n: int) -> Seq<int> {
    if n > 1 {
        seq![0, n - 1, n, n + 1]
    } else if n < -1 {
        seq![n - 1, n, n + 1, 0]
    } else {
        seq![n - 1, n, n + 1]
    }
}

/// The price of coding `v` as `level`.
pub open spec fn price(v: i32, q: int, level: int, prev_zero: bool) -> int {
    let d = v - level * q;
    LAMBDA_NUM * (d * d) + LAMBDA_DEN * rate_bits(level, prev_zero)
}

/// The cheapest way so far, with its price.
pub type Track = Option<(int, Seq<int>)>;

/// The cheaper of a way and another; the first, should they cost the same.
pub open spec fn cheaper(cur: Track, total: int, path: Seq<int>) -> Track {
    match cur {
        Some((c, p)) => if total < c {
            Some((total, path))
        } else {
            cur
        },
        None => Some((total, path)),
    }
}

/// The cheapest ways over one more coefficient that end in a level other than zero, and in zero,
/// when the first `k` pairs of a candidate and a way before it have been tried.
pub open spec fn relaxed(before: (Track, Track), v: i32, q: int, k: nat) -> (Track, Track)
    decreases k,
{
    if k == 0 {
        (None, None)
    } else {
        let (t0, t1) = relaxed(before, v, q, (k - 1) as nat);
        let level = candidates(near(v, q))[(k - 1) / 2];
        let zero = (k - 1) % 2 == 1;
        let from = if zero {
            before.1
        } else {
            before.0
        };
        match from {
            None => (t0, t1),
            Some((c, path)) => {
                let total = c + price(v, q, level, zero);
                if level == 0 {
                    (t0, cheaper(t1, total, path.push(level)))
                } else {
                    (cheaper(t0, total, path.push(level)), t1)
                }
            },
        }
    }
}

/// The cheapest ways over the first `n` coefficients that end in a level other than zero, and in
/// zero.
pub open spec fn ways(b: Seq<i32>, q: Seq<u8>, n: nat) -> (Track, Track)
    decreases n,
{
    if n == 0 {
        (None, Some((0, Seq::empty())))
    } else {
        let m = n - 1;
        relaxed(
            ways(b, q, m as nat),
            b[m],
            q[m] as int,
            2 * candidates(near(b[m], q[m] as int)).len(),
        )
    }
}

/// The levels that are chosen.
pub open spec fn chosen(b: Seq<i32>, q: Seq<u8>) -> Seq<int> {
    let (t0, t1) = ways(b, q, b.len());
    match (t0, t1) {
        (Some((c0, p0)), Some((c1, p1))) => if c0 <= c1 {
            p0
        } else {
            p1
        },
        (Some((c0, p0)), None) => p0,
        (None, Some((c1, p1))) => p1,
        (None, None) => Seq::empty(),
    }
}

/// The coefficients that stand for a block.
pub open spec fn trellis(b: Seq<i32>, q: Seq<u8>) -> Seq<i32> {
    Seq::new(b.len(), |i: int| (chosen(b, q)[i] * q[i]) as i32)
}

/// A choice of a level for each of the first coefficients, all out of the candidates.
pub open spec fn admissible(b: Seq<i32>, q: Seq<u8>, path: Seq<int>) -> bool {
    path.len() <= b.len() && forall|i: int|
        0 <= i < path.len() ==> candidates(near(b[i], q[i] as int)).contains(#[trigger] path[i])
}

/// Whether the last level is zero; nothing counts as zero.
pub open spec fn ends_zero(path: Seq<int>) -> bool {
    path.len() == 0 || path.last() == 0
}

/// The price of a choice of levels.
pub open spec fn total_price(b: Seq<i32>, q: Seq<u8>, path: Seq<int>) -> int
    decreases path.len(),
{
    if path.len() == 0 {
        0
    } else {
        let i = path.len() - 1;
        total_price(b, q, path.drop_last()) + price(
            b[i],
            q[i] as int,
            path.last(),
            ends_zero(path.drop_last()),
        )
    }
}

/// What a track holds is a choice of levels with its price.
spec fn sound(b: Seq<i32>, q: Seq<u8>, n: nat, zero: bool, t: Track) -> bool {
    match t {
        None => true,
        Some((c, p)) => p.len() == n && admissible(b, q, p) && ends_zero(p) == zero && c
            == total_price(b, q, p),
    }
}

/// No choice of levels with that end is cheaper than what the track holds.
spec fn minimal(b: Seq<i32>, q: Seq<u8>, n: nat, zero: bool, t: Track) -> bool {
    forall|p: Seq<int>|
        p.len() == n && #[trigger] admissible(b, q, p) && ends_zero(p) == zero ==> t is Some
            && (t->Some_0).0 <= total_price(b, q, p)
}

proof fn lemma_candidate_len(n: int)
    ensures
        candidates(n).len() >= 3,
        candidates(n).len() <= 4,
        candidates(n).contains(0),
{
    let s = candidates(n);
    if n > 1 {
        assert(s[0] == 0);
    } else if n < -1 {
        assert(s[3] == 0);
    } else if n == 1 {
        assert(s[0] == 0);
    } else if n == 0 {
        assert(s[1] == 0);
    } else {
        assert(s[2] == 0);
    }
}

/// After `k` pairs: what the tracks hold is sound, and no pair tried so far was cheaper.
proof fn lemma_relaxed(b: Seq<i32>, q: Seq<u8>, n: nat, k: nat)
    requires
        n < b.len(),
        b.len() == q.len(),
        sound(b, q, n, false, ways(b, q, n).0),
        sound(b, q, n, true, ways(b, q, n).1),
        k <= 2 * candidates(near(b[n as int], q[n as int] as int)).len(),
    ensures
        ({
            let v = b[n as int];
            let s = q[n as int] as int;
            let w = ways(b, q, n);
            let r = relaxed(w, v, s, k);
            let cs = candidates(near(v, s));
            &&& sound(b, q, n + 1, false, r.0)
            &&& sound(b, q, n + 1, true, r.1)
            &&& forall|j: int|
                #![trigger cs[j]]
                0 <= j && 2 * j < k && w.0 is Some ==> ({
                    let total = (w.0->Some_0).0 + price(v, s, cs[j], false);
                    let t = if cs[j] == 0 {
                        r.1
                    } else {
                        r.0
                    };
                    t is Some && (t->Some_0).0 <= total
                })
            &&& forall|j: int|
                #![trigger cs[j]]
                0 <= j && 2 * j + 1 < k && w.1 is Some ==> ({
                    let total = (w.1->Some_0).0 + price(v, s, cs[j], true);
                    let t = if cs[j] == 0 {
                        r.1
                    } else {
                        r.0
                    };
                    t is Some && (t->Some_0).0 <= total
                })
        }),
    decreases k,
{
    if k > 0 {
        lemma_relaxed(b, q, n, (k - 1) as nat);
        let v = b[n as int];
        let s = q[n as int] as int;
        let w = ways(b, q, n);
        let cs = candidates(near(v, s));
        let level = cs[(k - 1) / 2];
        let zero = (k - 1) % 2 == 1;
        let from = if zero {
            w.1
        } else {
            w.0
        };
        if from is Some {
            let path = (from->Some_0).1;
            let next = path.push(level);
            assert(next.drop_last() =~= path);
            assert(cs.contains(level));
            assert forall|i: int| 0 <= i < next.len() implies candidates(
                near(b[i], q[i] as int),
            ).contains(#[trigger] next[i]) by {
                if i < n {
                    assert(next[i] == path[i]);
                }
            }
            assert(total_price(b, q, next) == (from->Some_0).0 + price(v, s, level, zero));
        }
    }
}

proof fn lemma_ways(b: Seq<i32>, q: Seq<u8>, n: nat)
    requires
        n <= b.len(),
        b.len() == q.len(),
    ensures
        sound(b, q, n, false, ways(b, q, n).0),
        sound(b, q, n, true, ways(b, q, n).1),
        minimal(b, q, n, false, ways(b, q, n).0),
        minimal(b, q, n, true, ways(b, q, n).1),
        ways(b, q, n).1 is Some,
    decreases n,
{
    if n > 0 {
        let m = (n - 1) as nat;
        lemma_ways(b, q, m);
        let v = b[m as int];
        let s = q[m as int] as int;
        let cs = candidates(near(v, s));
        lemma_candidate_len(near(v, s));
        lemma_relaxed(b, q, m, 2 * cs.len());
        let w = ways(b, q, m);
        let r = ways(b, q, n);
        assert forall|p: Seq<int>| p.len() == n && #[trigger] admissible(b, q, p) implies ({
            let t = if ends_zero(p) {
                r.1
            } else {
                r.0
            };
            t is Some && (t->Some_0).0 <= total_price(b, q, p)
        }) by {
            let init = p.drop_last();
            assert forall|i: int| 0 <= i < init.len() implies candidates(
                near(b[i], q[i] as int),
            ).contains(#[trigger] init[i]) by {
                assert(init[i] == p[i]);
            }
            assert(admissible(b, q, init));
            assert(cs.contains(p[m as int]));
            let j = choose|j: int| 0 <= j < cs.len() && cs[j] == p[m as int];
            assert(cs[j] == p.last());
        }
        let z = choose|j: int| 0 <= j < cs.len() && cs[j] == 0;
        assert(cs[z] == 0);
    } else {
        assert forall|p: Seq<int>|
            p.len() == 0 && #[trigger] admissible(b, q, p) && ends_zero(p) == true implies 0
            <= total_price(b, q, p) by {}
        assert forall|i: int| 0 <= i < Seq::<int>::empty().len() implies candidates(
            near(b[i], q[i] as int),
        ).contains(#[trigger] Seq::<int>::empty()[i]) by {}
        assert(admissible(b, q, Seq::empty()));
    }
}

/// The search is exact: of all choices of a level for each coefficient out of the candidates, none
/// is cheaper than the one that is chosen.
pub proof fn law_trellis_optimal(b: Seq<i32>, q: Seq<u8>, path: Seq<int>)
    requires
        b.len() == q.len(),
        path.len() == b.len(),
        admissible(b, q, path),
    ensures
        admissible(b, q, chosen(b, q)),
        chosen(b, q).len() == b.len(),
        total_price(b, q, chosen(b, q)) <= total_price(b, q, path),
{
    lemma_ways(b, q, b.len());
}

/// What a level of the search stands for is a multiple of the step of its place.
pub proof fn law_trellis_multiple(b: Seq<i32>, q: Seq<u8>, i: int)
    requires
        b.len() == q.len(),
        0 <= i < b.len(),
        q[i] >= 1,
    ensures
        trellis(b, q)[i] as int % q[i] as int == 0,
        trellis(b, q)[i] == chosen(b, q)[i] * q[i],
{
    lemma_ways(b, q, b.len());
    let c = chosen(b, q)[i];
    let n = near(b[i], q[i] as int);
    assert(candidates(n).contains(c));
    assert(-4097 <= c <= 4097);
    let m = q[i] as int;
    assert(-0x20_0000 <= c * m <= 0x20_0000) by (nonlinear_arith)
        requires
            -4097 <= c <= 4097,
            0 <= m <= 255,
    ;
    vstd::arithmetic::div_mod::lemma_mod_multiples_basic(c, m);
}

fn rate_bits_exec(level: i32, prev_zero: bool) -> (r: i128)
    requires
        -4097 <= level <= 4097,
    ensures
        r == rate_bits(level as int, prev_zero),
        0 <= r <= 2000,
{
    let m: i32 = if level < 0 {
        -level
    } else {
        level
    };
    let rice: i32 = m / 4 + 3;
    let bits: i32 = if level == 0 {
        if prev_zero {
            0
        } else {
            5
        }
    } else if prev_zero {
        4 + rice
    } else {
        2 + rice
    };
    bits as i128
}

fn price_exec(v: i32, q: u8, level: i32, prev_zero: bool) -> (r: i128)
    requires
        -4097 <= level <= 4097,
    ensures
        r == price(v, q as int, level as int, prev_zero),
        0 <= r <= 0x1000_0000_0000_0000_0000,
{
    proof {
        assert(-0x20_0000 <= level * q <= 0x20_0000) by (nonlinear_arith)
            requires
                -4097 <= level <= 4097,
                0 <= q <= 255,
        ;
    }
    let d: i128 = v as i128 - level as i128 * q as i128;
    proof {
        assert(0 <= d * d <= 0x1_0000_0000_0000_0000) by (nonlinear_arith)
            requires
                -0x1_0000_0000 <= d <= 0x1_0000_0000,
        ;
    }
    LAMBDA_NUM * (d * d) + LAMBDA_DEN * rate_bits_exec(level, prev_zero)
}

/// A way and its price.
struct Way {
    cost: i128,
    path: Vec<i32>,
}

spec fn ints(s: Seq<i32>) -> Seq<int> {
    Seq::new(s.len(), |i: int| s[i] as int)
}

spec fn track(w: Option<Way>) -> Track {
    match w {
        Some(w) => Some((w.cost as int, ints(w.path@))),
        None => None,
    }
}

spec fn bounded(w: Option<Way>, n: nat) -> bool {
    match w {
        Some(w) => 0 <= w.cost <= n * 0x1000_0000_0000_0000_0000,
        None => true,
    }
}

fn candidates_exec(n: i32) -> (c: Vec<i32>)
    requires
        -4096 <= n <= 4096,
    ensures
        ints(c@) == candidates(n as int),
        forall|i: int| 0 <= i < c@.len() ==> -4097 <= #[trigger] c@[i] <= 4097,
        c@.len() <= 4,
{
    let mut c: Vec<i32> = Vec::new();
    if n > 1 {
        c.push(0);
    }
    c.push(n - 1);
    c.push(n);
    c.push(n + 1);
    if n < -1 {
        c.push(0);
    }
    assert(ints(c@) =~= candidates(n as int));
    c
}

fn consider(cur: Option<Way>, from: &Option<Way>, v: i32, q: u8, level: i32, zero: bool) -> (r:
    Option<Way>)
    requires
        -4097 <= level <= 4097,
        exists|n: nat| n < 64 && bounded(*from, n),
    ensures
        ({
            match track(*from) {
                None => track(r) == track(cur),
                Some((c, path)) => track(r) == cheaper(
                    track(cur),
                    c + price(v, q as int, level as int, zero),
                    path.push(level as int),
                ),
            }
        }),
        forall|n: nat|
            #[trigger] bounded(*from, n) && bounded(cur, n + 1) ==> bounded(r, n + 1),
{
    match from {
        None => cur,
        Some(w) => {
            let p: i128 = price_exec(v, q, level, zero);
            let total: i128 = w.cost + p;
            let better: bool = match &cur {
                Some(c) => total < c.cost,
                None => true,
            };
            if better {
                let mut path: Vec<i32> = w.path.clone();
                assert(path@ =~= w.path@);
                path.push(level);
                assert(ints(path@) =~= ints(w.path@).push(level as int));
                Some(Way { cost: total, path })
            } else {
                cur
            }
        },
    }
}

/// Levels for the coefficients of a block, times the step of each place.
fn trellis_block(b: &Vec<i32>, qpos: &Vec<u8>) -> (out: Vec<i32>)
    requires
        b@.len() == qpos@.len(),
        b@.len() <= 64,
        forall|i: int| 0 <= i < qpos@.len() ==> #[trigger] qpos@[i] >= 1,
    ensures
        out@ == trellis(b@, qpos@),
        out@.len() == b@.len(),
{
    let n: usize = b.len();
    let mut t0: Option<Way> = None;
    let mut t1: Option<Way> = Some(Way { cost: 0, path: Vec::new() });
    assert(ints(Seq::<i32>::empty()) =~= Seq::<int>::empty());
    let mut p: usize = 0;
    while p < n
        invariant
            n == b@.len(),
            b@.len() == qpos@.len(),
            b@.len() <= 64,
            forall|i: int| 0 <= i < qpos@.len() ==> #[trigger] qpos@[i] >= 1,
            p <= n,
            (track(t0), track(t1)) == ways(b@, qpos@, p as nat),
            bounded(t0, p as nat),
            bounded(t1, p as nat),
        decreases n - p,
    {
        let v: i32 = b[p];
        let q: u8 = qpos[p];
        let l: i32 = quant_level_exec(v, q, 0);
        let nr: i32 = if l > MAX_LEVEL {
            MAX_LEVEL
        } else if l < -MAX_LEVEL {
            -MAX_LEVEL
        } else {
            l
        };
        let cs: Vec<i32> = candidates_exec(nr);
        let mut n0: Option<Way> = None;
        let mut n1: Option<Way> = None;
        let mut c: usize = 0;
        let ghost w = (track(t0), track(t1));
        assert(ints(cs@) == candidates(near(v, q as int)));
        while c < cs.len()
            invariant
                p < 64,
                q >= 1,
                c <= cs@.len(),
                cs@.len() <= 4,
                w == (track(t0), track(t1)),
                ints(cs@) == candidates(near(v, q as int)),
                forall|i: int| 0 <= i < cs@.len() ==> -4097 <= #[trigger] cs@[i] <= 4097,
                (track(n0), track(n1)) == relaxed(w, v, q as int, (2 * c) as nat),
                bounded(t0, p as nat),
                bounded(t1, p as nat),
                bounded(n0, (p + 1) as nat),
                bounded(n1, (p + 1) as nat),
            decreases cs@.len() - c,
        {
            let level: i32 = cs[c];
            proof {
                assert(ints(cs@)[c as int] == level);
                reveal_with_fuel(relaxed, 3);
                assert((2 * c + 1 - 1) / 2 == c && (2 * c + 2 - 1) / 2 == c);
                assert(bounded(t0, p as nat) && bounded(t1, p as nat));
            }
            if level == 0 {
                n1 = consider(n1, &t0, v, q, level, false);
                n1 = consider(n1, &t1, v, q, level, true);
            } else {
                n0 = consider(n0, &t0, v, q, level, false);
                n0 = consider(n0, &t1, v, q, level, true);
            }
            c = c + 1;
        }
        t0 = n0;
        t1 = n1;
        p = p + 1;
    }
    proof {
        lemma_ways(b@, qpos@, n as nat);
    }
    let ghost best = chosen(b@, qpos@);
    let path: Vec<i32> = match (t0, t1) {
        (Some(a), Some(z)) => {
            if a.cost <= z.cost {
                a.path
            } else {
                z.path
            }
        },
        (Some(a), None) => a.path,
        (None, Some(z)) => z.path,
        (None, None) => Vec::new(),
    };
    assert(ints(path@) == best);
    assert(best.len() == n);
    let mut out: Vec<i32> = Vec::new();
    let mut i: usize = 0;
    while i < n
        invariant
            n == b@.len(),
            b@.len() == qpos@.len(),
            forall|i: int| 0 <= i < qpos@.len() ==> #[trigger] qpos@[i] >= 1,
            i <= n,
            best == chosen(b@, qpos@),
            ints(path@) == best,
            best.len() == n,
            path@.len() == n,
            out@ == trellis(b@, qpos@).take(i as int),
        decreases n - i,
    {
        proof {
            law_trellis_multiple(b@, qpos@, i as int);
            assert(ints(path@)[i as int] == path@[i as int]);
        }
        out.push(path[i] * qpos[i] as i32);
        i = i + 1;
        assert(out@ =~= trellis(b@, qpos@).take(i as int));
    }
    assert(out@ =~= trellis(b@, qpos@));
    out
}

/// The step of each place of a block.
pub open spec fn steps(q: u8, table: Seq<u32>) -> Seq<u8> {
    Seq::new(table.len(), |j: int| dct::step_for(q, table[j], false) as u8)
}

/// Quantises a tile: a whole one by the search, another with the step `q`.
pub open spec fn trellis_of(b: Seq<i32>, whole: bool, q: u8, table: Seq<u32>) -> Seq<i32> {
    if whole {
        trellis(b, steps(q, table))
    } else {
        quant::quantized(b, quant::at_least_one(q))
    }
}

pub open spec fn trellis_tile(q: u8, table: Seq<u32>) -> spec_fn(Seq<i32>, bool) -> Seq<i32> {
    |b: Seq<i32>, whole: bool| trellis_of(b, whole, q, table)
}

spec fn is_trellis(r: Seq<i32>, b: Seq<i32>, whole: bool, q: u8, table: Seq<u32>) -> bool {
    r == trellis_of(b, whole, q, table)
}

/// The table that gives every place the plain step.
pub open spec fn flat_table(n: nat) -> Seq<u32> {
    Seq::new(n, |j: int| 64u32)
}

/// The coefficients of a plane after the search; without a table of weights, or with a step of one,
/// they are only rounded.
pub open spec fn trellis_plane(
    px: Seq<i32>,
    w: int,
    h: int,
    q: u8,
    qm: Option<Seq<u32>>,
    bw: int,
    bh: int,
) -> Seq<i32> {
    match qm {
        Some(table) if q > 1 => plane::mapped(
            px,
            plane::tiling(w, h, bw, bh),
            trellis_tile(q, table),
        ),
        _ => dct::matrix_quantized(px, w, h, q, flat_table((bw * bh) as nat), bw, bh, false),
    }
}

fn steps_exec(q: u8, table: &[u32]) -> (s: Vec<u8>)
    ensures
        s@ == steps(q, table@),
        forall|i: int| 0 <= i < s@.len() ==> #[trigger] s@[i] >= 1,
{
    let mut s: Vec<u8> = Vec::new();
    let mut j: usize = 0;
    while j < table.len()
        invariant
            j <= table@.len(),
            s@ == steps(q, table@).take(j as int),
            forall|i: int| 0 <= i < s@.len() ==> #[trigger] s@[i] >= 1,
        decreases table@.len() - j,
    {
        s.push(step_for_exec(q, table[j], false));
        j = j + 1;
        assert(s@ =~= steps(q, table@).take(j as int));
    }
    assert(s@ =~= steps(q, table@));
    s
}

fn flat_table_exec(n: usize) -> (t: Vec<u32>)
    ensures
        t@ == flat_table(n as nat),
{
    let mut t: Vec<u32> = Vec::new();
    let mut j: usize = 0;
    while j < n
        invariant
            j <= n,
            t@ == flat_table(j as nat),
        decreases n - j,
    {
        t.push(64);
        j = j + 1;
        assert(t@ =~= flat_table(j as nat));
    }
    t
}

/// Quantises the coefficients of a plane by the search.
pub fn trellis_quantize_coeffs(
    coeffs: &[i32],
    width: usize,
    height: usize,
    base_q: u8,
    qm: Option<&[u32]>,
    block_w: usize,
    block_h: usize,
) -> (out: Vec<i32>)
    requires
        coeffs@.len() == width * height,
        plane::valid_rect(block_w as int, block_h as int),
        qm is Some ==> qm->0@.len() == block_w * block_h,
    ensures
        out@ == trellis_plane(
            coeffs@,
            width as int,
            height as int,
            base_q,
            (match qm {
                Some(t) => Some(t@),
                None => None,
            }),
            block_w as int,
            block_h as int,
        ),
        out@.len() == coeffs@.len(),
{
    let n: usize = coeffs.len();
    if base_q > 1 {
        if let Some(table) = qm {
            let g = Grid { w: width, h: height, bw: block_w, bh: block_h };
            let ghost m = trellis_tile(base_q, table@);
            let st: Vec<u8> = steps_exec(base_q, table);
            let f = |b: &Vec<i32>, whole: bool| -> (r: Vec<i32>)
                requires
                    trellis_ready(b@, whole, st@),
                ensures
                    is_trellis(r@, b@, whole, base_q, table@),
                {
                    if whole {
                        trellis_block(b, &st)
                    } else {
                        quantize_residuals(b, base_q)
                    }
                };
            proof {
                assert forall|b: Seq<i32>, whole: bool| (whole ==> b.len() == g@.bw * g@.bh) implies (
                #[trigger] m(b, whole)).len() == b.len() by {}
            }
            return map_plane(coeffs, g, f, Ghost(m));
        }
    }
    let flat: Vec<u32> = flat_table_exec(block_w * block_h);
    quantize_coeffs_with_matrix(coeffs, width, height, base_q, &flat, block_w, block_h, false)
}

spec fn trellis_ready(b: Seq<i32>, whole: bool, st: Seq<u8>) -> bool {
    whole ==> b.len() == st.len() && b.len() <= 64 && forall|i: int|
        0 <= i < st.len() ==> #[trigger] st[i] >= 1
}

/// An image with each of its components transformed and quantised by the search.
pub open spec fn trellis_interleaved(
    px: Seq<i32>,
    w: int,
    h: int,
    c: int,
    q: u8,
    bw: int,
    bh: int,
    table: Seq<u32>,
) -> Seq<i32> {
    plane::interleaved(
        Seq::new(
            c as nat,
            |k: int|
                trellis_plane(
                    plane::plane_forward(plane::component(px, c, k), w, h, bw, bh),
                    w,
                    h,
                    q,
                    Some(table),
                    bw,
                    bh,
                ),
        ),
        (w * h) as nat,
    )
}

/// Transforms each component of an image and quantises it by the search.
pub fn trellis_quantize_interleaved(
    pixels: &[i32],
    width: usize,
    height: usize,
    components: usize,
    q_step: u8,
    block_w: usize,
    block_h: usize,
    qm_table: &[u32],
) -> (out: Vec<i32>)
    requires
        1 <= components <= 4,
        pixels@.len() == width * height * components,
        plane::valid_rect(block_w as int, block_h as int),
        qm_table@.len() == block_w * block_h,
    ensures
        out@ == trellis_interleaved(
            pixels@,
            width as int,
            height as int,
            components as int,
            q_step,
            block_w as int,
            block_h as int,
            qm_table@,
        ),
        out@.len() == pixels@.len(),
{
    let total: usize = pixels.len();
    proof {
        dct::lemma_pixels(width as int, height as int, components as int);
        plane::lemma_interleave(pixels@, components as int, (width * height) as nat);
    }
    let planes: Vec<Vec<i32>> = split_components(pixels, components);
    let n: usize = width * height;
    let ghost ps = plane::components(pixels@, components as int);
    let ghost all = Seq::new(
        components as nat,
        |k: int|
            trellis_plane(
                plane::plane_forward(
                    plane::component(pixels@, components as int, k),
                    width as int,
                    height as int,
                    block_w as int,
                    block_h as int,
                ),
                width as int,
                height as int,
                q_step,
                Some(qm_table@),
                block_w as int,
                block_h as int,
            ),
    );
    let mut done: Vec<Vec<i32>> = Vec::new();
    let mut k: usize = 0;
    assert(blocks::views(done@) =~= all.take(0));
    while k < components
        invariant
            k <= components,
            n == width * height,
            plane::valid_rect(block_w as int, block_h as int),
            qm_table@.len() == block_w * block_h,
            ps == plane::components(pixels@, components as int),
            ps == blocks::views(planes@),
            planes@.len() == components,
            pixels@.len() as int / components as int == n,
            all == Seq::new(
                components as nat,
                |k: int|
                    trellis_plane(
                        plane::plane_forward(
                            plane::component(pixels@, components as int, k),
                            width as int,
                            height as int,
                            block_w as int,
                            block_h as int,
                        ),
                        width as int,
                        height as int,
                        q_step,
                        Some(qm_table@),
                        block_w as int,
                        block_h as int,
                    ),
            ),
            blocks::views(done@) == all.take(k as int),
            forall|j: int| 0 <= j < done@.len() ==> (#[trigger] done@[j])@.len() == n,
        decreases components - k,
    {
        assert(planes@[k as int]@ == ps[k as int]);
        let c: Vec<i32> = dct_plane_forward_bs(&planes[k], width, height, block_w, block_h);
        let p: Vec<i32> = trellis_quantize_coeffs(
            &c,
            width,
            height,
            q_step,
            Some(qm_table),
            block_w,
            block_h,
        );
        let ghost before = blocks::views(done@);
        done.push(p);
        k = k + 1;
        assert(blocks::views(done@) =~= before.push(p@));
        assert(blocks::views(done@) =~= all.take(k as int));
    }
    assert(blocks::views(done@) =~= all);
    interleave(&done, n)
}

/// Choosing another level at place `i` changes the price there, and by five bits at most behind it.
proof fn lemma_exchange(b: Seq<i32>, q: Seq<u8>, p: Seq<int>, i: int, level: int, n: int)
    requires
        0 <= i < p.len(),
        0 <= n <= p.len(),
        p.len() <= b.len(),
        b.len() == q.len(),
    ensures
        ({
            let (s, t) = (p.take(n), p.update(i, level).take(n));
            let z = ends_zero(p.take(i));
            let (x, y) = (
                price(b[i], q[i] as int, p[i], z),
                price(b[i], q[i] as int, level, z),
            );
            let d = total_price(b, q, t) - total_price(b, q, s);
            &&& n <= i ==> s == t
            &&& n == i + 1 ==> d == y - x
            &&& n > i + 1 ==> d <= y - x + 500
            &&& n > i + 1 ==> ends_zero(s) == ends_zero(t)
        }),
    decreases n,
{
    let r = p.update(i, level);
    let (s, t) = (p.take(n), r.take(n));
    if n <= i {
        assert(s =~= t);
    } else {
        lemma_exchange(b, q, p, i, level, n - 1);
        assert(s.drop_last() =~= p.take(n - 1));
        assert(t.drop_last() =~= r.take(n - 1));
        assert(s.last() == p[n - 1] && t.last() == r[n - 1]);
        if n > i + 1 {
            let j = n - 1;
            let (u, v) = (ends_zero(p.take(j)), ends_zero(r.take(j)));
            assert(rate_bits(p[j], v) <= rate_bits(p[j], u) + 5);
            assert(price(b[j], q[j] as int, p[j], v) <= price(b[j], q[j] as int, p[j], u) + 500);
            if n > i + 2 {
                assert(u == v);
            }
        }
    }
}

/// The search does not give up a coefficient for a shorter code: what stands for it is within its step
/// and twelve of it, and of what it is beyond 4096 steps.
pub proof fn law_trellis_close(b: Seq<i32>, q: Seq<u8>, i: int, beyond: int)
    requires
        b.len() == q.len(),
        0 <= i < b.len(),
        q[i] >= 1,
        beyond >= 0,
        -(4096 * q[i] + beyond) <= b[i] <= 4096 * q[i] + beyond,
        -0x100_0000 <= b[i] <= 0x100_0000,
    ensures
        trellis(b, q).len() == b.len(),
        -(q[i] + 12 + beyond) <= trellis(b, q)[i] - b[i] <= q[i] + 12 + beyond,
{
    let c = chosen(b, q);
    let s = q[i] as int;
    let n = near(b[i], s);
    law_trellis_multiple(b, q, i);
    lemma_ways(b, q, b.len());
    let other = c.update(i, n);
    assert(candidates(n).contains(n)) by {
        let k = if n > 1 {
            2int
        } else {
            1
        };
        assert(candidates(n)[k] == n);
    }
    assert(admissible(b, q, other)) by {
        assert forall|j: int| 0 <= j < other.len() implies candidates(
            near(b[j], q[j] as int),
        ).contains(#[trigger] other[j]) by {
            if j != i {
                assert(other[j] == c[j]);
            }
        }
    }
    law_trellis_optimal(b, q, other);
    lemma_exchange(b, q, c, i, n, c.len() as int);
    assert(c.take(c.len() as int) =~= c);
    assert(other.take(c.len() as int) =~= other);
    let z = ends_zero(c.take(i));
    assert(price(b[i], s, c[i], z) <= price(b[i], s, n, z) + 500);
    quant::law_quant_error(b[i], s, 0, 0);
    let level = quant::quant_level(b[i], s, 0) as int;
    let (d, e) = (b[i] - c[i] * s, b[i] - n * s);
    lemma_near_close(b[i] as int, s, level, n, beyond);
    assert(rate_bits(n, z) <= 1031 && rate_bits(c[i], z) >= 0);
    assert(LAMBDA_NUM * (d * d) <= LAMBDA_NUM * (e * e) + 100 * 1031 + 500);
    assert(-(s + 12 + beyond) <= d <= s + 12 + beyond) by (nonlinear_arith)
        requires
            850 * (d * d) <= 850 * (e * e) + 103600,
            -(s + beyond) <= e <= s + beyond,
            s >= 0,
            beyond >= 0,
    ;
}

proof fn lemma_near_close(v: int, s: int, level: int, n: int, beyond: int)
    requires
        1 <= s <= 255,
        beyond >= 0,
        -(4096 * s + beyond) <= v <= 4096 * s + beyond,
        -(32 * s) <= 64 * (level * s - v) <= 32 * s,
        n == if level > 4096 {
            4096
        } else if level < -4096 {
            -4096
        } else {
            level
        },
    ensures
        -(s + beyond) <= v - n * s <= s + beyond,
{
    if level > 4096 {
        assert(level * s >= 4097 * s) by (nonlinear_arith)
            requires
                level >= 4097,
                s >= 1,
        ;
    } else if level < -4096 {
        assert(level * s <= -4097 * s) by (nonlinear_arith)
            requires
                level <= -4097,
                s >= 1,
        ;
    }
}

/// A level costs no less than one nearer to zero, whatever its sign; a zero behind a zero costs nothing,
/// and a first zero less than any level behind one.
pub proof fn law_rate(a: int, b: int, prev_zero: bool)
    requires
        0 <= a <= b,
    ensures
        rate_bits(a, true) <= rate_bits(b, true),
        a >= 1 ==> rate_bits(a, prev_zero) <= rate_bits(b, prev_zero),
        rate_bits(-b, prev_zero) == rate_bits(b, prev_zero),
        rate_bits(0, true) == 0,
        a >= 1 ==> 0 < rate_bits(0, false) < rate_bits(a, true),
        a >= 1 ==> rate_bits(a, false) < rate_bits(a, true),
        rate_bits(a, prev_zero) >= 0,
{
}

/// Of two levels that cost the same the one nearer to the coefficient is preferred, and of two equally
/// near ones the shorter.
pub proof fn law_price(v: i32, q: int, a: int, b: int, prev_zero: bool)
    requires
        rate_bits(a, prev_zero) <= rate_bits(b, prev_zero),
        -(v - b * q) <= v - a * q <= v - b * q || v - b * q <= v - a * q <= -(v - b * q),
    ensures
        price(v, q, a, prev_zero) <= price(v, q, b, prev_zero),
        rate_bits(a, prev_zero) < rate_bits(b, prev_zero) ==> price(v, q, a, prev_zero) < price(
            v,
            q,
            b,
            prev_zero,
        ),
{
    let (d, e) = (v - a * q, v - b * q);
    assert(d * d <= e * e) by (nonlinear_arith)
        requires
            -e <= d <= e || e <= d <= -e,
    ;
}

} // verus!

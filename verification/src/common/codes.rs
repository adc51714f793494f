//! The variable-length codes: zigzag mapping, Golomb-Rice, Exp-Golomb and zero-run codes.
//!
//! For each code there is the bit sequence that stands for a value, the value that a stream holds
//! at a position, and a proof that the second undoes the first.

use vstd::prelude::*;
use vstd::arithmetic::power2::*;
use crate::common::bits;

verus! {

/// The zigzag map: 0, -1, 1, -2, 2, ... become 0, 1, 2, 3, 4, ...
pub open spec fn zigzag(v: i32) -> nat {
    if v >= 0 {
        (2 * v) as nat
    } else {
        (-2 * v - 1) as nat
    }
}

/// The inverse of [`zigzag`].
pub open spec fn unzigzag(u: u32) -> i32 {
    if u % 2 == 0 {
        (u / 2) as i32
    } else {
        (-((u / 2) as int) - 1) as i32
    }
}

/// Maps a signed value to an unsigned one, small magnitudes first.
pub fn zigzag_encode(v: i32) -> (u: u32)
    ensures
        u == zigzag(v),
        unzigzag(u) == v,
{
    if v >= 0 {
        v as u32 * 2
    } else {
        (-(v + 1)) as u32 * 2 + 1
    }
}

/// Undoes [`zigzag_encode`].
pub fn zigzag_decode(u: u32) -> (v: i32)
    ensures
        v == unzigzag(u),
        zigzag(v) == u,
{
    let h: i32 = (u / 2) as i32;
    if u % 2 == 0 {
        h
    } else {
        -h - 1
    }
}

/// Zigzag mapping loses nothing.
pub proof fn lemma_zigzag_roundtrip(v: i32)
    ensures
        zigzag(v) <= u32::MAX,
        unzigzag(zigzag(v) as u32) == v,
{
}

/// Golomb-Rice code of `v`: the quotient by `2^k` in unary, then the remainder.
pub open spec fn golomb_code(v: nat, k: nat) -> Seq<bool> {
    bits::repeat_bit(true, v / pow2(k)).push(false) + bits::nat_bits(v % pow2(k), k)
}

/// Length in bits of the Golomb-Rice code of `v`.
pub open spec fn golomb_len(v: nat, k: nat) -> nat {
    v / pow2(k) + 1 + k
}

/// The Golomb-Rice coded value at `p`, as a 32-bit number, and the position behind it.
pub open spec fn golomb_at(s: Seq<bool>, p: nat, k: nat) -> (u32, nat) {
    let q = bits::ones_at(s, p);
    let p1 = bits::step(s, p, q + 1);
    let v = ((q % 0x1_0000_0000) * pow2(k) + bits::bits_val(s, p1, k)) % 0x1_0000_0000;
    (v as u32, bits::step(s, p1, k))
}

pub proof fn lemma_golomb_code_len(v: nat, k: nat)
    ensures
        golomb_code(v, k).len() == golomb_len(v, k),
{
    lemma_pow2_pos(k);
    bits::lemma_nat_bits_len(v % pow2(k), k);
}

/// A Golomb-Rice code in a stream reads back as the value it stands for.
pub proof fn lemma_golomb_roundtrip(s: Seq<bool>, p: nat, v: u32, k: nat)
    requires
        bits::holds_at(s, p, golomb_code(v as nat, k)),
    ensures
        golomb_at(s, p, k) == (v, p + golomb_len(v as nat, k)),
{
    let d = pow2(k);
    lemma_pow2_pos(k);
    let q = v as nat / d;
    let r = v as nat % d;
    let unary = bits::repeat_bit(true, q).push(false);
    bits::lemma_holds_split(s, p, unary, bits::nat_bits(r, k));
    bits::lemma_read_ones(s, p, q);
    bits::lemma_read_nat(s, p + q + 1, r, k);
    lemma_golomb_code_len(v as nat, k);
    vstd::arithmetic::div_mod::lemma_fundamental_div_mod(v as int, d as int);
    assert(q <= v) by (nonlinear_arith)
        requires
            v as nat == d * q + r,
            d >= 1,
            r >= 0,
    ;
    vstd::arithmetic::mul::lemma_mul_is_commutative(q as int, d as int);
}

/// Integer part of the binary logarithm.
pub open spec fn ilog2(n: nat) -> nat
    decreases n,
{
    if n <= 1 {
        0
    } else {
        1 + ilog2(n / 2)
    }
}

pub proof fn lemma_ilog2(n: nat)
    requires
        n >= 1,
    ensures
        pow2(ilog2(n)) <= n < pow2(ilog2(n) + 1),
    decreases n,
{
    lemma2_to64();
    if n > 1 {
        lemma_ilog2(n / 2);
        lemma_pow2_unfold(ilog2(n));
        lemma_pow2_unfold(ilog2(n) + 1);
    }
}

pub proof fn lemma_ilog2_unique(n: nat, m: nat)
    requires
        pow2(m) <= n < pow2(m + 1),
    ensures
        ilog2(n) == m,
    decreases n,
{
    lemma2_to64();
    lemma_pow2_unfold(m + 1);
    if n <= 1 {
        lemma_pow2_pos(m);
        if m > 0 {
            lemma_pow2_strictly_increases(0, m);
        }
    } else {
        if m == 0 {
        } else {
            lemma_pow2_unfold(m);
            lemma_ilog2_unique(n / 2, (m - 1) as nat);
        }
    }
}

/// Exp-Golomb code of `v`: the binary form of `v + 1` behind as many zeros as it has digits, less one.
pub open spec fn exp_code(v: nat) -> Seq<bool> {
    bits::nat_bits(v + 1, 2 * ilog2(v + 1) + 1)
}

/// Length in bits of the Exp-Golomb code of `v`.
pub open spec fn exp_len(v: nat) -> nat {
    2 * ilog2(v + 1) + 1
}

/// The Exp-Golomb coded value at `p` and the position behind it. A code with `cap` leading zeros
/// or more reads as 0.
pub open spec fn exp_at(s: Seq<bool>, p: nat, cap: nat) -> (nat, nat) {
    let z = bits::zeros_at(s, p, cap);
    if z >= cap {
        (0, bits::step(s, p, cap))
    } else {
        let p1 = bits::step(s, p, z + 1);
        ((pow2(z) + bits::bits_val(s, p1, z) - 1) as nat, bits::step(s, p1, z))
    }
}

pub proof fn lemma_exp_code_len(v: nat)
    ensures
        exp_code(v).len() == exp_len(v),
{
    bits::lemma_nat_bits_len(v + 1, exp_len(v));
}

/// No Exp-Golomb code of a number of 32 bits is longer than 65 bits.
pub proof fn lemma_exp_bits_len(vals: Seq<u32>)
    ensures
        exp_bits(vals).len() <= 65 * vals.len(),
    decreases vals.len(),
{
    if vals.len() > 0 {
        lemma_exp_bits_len(vals.drop_last());
        lemma_exp_code_len(vals.last() as nat);
        lemma2_to64();
        lemma_pow2_unfold(33);
        lemma_ilog2_below(vals.last() as nat + 1, 33);
    }
}

/// An Exp-Golomb code in a stream reads back as the value it stands for.
pub proof fn lemma_exp_roundtrip(s: Seq<bool>, p: nat, v: nat, cap: nat)
    requires
        ilog2(v + 1) < cap,
        bits::holds_at(s, p, exp_code(v)),
    ensures
        exp_at(s, p, cap) == (v, p + exp_len(v)),
{
    let m = ilog2(v + 1);
    lemma_ilog2(v + 1);
    lemma_pow2_unfold(m + 1);
    lemma2_to64();
    let r = (v + 1 - pow2(m)) as nat;
    bits::lemma_nat_bits_split(1, r, m + 1, m);
    bits::lemma_nat_bits_split(0, 1, m, 1);
    assert(1 * pow2(m) + r == v + 1);
    assert(0 * pow2(1) + 1 == 1);
    assert(m + 1 + m == exp_len(v));
    bits::lemma_nat_bits_zero(m);
    assert(bits::nat_bits(1, 1) =~= seq![true]) by {
        assert(bits::nat_bits(0, 0) =~= Seq::<bool>::empty());
    }
    let pre = bits::repeat_bit(false, m) + seq![true];
    assert(exp_code(v) == pre + bits::nat_bits(r, m));
    bits::lemma_holds_split(s, p, pre, bits::nat_bits(r, m));
    let sub = s.subrange(p as int, (p + pre.len()) as int);
    assert forall|i: int| p <= i < p + m implies !s[i] by {
        assert(sub[i - p] == pre[i - p]);
    }
    assert(s[(p + m) as int]) by {
        assert(sub[m as int] == pre[m as int]);
    }
    bits::lemma_read_zeros(s, p, m, cap);
    bits::lemma_read_nat(s, p + m + 1, r, m);
    bits::lemma_nat_bits_len(r, m);
}

/// The zigzag images of `vals`.
pub open spec fn zigzags(vals: Seq<i32>) -> Seq<u32> {
    Seq::new(vals.len(), |i: int| zigzag(vals[i]) as u32)
}

/// The Golomb-Rice codes of `vals`, one behind the other.
pub open spec fn golomb_bits(vals: Seq<u32>, k: nat) -> Seq<bool>
    decreases vals.len(),
{
    if vals.len() == 0 {
        Seq::empty()
    } else {
        golomb_bits(vals.drop_last(), k) + golomb_code(vals.last() as nat, k)
    }
}

/// The `n` Golomb-Rice coded values from `p` on and the position behind them.
pub open spec fn golombs_at(s: Seq<bool>, p: nat, k: nat, n: nat) -> (Seq<u32>, nat)
    decreases n,
{
    if n == 0 {
        (Seq::empty(), p)
    } else {
        let (vals, p1) = golombs_at(s, p, k, (n - 1) as nat);
        let (v, p2) = golomb_at(s, p1, k);
        (vals.push(v), p2)
    }
}

/// Exp-Golomb codes of `vals`, one behind the other.
pub open spec fn exp_bits(vals: Seq<u32>) -> Seq<bool>
    decreases vals.len(),
{
    if vals.len() == 0 {
        Seq::empty()
    } else {
        exp_bits(vals.drop_last()) + exp_code(vals.last() as nat)
    }
}

/// The `n` Exp-Golomb coded values from `p` on and the position behind them.
pub open spec fn exps_at(s: Seq<bool>, p: nat, cap: nat, n: nat) -> (Seq<u32>, nat)
    decreases n,
{
    if n == 0 {
        (Seq::empty(), p)
    } else {
        let (vals, p1) = exps_at(s, p, cap, (n - 1) as nat);
        let (v, p2) = exp_at(s, p1, cap);
        (vals.push(v as u32), p2)
    }
}

/// The values that zigzag images stand for.
pub open spec fn unzigzags(vals: Seq<u32>) -> Seq<i32> {
    Seq::new(vals.len(), |i: int| unzigzag(vals[i]))
}

pub proof fn lemma_unzigzags(vals: Seq<i32>)
    ensures
        unzigzags(zigzags(vals)) == vals,
{
    assert(unzigzags(zigzags(vals)) =~= vals);
}

/// Golomb-Rice coding loses nothing.
pub proof fn lemma_golombs_roundtrip(s: Seq<bool>, p: nat, vals: Seq<u32>, k: nat)
    requires
        holds_at_golombs(s, p, vals, k),
    ensures
        golombs_at(s, p, k, vals.len()) == (vals, p + golomb_bits(vals, k).len()),
    decreases vals.len(),
{
    if vals.len() > 0 {
        let init = vals.drop_last();
        let c = golomb_code(vals.last() as nat, k);
        bits::lemma_holds_split(s, p, golomb_bits(init, k), c);
        lemma_golombs_roundtrip(s, p, init, k);
        lemma_golomb_roundtrip(s, p + golomb_bits(init, k).len(), vals.last(), k);
        lemma_golomb_code_len(vals.last() as nat, k);
        assert(init.push(vals.last()) =~= vals);
    } else {
        assert(vals =~= Seq::<u32>::empty());
    }
}

/// The codes of `vals` stand in `s` at `p`.
pub open spec fn holds_at_golombs(s: Seq<bool>, p: nat, vals: Seq<u32>, k: nat) -> bool {
    bits::holds_at(s, p, golomb_bits(vals, k))
}

/// As many values are read as asked for.
pub proof fn lemma_exps_len(s: Seq<bool>, p: nat, cap: nat, n: nat)
    ensures
        exps_at(s, p, cap, n).0.len() == n,
    decreases n,
{
    if n > 0 {
        lemma_exps_len(s, p, cap, (n - 1) as nat);
    }
}

/// Exp-Golomb coding loses nothing, as long as no code has `cap` leading zeros.
pub proof fn lemma_exps_roundtrip(s: Seq<bool>, p: nat, vals: Seq<u32>, cap: nat)
    requires
        forall|i: int| 0 <= i < vals.len() ==> ilog2(#[trigger] vals[i] as nat + 1) < cap,
        bits::holds_at(s, p, exp_bits(vals)),
    ensures
        exps_at(s, p, cap, vals.len()) == (vals, p + exp_bits(vals).len()),
    decreases vals.len(),
{
    if vals.len() > 0 {
        let init = vals.drop_last();
        let c = exp_code(vals.last() as nat);
        bits::lemma_holds_split(s, p, exp_bits(init), c);
        assert forall|i: int| 0 <= i < init.len() implies ilog2(#[trigger] init[i] as nat + 1)
            < cap by {
            assert(init[i] == vals[i]);
        }
        lemma_exps_roundtrip(s, p, init, cap);
        lemma_exp_roundtrip(s, p + exp_bits(init).len(), vals.last() as nat, cap);
        lemma_exp_code_len(vals.last() as nat);
        assert(init.push(vals.last()) =~= vals);
    } else {
        assert(vals =~= Seq::<u32>::empty());
    }
}

/// Values below `2^c - 1` have an Exp-Golomb code with fewer than `c` leading zeros.
pub proof fn lemma_ilog2_below(n: nat, c: nat)
    requires
        1 <= n < pow2(c),
    ensures
        ilog2(n) < c,
{
    lemma_ilog2(n);
    if ilog2(n) >= c {
        if ilog2(n) > c {
            lemma_pow2_strictly_increases(c, ilog2(n));
        }
    }
}

/// How many zeros stand in a row in `vals` from `i` on.
pub open spec fn zero_run(vals: Seq<i32>, i: nat) -> nat
    decreases vals.len() - i,
{
    if i < vals.len() && vals[i as int] == 0 {
        1 + zero_run(vals, i + 1)
    } else {
        0
    }
}

/// The zero-run code of `vals` from `i` on: a one and the Exp-Golomb code of its length for each
/// run of zeros, a zero and the Golomb-Rice code of its zigzag image for each other value.
pub open spec fn rle_bits(vals: Seq<i32>, i: nat, k: nat) -> Seq<bool>
    decreases vals.len() - i,
{
    if i >= vals.len() {
        Seq::empty()
    } else if vals[i as int] == 0 {
        let run = zero_run(vals, i);
        if run == 0 || i + run > vals.len() {
            Seq::empty()
        } else {
            seq![true] + exp_code(run) + rle_bits(vals, i + run, k)
        }
    } else {
        seq![false] + golomb_code(zigzag(vals[i as int]), k) + rle_bits(vals, i + 1, k)
    }
}

/// The `n` values that a zero-run code at `p` stands for, and the position behind it.
pub open spec fn rle_at(s: Seq<bool>, p: nat, k: nat, n: nat) -> (Seq<i32>, nat)
    decreases n, s.len() - p,
{
    if n == 0 {
        (Seq::empty(), p)
    } else if bits::bit_at(s, p) {
        let (run, p1) = exp_at(s, p + 1, 32);
        let m = if run < n {
            run
        } else {
            n
        };
        let (rest, p2) = rle_at(s, p1, k, (n - m) as nat);
        (Seq::new(m, |i: int| 0i32) + rest, p2)
    } else {
        let (u, p1) = golomb_at(s, bits::step(s, p, 1), k);
        let (rest, p2) = rle_at(s, p1, k, (n - 1) as nat);
        (seq![unzigzag(u)] + rest, p2)
    }
}

pub proof fn lemma_zero_run(vals: Seq<i32>, i: nat)
    ensures
        i <= vals.len() ==> i + zero_run(vals, i) <= vals.len(),
        forall|j: int| i <= j < i + zero_run(vals, i) ==> #[trigger] vals[j] == 0,
        i + zero_run(vals, i) < vals.len() ==> vals[(i + zero_run(vals, i)) as int] != 0,
        i < vals.len() && vals[i as int] == 0 ==> zero_run(vals, i) >= 1,
    decreases vals.len() - i,
{
    if i < vals.len() && vals[i as int] == 0 {
        lemma_zero_run(vals, i + 1);
    }
}

/// Zero-run coding loses nothing.
pub proof fn lemma_rle_roundtrip(s: Seq<bool>, p: nat, vals: Seq<i32>, i: nat, k: nat)
    requires
        i <= vals.len() < u32::MAX,
        bits::holds_at(s, p, rle_bits(vals, i, k)),
    ensures
        rle_at(s, p, k, (vals.len() - i) as nat) == (
            vals.skip(i as int),
            p + rle_bits(vals, i, k).len(),
        ),
    decreases vals.len() - i,
{
    let n = (vals.len() - i) as nat;
    if n == 0 {
        assert(vals.skip(i as int) =~= Seq::<i32>::empty());
    } else if vals[i as int] == 0 {
        lemma_zero_run(vals, i);
        let run = zero_run(vals, i);
        let c = exp_code(run);
        let rest = rle_bits(vals, i + run, k);
        bits::lemma_holds_split(s, p, seq![true] + c, rest);
        bits::lemma_holds_split(s, p, seq![true], c);
        assert(s.subrange(p as int, (p + 1) as int)[0] == s[p as int]);
        lemma2_to64();
        lemma_ilog2_below(run + 1, 32);
        lemma_exp_roundtrip(s, p + 1, run, 32);
        lemma_exp_code_len(run);
        lemma_rle_roundtrip(s, p + 1 + c.len(), vals, i + run, k);
        assert(rle_at(s, p, k, n).0 =~= vals.skip(i as int));
    } else {
        let u = zigzag(vals[i as int]);
        let c = golomb_code(u, k);
        let rest = rle_bits(vals, i + 1, k);
        bits::lemma_holds_split(s, p, seq![false] + c, rest);
        bits::lemma_holds_split(s, p, seq![false], c);
        assert(s.subrange(p as int, (p + 1) as int)[0] == s[p as int]);
        lemma_zigzag_roundtrip(vals[i as int]);
        lemma_golomb_roundtrip(s, p + 1, u as u32, k);
        lemma_golomb_code_len(u, k);
        lemma_rle_roundtrip(s, p + 1 + c.len(), vals, i + 1, k);
        assert(rle_at(s, p, k, n).0 =~= vals.skip(i as int));
    }
}

/// Values nearer to zero have smaller numbers, and no two the same.
pub proof fn law_zigzag(u: i32, v: i32)
    ensures
        -v < u < v || v < u < -v ==> zigzag(u) < zigzag(v),
        u != v ==> zigzag(u) != zigzag(v),
        zigzag(0) == 0,
        zigzag(v) <= u32::MAX,
{
}

/// A run of zeros costs two bits for each binary digit of its length, and no more however long it is.
pub proof fn law_zeros_short(vals: Seq<i32>, k: nat)
    requires
        vals.len() >= 1,
        forall|i: int| 0 <= i < vals.len() ==> #[trigger] vals[i] == 0,
    ensures
        rle_bits(vals, 0, k).len() == 2 * ilog2(vals.len() + 1) + 2,
{
    lemma_all_zeros(vals, 0);
    lemma_exp_code_len(vals.len());
    reveal_with_fuel(rle_bits, 2);
    assert(rle_bits(vals, vals.len(), k).len() == 0);
}

proof fn lemma_all_zeros(vals: Seq<i32>, i: nat)
    requires
        i <= vals.len(),
        forall|j: int| 0 <= j < vals.len() ==> #[trigger] vals[j] == 0,
    ensures
        zero_run(vals, i) == vals.len() - i,
    decreases vals.len() - i,
{
    if i < vals.len() {
        lemma_all_zeros(vals, i + 1);
    }
}

} // verus!

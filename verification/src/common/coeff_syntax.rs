//! How the coefficients of a block are spelled as binary decisions, and how they are read back.

use vstd::prelude::*;
use crate::common::cabac_syntax as syn;
use crate::common::cabac_syntax::{Dec, MAX_QUOTIENT};
use crate::common::range_coder as rc;
use crate::common::range_coder::Op;

verus! {

/// Coefficients in a block.
pub const COEFFS: usize = 64;

/// The context of whether a block has any coefficient other than zero.
pub const CTX_NONZERO: usize = 0;

/// The context of the lengths of runs.
pub const CTX_RUN: usize = 1;

/// The context of magnitudes.
pub const CTX_LEVEL: usize = 2;

/// Number of contexts.
pub const N_COEFF_CTX: usize = 3;

/// A run length of this many has no end mark.
pub const MAX_RUN: usize = 63;

/// The last place before `n` that holds something other than zero.
pub open spec fn last_nonzero(z: Seq<i32>, n: nat) -> Option<nat>
    decreases n,
{
    if n == 0 {
        None
    } else if z[n - 1] != 0 {
        Some((n - 1) as nat)
    } else {
        last_nonzero(z, (n - 1) as nat)
    }
}

pub proof fn lemma_last_nonzero(z: Seq<i32>, n: nat)
    requires
        n <= z.len(),
    ensures
        match last_nonzero(z, n) {
            Some(i) => i < n && z[i as int] != 0 && forall|j: int|
                i < j < n ==> #[trigger] z[j] == 0,
            None => forall|j: int| 0 <= j < n ==> #[trigger] z[j] == 0,
        },
    decreases n,
{
    if n > 0 && z[n - 1] == 0 {
        lemma_last_nonzero(z, (n - 1) as nat);
    }
}

/// The decisions for a run of `r` places.
pub open spec fn unary_ops(r: nat) -> Seq<Op> {
    let ones = Seq::new(r, |j: int| syn::ctx_op(CTX_RUN as nat, true));
    if r < MAX_RUN {
        ones.push(syn::ctx_op(CTX_RUN as nat, false))
    } else {
        ones
    }
}

/// The decisions for a coefficient.
pub open spec fn level_ops(v: i32) -> Seq<Op> {
    Seq::new(syn::mag(v), |j: int| syn::ctx_op(CTX_LEVEL as nat, true)).push(
        syn::ctx_op(CTX_LEVEL as nat, false),
    ).push(Op { ctx: None, bit: v < 0 })
}

/// The decisions for the coefficients before `prev`, from the last to the first.
pub open spec fn pairs_ops(z: Seq<i32>, prev: nat) -> Seq<Op>
    decreases prev,
{
    match last_nonzero(z, prev) {
        None => {
            if prev == 0 {
                Seq::empty()
            } else if prev < MAX_RUN {
                unary_ops(prev)
            } else {
                unary_ops(MAX_RUN as nat)
            }
        },
        Some(i) => {
            if i < prev {
                unary_ops((prev - i - 1) as nat) + level_ops(z[i as int]) + pairs_ops(z, i)
            } else {
                Seq::empty()
            }
        },
    }
}

/// The decisions for a block.
pub open spec fn block_ops(z: Seq<i32>) -> Seq<Op> {
    match last_nonzero(z, COEFFS as nat) {
        None => seq![syn::ctx_op(CTX_NONZERO as nat, false)],
        Some(i) => seq![syn::ctx_op(CTX_NONZERO as nat, true)] + pairs_ops(z, COEFFS as nat),
    }
}

/// The decisions for blocks.
pub open spec fn blocks_ops(zs: Seq<Seq<i32>>) -> Seq<Op>
    decreases zs.len(),
{
    if zs.len() == 0 {
        Seq::empty()
    } else {
        blocks_ops(zs.drop_last()) + block_ops(zs.last())
    }
}

/// The bytes of coded blocks.
pub open spec fn coeff_bytes(zs: Seq<Seq<i32>>) -> Seq<u8> {
    rc::rc_bytes(blocks_ops(zs), syn::init_probs(N_COEFF_CTX as nat))
}

/// Reads the rest of a run, of which `r` places are counted already.
pub open spec fn get_unary(s: Dec, data: Seq<u8>, r: nat) -> (nat, Dec)
    decreases MAX_RUN - r,
{
    if r >= MAX_RUN {
        (r, s)
    } else {
        let (b, s1) = syn::get_ctx(s, data, CTX_RUN as nat);
        if b {
            get_unary(s1, data, r + 1)
        } else {
            (r, s1)
        }
    }
}

/// Reads the rest of a magnitude, of which `m` is counted already; gives up above
/// [`MAX_QUOTIENT`].
pub open spec fn get_level(s: Dec, data: Seq<u8>, m: nat) -> (nat, Dec)
    decreases MAX_QUOTIENT + 1 - m,
{
    let (b, s1) = syn::get_ctx(s, data, CTX_LEVEL as nat);
    if !b {
        (m, s1)
    } else if m >= MAX_QUOTIENT {
        (m + 1, s1)
    } else {
        get_level(s1, data, m + 1)
    }
}

pub open spec fn signed(m: nat, neg: bool) -> i32 {
    if neg {
        (-(m as int)) as i32
    } else {
        m as i32
    }
}

/// Reads the coefficients before `prev` into `z`.
pub open spec fn pairs_at(s: Dec, data: Seq<u8>, prev: nat, z: Seq<i32>) -> (Seq<i32>, Dec)
    decreases prev,
{
    if prev == 0 {
        (z, s)
    } else {
        let (r, s1) = get_unary(s, data, 0);
        if r >= prev {
            (z, s1)
        } else {
            let i = (prev - 1 - r) as nat;
            let (m, s2) = get_level(s1, data, 0);
            let (neg, s3) = syn::get_even(s2, data);
            pairs_at(s3, data, i, z.update(i as int, signed(m, neg)))
        }
    }
}

/// Reads a block.
pub open spec fn block_at(s: Dec, data: Seq<u8>) -> (Seq<i32>, Dec) {
    let (b, s1) = syn::get_ctx(s, data, CTX_NONZERO as nat);
    if b {
        pairs_at(s1, data, COEFFS as nat, syn::zeros(COEFFS as nat))
    } else {
        (syn::zeros(COEFFS as nat), s1)
    }
}

/// The state of a decoder before the first block.
pub open spec fn start(data: Seq<u8>) -> Dec {
    Dec { d: rc::dec_init(data), pr: syn::init_probs(N_COEFF_CTX as nat) }
}

proof fn lemma_unary(s: Dec, ops: Seq<Op>, probs: Seq<u16>, i: nat, r0: nat, r: nat)
    requires
        syn::at_op(s, ops, probs, i),
        r0 <= r <= MAX_RUN,
        syn::ops_at(ops, i, unary_ops(r).skip(r0 as int)),
    ensures
        ({
            let (x, s1) = get_unary(s, rc::rc_bytes(ops, probs), r0);
            x == r && syn::at_op(s1, ops, probs, (i + unary_ops(r).len() - r0) as nat)
        }),
    decreases r - r0,
{
    if r0 < MAX_RUN {
        let all = unary_ops(r);
        let first = syn::ctx_op(CTX_RUN as nat, r0 < r);
        assert(all.skip(r0 as int) =~= seq![first] + all.skip((r0 + 1) as int));
        syn::lemma_ops_split(ops, i, seq![first], all.skip((r0 + 1) as int));
        syn::lemma_get_ctx(s, ops, probs, i, CTX_RUN as nat, r0 < r);
        if r0 < r {
            let s1 = syn::get_ctx(s, rc::rc_bytes(ops, probs), CTX_RUN as nat).1;
            lemma_unary(s1, ops, probs, i + 1, r0 + 1, r);
        }
    }
}

proof fn lemma_magnitude(s: Dec, ops: Seq<Op>, probs: Seq<u16>, i: nat, m0: nat, v: i32)
    requires
        syn::at_op(s, ops, probs, i),
        m0 <= syn::mag(v) <= MAX_QUOTIENT,
        syn::ops_at(ops, i, level_ops(v).skip(m0 as int)),
    ensures
        ({
            let (x, s1) = get_level(s, rc::rc_bytes(ops, probs), m0);
            x == syn::mag(v) && syn::at_op(s1, ops, probs, (i + syn::mag(v) + 1 - m0) as nat)
        }),
    decreases syn::mag(v) - m0,
{
    let all = level_ops(v);
    let first = syn::ctx_op(CTX_LEVEL as nat, m0 < syn::mag(v));
    assert(all.skip(m0 as int) =~= seq![first] + all.skip((m0 + 1) as int));
    syn::lemma_ops_split(ops, i, seq![first], all.skip((m0 + 1) as int));
    syn::lemma_get_ctx(s, ops, probs, i, CTX_LEVEL as nat, m0 < syn::mag(v));
    if m0 < syn::mag(v) {
        let s1 = syn::get_ctx(s, rc::rc_bytes(ops, probs), CTX_LEVEL as nat).1;
        lemma_magnitude(s1, ops, probs, i + 1, m0 + 1, v);
    }
}

proof fn lemma_level(s: Dec, ops: Seq<Op>, probs: Seq<u16>, i: nat, v: i32)
    requires
        syn::at_op(s, ops, probs, i),
        syn::mag(v) <= MAX_QUOTIENT,
        syn::ops_at(ops, i, level_ops(v)),
    ensures
        ({
            let data = rc::rc_bytes(ops, probs);
            let (m, s1) = get_level(s, data, 0);
            let (neg, s2) = syn::get_even(s1, data);
            signed(m, neg) == v && syn::at_op(s2, ops, probs, i + level_ops(v).len())
        }),
{
    let data = rc::rc_bytes(ops, probs);
    let all = level_ops(v);
    assert(all.skip(0) =~= all);
    lemma_magnitude(s, ops, probs, i, 0, v);
    let s1 = get_level(s, data, 0).1;
    let j = (i + syn::mag(v) + 1) as nat;
    assert(all[all.len() - 1] == (Op { ctx: None, bit: v < 0 }));
    assert(ops.subrange(i as int, (i + all.len()) as int)[all.len() - 1] == ops[j as int]);
    rc::lemma_tracks_step(s1.d, s1.pr, ops, probs, j);
}

proof fn lemma_pairs(
    s: Dec,
    ops: Seq<Op>,
    probs: Seq<u16>,
    i: nat,
    z: Seq<i32>,
    c: Seq<i32>,
    prev: nat,
)
    requires
        syn::at_op(s, ops, probs, i),
        z.len() == COEFFS,
        c.len() == COEFFS,
        prev <= COEFFS,
        prev == COEFFS ==> last_nonzero(z, prev) is Some,
        forall|j: int| 0 <= j < prev ==> #[trigger] c[j] == 0,
        forall|j: int| prev <= j < COEFFS ==> #[trigger] c[j] == z[j],
        forall|j: int| 0 <= j < COEFFS ==> syn::mag(#[trigger] z[j]) <= MAX_QUOTIENT,
        syn::ops_at(ops, i, pairs_ops(z, prev)),
    ensures
        ({
            let (x, s1) = pairs_at(s, rc::rc_bytes(ops, probs), prev, c);
            x == z && syn::at_op(s1, ops, probs, i + pairs_ops(z, prev).len())
        }),
    decreases prev,
{
    let data = rc::rc_bytes(ops, probs);
    lemma_last_nonzero(z, prev);
    match last_nonzero(z, prev) {
        None => {
            assert(c =~= z);
            if prev > 0 {
                assert(unary_ops(prev).skip(0) =~= unary_ops(prev));
                lemma_unary(s, ops, probs, i, 0, prev);
            }
        },
        Some(k) => {
            let r = (prev - k - 1) as nat;
            let a = unary_ops(r);
            let b = level_ops(z[k as int]);
            let rest = pairs_ops(z, k);
            syn::lemma_ops_split(ops, i, a + b, rest);
            syn::lemma_ops_split(ops, i, a, b);
            assert(a.skip(0) =~= a);
            lemma_unary(s, ops, probs, i, 0, r);
            let s1 = get_unary(s, data, 0).1;
            assert(syn::mag(z[k as int]) <= MAX_QUOTIENT);
            lemma_level(s1, ops, probs, i + a.len(), z[k as int]);
            let s2 = get_level(s1, data, 0).1;
            let s3 = syn::get_even(s2, data).1;
            let c1 = c.update(k as int, z[k as int]);
            lemma_pairs(s3, ops, probs, i + a.len() + b.len(), z, c1, k);
        },
    }
}

/// A coded block reads back.
pub proof fn lemma_block(s: Dec, ops: Seq<Op>, probs: Seq<u16>, i: nat, z: Seq<i32>)
    requires
        syn::at_op(s, ops, probs, i),
        z.len() == COEFFS,
        forall|j: int| 0 <= j < COEFFS ==> syn::mag(#[trigger] z[j]) <= MAX_QUOTIENT,
        syn::ops_at(ops, i, block_ops(z)),
    ensures
        ({
            let (x, s1) = block_at(s, rc::rc_bytes(ops, probs));
            x == z && syn::at_op(s1, ops, probs, i + block_ops(z).len())
        }),
{
    let data = rc::rc_bytes(ops, probs);
    lemma_last_nonzero(z, COEFFS as nat);
    let some = last_nonzero(z, COEFFS as nat) is Some;
    let head = seq![syn::ctx_op(CTX_NONZERO as nat, some)];
    if some {
        syn::lemma_ops_split(ops, i, head, pairs_ops(z, COEFFS as nat));
        syn::lemma_get_ctx(s, ops, probs, i, CTX_NONZERO as nat, some);
        let s1 = syn::get_ctx(s, data, CTX_NONZERO as nat).1;
        lemma_pairs(s1, ops, probs, i + 1, z, syn::zeros(COEFFS as nat), COEFFS as nat);
    } else {
        syn::lemma_get_ctx(s, ops, probs, i, CTX_NONZERO as nat, some);
        assert(syn::zeros(COEFFS as nat) =~= z);
    }
}

pub proof fn lemma_block_ops_valid(z: Seq<i32>)
    requires
        z.len() == COEFFS,
    ensures
        rc::valid_ops(block_ops(z), N_COEFF_CTX as nat),
{
    lemma_pairs_ops_valid(z, COEFFS as nat);
}

proof fn lemma_pairs_ops_valid(z: Seq<i32>, prev: nat)
    requires
        prev <= z.len(),
    ensures
        rc::valid_ops(pairs_ops(z, prev), N_COEFF_CTX as nat),
    decreases prev,
{
    lemma_last_nonzero(z, prev);
    match last_nonzero(z, prev) {
        None => {},
        Some(k) => {
            lemma_pairs_ops_valid(z, k);
        },
    }
}

pub proof fn lemma_blocks_ops_valid(zs: Seq<Seq<i32>>)
    requires
        forall|t: int| 0 <= t < zs.len() ==> (#[trigger] zs[t]).len() == COEFFS,
    ensures
        rc::valid_ops(blocks_ops(zs), N_COEFF_CTX as nat),
    decreases zs.len(),
{
    if zs.len() > 0 {
        let init = zs.drop_last();
        assert forall|t: int| 0 <= t < init.len() implies (#[trigger] init[t]).len() == COEFFS by {
            assert(init[t] == zs[t]);
        }
        lemma_blocks_ops_valid(init);
        assert(zs.last() == zs[zs.len() - 1]);
        lemma_block_ops_valid(zs.last());
    }
}

/// The state of a decoder behind the first `n` blocks.
pub open spec fn blocks_at(data: Seq<u8>, n: nat) -> (Seq<Seq<i32>>, Dec)
    decreases n,
{
    if n == 0 {
        (Seq::empty(), start(data))
    } else {
        let (zs, s) = blocks_at(data, (n - 1) as nat);
        let (z, s1) = block_at(s, data);
        (zs.push(z), s1)
    }
}

/// Coefficients of ordinary magnitude.
pub open spec fn coeffs_ok(zs: Seq<Seq<i32>>) -> bool {
    forall|t: int|
        0 <= t < zs.len() ==> (#[trigger] zs[t]).len() == COEFFS && forall|j: int|
            0 <= j < COEFFS ==> syn::mag(#[trigger] zs[t][j]) <= MAX_QUOTIENT
}

proof fn lemma_blocks_prefix(zs: Seq<Seq<i32>>, n: nat)
    requires
        n <= zs.len(),
    ensures
        syn::ops_at(blocks_ops(zs), 0, blocks_ops(zs.take(n as int))),
    decreases zs.len(),
{
    let part = blocks_ops(zs.take(n as int));
    if n == zs.len() {
        assert(zs.take(n as int) =~= zs);
        assert(part.subrange(0, part.len() as int) =~= part);
    } else {
        let init = zs.drop_last();
        lemma_blocks_prefix(init, n);
        assert(init.take(n as int) =~= zs.take(n as int));
        let a = blocks_ops(init);
        assert(blocks_ops(zs).subrange(0, part.len() as int) =~= a.subrange(0, part.len() as int));
    }
}

/// Coding the coefficients of blocks loses nothing.
pub proof fn law_coeff_roundtrip(zs: Seq<Seq<i32>>, n: nat)
    requires
        coeffs_ok(zs),
        n <= zs.len(),
    ensures
        blocks_at(coeff_bytes(zs), n).0 == zs.take(n as int),
        syn::at_op(
            blocks_at(coeff_bytes(zs), n).1,
            blocks_ops(zs),
            syn::init_probs(N_COEFF_CTX as nat),
            blocks_ops(zs.take(n as int)).len(),
        ),
    decreases n,
{
    let ops = blocks_ops(zs);
    let probs = syn::init_probs(N_COEFF_CTX as nat);
    lemma_blocks_ops_valid(zs);
    if n == 0 {
        rc::lemma_tracks_init(ops, probs);
        assert(zs.take(0) =~= Seq::<Seq<i32>>::empty());
    } else {
        let m = (n - 1) as nat;
        law_coeff_roundtrip(zs, m);
        lemma_blocks_prefix(zs, n);
        assert(zs.take(n as int).drop_last() =~= zs.take(m as int));
        let z = zs[m as int];
        assert(z.len() == COEFFS);
        syn::lemma_ops_split(ops, 0, blocks_ops(zs.take(m as int)), block_ops(z));
        let s = blocks_at(coeff_bytes(zs), m).1;
        lemma_block(s, ops, probs, blocks_ops(zs.take(m as int)).len(), z);
        assert(zs.take(m as int).push(z) =~= zs.take(n as int));
    }
}

} // verus!

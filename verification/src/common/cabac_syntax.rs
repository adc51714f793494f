//! How residuals are spelled as binary decisions for the adaptive range coder, and how they are
//! read back.

use vstd::prelude::*;
use vstd::arithmetic::power2::*;
use crate::common::bits;
use crate::common::codes;
use crate::common::context;
use crate::common::context::{CtxIds, ModelView};
use crate::common::range_coder as rc;
use crate::common::range_coder::{DecState, Op};

verus! {

/// Quotients above this are taken for a sign of damaged data.
pub const MAX_QUOTIENT: u32 = 0x400_0000;

/// The probabilities that coding starts with.
pub open spec fn init_probs(n: nat) -> Seq<u16> {
    Seq::new(n, |i: int| rc::INIT_PROB)
}

/// Decisions with even odds.
pub open spec fn even_ops(b: Seq<bool>) -> Seq<Op> {
    Seq::new(b.len(), |i: int| Op { ctx: None, bit: b[i] })
}

pub open spec fn ctx_op(c: nat, bit: bool) -> Op {
    Op { ctx: Some(c), bit }
}

/// The decisions for a run of `run` zeros.
pub open spec fn run_ops(run: nat) -> Seq<Op> {
    let m = codes::ilog2(run + 1);
    (if m < 15 {
        seq![ctx_op(context::CTX_RUN_LEAD as nat, false)] + even_ops(bits::nat_bits(m, 4))
    } else {
        seq![ctx_op(context::CTX_RUN_LEAD as nat, true)] + even_ops(
            bits::nat_bits((m - 15) as nat, 5),
        )
    }) + even_ops(bits::nat_bits(run + 1, m))
}

/// The context of step `j` of a quotient.
pub open spec fn q_ctx(base: nat, j: nat) -> nat {
    base + if j < 3 {
        j
    } else {
        3
    }
}

/// The decisions for a quotient: a one for each unit, then a zero.
pub open spec fn q_ops(base: nat, q: nat) -> Seq<Op> {
    Seq::new(q, |j: int| ctx_op(q_ctx(base, j as nat), true)).push(ctx_op(q_ctx(base, q), false))
}

/// Magnitude of a residual.
pub open spec fn mag(v: i32) -> nat {
    if v < 0 {
        (-(v as int)) as nat
    } else {
        v as nat
    }
}

/// The decisions for a nonzero residual.
pub open spec fn value_ops(v: i32, k: nat, ids: CtxIds) -> Seq<Op> {
    seq![ctx_op(ids.escape as nat, false), ctx_op(ids.sign as nat, v < 0)] + q_ops(
        ids.val_q_base as nat,
        mag(v) / pow2(k),
    ) + even_ops(bits::nat_bits(mag(v) % pow2(k), k))
}

/// The contexts of residual `i` of `vals`.
pub open spec fn ids_at(
    vals: Seq<i32>,
    i: nat,
    m: ModelView,
    stride: Option<usize>,
    left_nonzero: bool,
) -> CtxIds {
    context::classify_spec(m, context::attrs_spec(vals.take(i as int), stride), left_nonzero)
}

/// The decisions for the residuals `vals` from `i` on.
pub open spec fn cabac_ops(
    vals: Seq<i32>,
    i: nat,
    left_nonzero: bool,
    k: nat,
    m: ModelView,
    stride: Option<usize>,
) -> Seq<Op>
    decreases vals.len() - i,
{
    if i >= vals.len() {
        Seq::empty()
    } else {
        let ids = ids_at(vals, i, m, stride, left_nonzero);
        if vals[i as int] == 0 {
            let run = codes::zero_run(vals, i);
            if run == 0 || i + run > vals.len() {
                Seq::empty()
            } else {
                seq![ctx_op(ids.escape as nat, true)] + run_ops(run) + cabac_ops(
                    vals,
                    i + run,
                    false,
                    k,
                    m,
                    stride,
                )
            }
        } else {
            value_ops(vals[i as int], k, ids) + cabac_ops(vals, i + 1, true, k, m, stride)
        }
    }
}

/// Decoder state with the probabilities of its contexts.
pub struct Dec {
    pub d: DecState,
    pub pr: Seq<u16>,
}

pub open spec fn get_ctx(s: Dec, data: Seq<u8>, c: nat) -> (bool, Dec) {
    let (bit, d) = rc::dec_bit(s.d, data, s.pr[c as int]);
    (bit, Dec { d, pr: s.pr.update(c as int, rc::next_prob(s.pr[c as int], bit)) })
}

pub open spec fn get_even(s: Dec, data: Seq<u8>) -> (bool, Dec) {
    let (bit, d) = rc::dec_even(s.d, data);
    (bit, Dec { d, pr: s.pr })
}

/// Shifts `n` decisions with even odds into the low end of a 32-bit number.
pub open spec fn get_bits(s: Dec, data: Seq<u8>, acc: nat, n: nat) -> (nat, Dec)
    decreases n,
{
    if n == 0 {
        (acc, s)
    } else {
        let (v, s1) = get_bits(s, data, acc, (n - 1) as nat);
        let (b, s2) = get_even(s1, data);
        (
            (2 * v + if b {
                1nat
            } else {
                0
            }) % 0x1_0000_0000,
            s2,
        )
    }
}

pub open spec fn get_run(s: Dec, data: Seq<u8>) -> (nat, Dec) {
    let (long, s1) = get_ctx(s, data, context::CTX_RUN_LEAD as nat);
    let (x, s2) = get_bits(
        s1,
        data,
        0,
        if long {
            5
        } else {
            4
        },
    );
    let m = if long {
        x + 15
    } else {
        x
    };
    if m == 0 {
        (0, s2)
    } else {
        let (v, s3) = get_bits(s2, data, 1, m);
        (
            if v == 0 {
                0xffff_ffff
            } else {
                (v - 1) as nat
            },
            s3,
        )
    }
}

/// Counts the ones up to the next zero, `q` of them being counted already; gives up above
/// [`MAX_QUOTIENT`].
pub open spec fn get_quotient(s: Dec, data: Seq<u8>, base: nat, q: nat) -> (nat, Dec)
    decreases MAX_QUOTIENT + 1 - q,
{
    let (b, s1) = get_ctx(s, data, q_ctx(base, q));
    if !b {
        (q, s1)
    } else if q >= MAX_QUOTIENT {
        (q + 1, s1)
    } else {
        get_quotient(s1, data, base, q + 1)
    }
}

/// The residual with magnitude `m` modulo `2^32`.
pub open spec fn signed_of(m: nat, neg: bool) -> i32 {
    if m < 0x8000_0000 {
        if neg {
            (-(m as int)) as i32
        } else {
            m as i32
        }
    } else if m == 0x8000_0000 {
        i32::MIN
    } else if neg {
        (0x1_0000_0000 - m) as i32
    } else {
        (m - 0x1_0000_0000) as i32
    }
}

/// The quotient and the value of a nonzero residual.
pub open spec fn get_value(s: Dec, data: Seq<u8>, k: nat, ids: CtxIds) -> (nat, i32, Dec) {
    let (neg, s2) = get_ctx(s, data, ids.sign as nat);
    let (q, s3) = get_quotient(s2, data, ids.val_q_base as nat, 0);
    let (v, s4) = get_bits(s3, data, q, k);
    (q, signed_of(v, neg), s4)
}

pub open spec fn zeros(n: nat) -> Seq<i32> {
    Seq::new(n, |i: int| 0i32)
}

/// The residuals read behind `out`, `n` in number. Empty runs are passed over, `fuel` of them.
pub open spec fn cabac_at(
    s: Dec,
    data: Seq<u8>,
    k: nat,
    m: ModelView,
    stride: Option<usize>,
    out: Seq<i32>,
    n: nat,
    left_nonzero: bool,
    fuel: nat,
) -> Seq<i32>
    decreases n, fuel,
{
    if n == 0 {
        out
    } else {
        let ids = context::classify_spec(m, context::attrs_spec(out, stride), left_nonzero);
        let (is_run, s1) = get_ctx(s, data, ids.escape as nat);
        if is_run {
            let (run, s2) = get_run(s1, data);
            if run == 0 {
                if fuel == 0 {
                    out + zeros(n)
                } else {
                    cabac_at(s2, data, k, m, stride, out, n, false, (fuel - 1) as nat)
                }
            } else if run >= n {
                out + zeros(n)
            } else {
                cabac_at(
                    s2,
                    data,
                    k,
                    m,
                    stride,
                    out + zeros(run),
                    (n - run) as nat,
                    false,
                    fuel,
                )
            }
        } else {
            let (q, v, s4) = get_value(s1, data, k, ids);
            if q > MAX_QUOTIENT && n >= 2 {
                cabac_at(
                    s4,
                    data,
                    k,
                    m,
                    stride,
                    out.push(0).push(v),
                    (n - 2) as nat,
                    true,
                    fuel,
                )
            } else {
                cabac_at(
                    s4,
                    data,
                    k,
                    m,
                    stride,
                    out.push(v),
                    (n - 1) as nat,
                    true,
                    fuel,
                )
            }
        }
    }
}

// ----- reading back -----

/// `part` stands among the decisions `ops` at index `i`.
pub open spec fn ops_at(ops: Seq<Op>, i: nat, part: Seq<Op>) -> bool {
    &&& i + part.len() <= ops.len()
    &&& ops.subrange(i as int, (i + part.len()) as int) == part
}

/// The decoder stands before decision `i` of `ops`.
pub open spec fn at_op(s: Dec, ops: Seq<Op>, probs: Seq<u16>, i: nat) -> bool {
    &&& rc::valid_probs(probs)
    &&& rc::valid_ops(ops, probs.len())
    &&& rc::tracks(s.d, s.pr, ops, probs, i)
}

pub proof fn lemma_ops_split(ops: Seq<Op>, i: nat, a: Seq<Op>, b: Seq<Op>)
    requires
        ops_at(ops, i, a + b),
    ensures
        ops_at(ops, i, a),
        ops_at(ops, i + a.len(), b),
{
    let sub = ops.subrange(i as int, (i + (a + b).len()) as int);
    assert(ops.subrange(i as int, (i + a.len()) as int) =~= a) by {
        assert forall|j: int| 0 <= j < a.len() implies ops[i + j] == a[j] by {
            assert(sub[j] == (a + b)[j]);
        }
    }
    assert(ops.subrange((i + a.len()) as int, (i + a.len() + b.len()) as int) =~= b) by {
        assert forall|j: int| 0 <= j < b.len() implies ops[i + a.len() + j] == b[j] by {
            assert(sub[a.len() + j] == (a + b)[a.len() + j]);
        }
    }
}

pub proof fn lemma_get_ctx(s: Dec, ops: Seq<Op>, probs: Seq<u16>, i: nat, c: nat, bit: bool)
    requires
        at_op(s, ops, probs, i),
        ops_at(ops, i, seq![ctx_op(c, bit)]),
    ensures
        ({
            let (b, s1) = get_ctx(s, rc::rc_bytes(ops, probs), c);
            b == bit && at_op(s1, ops, probs, i + 1)
        }),
{
    assert(ops.subrange(i as int, (i + 1) as int)[0] == ops[i as int]);
    rc::lemma_tracks_step(s.d, s.pr, ops, probs, i);
}

pub proof fn lemma_get_bits(
    s: Dec,
    ops: Seq<Op>,
    probs: Seq<u16>,
    i: nat,
    acc: nat,
    v: nat,
    n: nat,
)
    requires
        at_op(s, ops, probs, i),
        ops_at(ops, i, even_ops(bits::nat_bits(v, n))),
        acc * pow2(n) + v % pow2(n) < 0x1_0000_0000,
    ensures
        ({
            let (x, s1) = get_bits(s, rc::rc_bytes(ops, probs), acc, n);
            x == acc * pow2(n) + v % pow2(n) && at_op(s1, ops, probs, i + n)
        }),
    decreases n,
{
    lemma2_to64();
    bits::lemma_nat_bits_len(v, n);
    if n == 0 {
        assert(acc * pow2(0) == acc);
        assert(v % 1 == 0);
    } else {
        let n1 = (n - 1) as nat;
        let w = bits::nat_bits(v, n);
        let w1 = bits::nat_bits(v / 2, n1);
        bits::lemma_nat_bits_len(v / 2, n1);
        let last = Op { ctx: None, bit: v % 2 == 1 };
        assert(even_ops(w) =~= even_ops(w1) + seq![last]);
        lemma_ops_split(ops, i, even_ops(w1), seq![last]);
        lemma_pow2_unfold(n);
        lemma_pow2_pos(n1);
        let p1 = pow2(n1);
        vstd::arithmetic::div_mod::lemma_breakdown(v as int, 2, p1 as int);
        assert(v % pow2(n) == 2 * ((v / 2) % p1) + v % 2);
        assert(acc * pow2(n) == 2 * (acc * p1)) by (nonlinear_arith)
            requires
                pow2(n) == 2 * p1,
        ;
        lemma_get_bits(s, ops, probs, i, acc, v / 2, n1);
        let s1 = get_bits(s, rc::rc_bytes(ops, probs), acc, n1).1;
        assert(ops.subrange((i + n1) as int, (i + n1 + 1) as int)[0] == ops[(i + n1) as int]);
        rc::lemma_tracks_step(s1.d, s1.pr, ops, probs, i + n1);
    }
}

pub proof fn lemma_get_quotient(
    s: Dec,
    ops: Seq<Op>,
    probs: Seq<u16>,
    i: nat,
    base: nat,
    q0: nat,
    q: nat,
)
    requires
        at_op(s, ops, probs, i),
        q0 <= q <= MAX_QUOTIENT,
        ops_at(ops, i, q_ops(base, q).skip(q0 as int)),
    ensures
        ({
            let (x, s1) = get_quotient(s, rc::rc_bytes(ops, probs), base, q0);
            x == q && at_op(s1, ops, probs, (i + q - q0 + 1) as nat)
        }),
    decreases q - q0,
{
    let all = q_ops(base, q);
    let rest = all.skip(q0 as int);
    let first = ctx_op(q_ctx(base, q0), q0 < q);
    assert(rest =~= seq![first] + all.skip((q0 + 1) as int));
    lemma_ops_split(ops, i, seq![first], all.skip((q0 + 1) as int));
    lemma_get_ctx(s, ops, probs, i, q_ctx(base, q0), q0 < q);
    if q0 < q {
        let s1 = get_ctx(s, rc::rc_bytes(ops, probs), q_ctx(base, q0)).1;
        lemma_get_quotient(s1, ops, probs, i + 1, base, q0 + 1, q);
    }
}

pub proof fn lemma_run_ops_len(run: nat)
    ensures
        run_ops(run).len() == codes::ilog2(run + 1) + if codes::ilog2(run + 1) < 15 {
            5nat
        } else {
            6
        },
{
    let m = codes::ilog2(run + 1);
    bits::lemma_nat_bits_len(m, 4);
    bits::lemma_nat_bits_len((m - 15) as nat, 5);
    bits::lemma_nat_bits_len(run + 1, m);
}

pub proof fn lemma_get_run(s: Dec, ops: Seq<Op>, probs: Seq<u16>, i: nat, run: nat)
    requires
        at_op(s, ops, probs, i),
        1 <= run < 0xffff_ffff,
        ops_at(ops, i, run_ops(run)),
    ensures
        ({
            let (x, s1) = get_run(s, rc::rc_bytes(ops, probs));
            x == run && at_op(s1, ops, probs, i + run_ops(run).len())
        }),
{
    let data = rc::rc_bytes(ops, probs);
    let m = codes::ilog2(run + 1);
    lemma2_to64();
    codes::lemma_ilog2(run + 1);
    codes::lemma_ilog2_below(run + 1, 32);
    assert(m >= 1) by {
        if m == 0 {
            assert(pow2(1) == 2);
        }
    }
    let long = m >= 15;
    let c = context::CTX_RUN_LEAD as nat;
    let head = seq![ctx_op(c, long)];
    let w: nat = if long {
        5
    } else {
        4
    };
    let x = if long {
        (m - 15) as nat
    } else {
        m
    };
    let mid = even_ops(bits::nat_bits(x, w));
    let tail = even_ops(bits::nat_bits(run + 1, m));
    lemma_run_ops_len(run);
    bits::lemma_nat_bits_len(x, w);
    lemma_ops_split(ops, i, head + mid, tail);
    lemma_ops_split(ops, i, head, mid);
    lemma_get_ctx(s, ops, probs, i, c, long);
    let s1 = get_ctx(s, data, c).1;
    assert(x < pow2(w));
    assert(x % pow2(w) == x) by {
        vstd::arithmetic::div_mod::lemma_small_mod(x, pow2(w));
    }
    assert(0 * pow2(w) == 0);
    lemma_get_bits(s1, ops, probs, i + 1, 0, x, w);
    let s2 = get_bits(s1, data, 0, w).1;
    lemma_pow2_unfold(m + 1);
    assert((run + 1) % pow2(m) == run + 1 - pow2(m)) by {
        lemma_pow2_pos(m);
        vstd::arithmetic::div_mod::lemma_small_mod((run + 1 - pow2(m)) as nat, pow2(m));
        vstd::arithmetic::div_mod::lemma_mod_add_multiples_vanish(
            run + 1 - pow2(m),
            pow2(m) as int,
        );
    }
    assert(1 * pow2(m) == pow2(m));
    lemma_get_bits(s2, ops, probs, i + 1 + w, 1, run + 1, m);
}

pub proof fn lemma_get_value(
    s: Dec,
    ops: Seq<Op>,
    probs: Seq<u16>,
    at: nat,
    v: i32,
    k: nat,
    ids: CtxIds,
)
    requires
        at_op(s, ops, probs, at),
        mag(v) / pow2(k) <= MAX_QUOTIENT,
        ops_at(ops, at, value_ops(v, k, ids).skip(1)),
    ensures
        ({
            let (q, x, s1) = get_value(s, rc::rc_bytes(ops, probs), k, ids);
            &&& x == v
            &&& q <= MAX_QUOTIENT
            &&& at_op(s1, ops, probs, (at + value_ops(v, k, ids).len() - 1) as nat)
        }),
{
    let data = rc::rc_bytes(ops, probs);
    lemma_pow2_pos(k);
    let q = mag(v) / pow2(k);
    let r = mag(v) % pow2(k);
    let h2 = seq![ctx_op(ids.sign as nat, v < 0)];
    let qo = q_ops(ids.val_q_base as nat, q);
    let ro = even_ops(bits::nat_bits(r, k));
    bits::lemma_nat_bits_len(r, k);
    assert(value_ops(v, k, ids).skip(1) =~= h2 + qo + ro);
    lemma_ops_split(ops, at, h2 + qo, ro);
    lemma_ops_split(ops, at, h2, qo);
    lemma_get_ctx(s, ops, probs, at, ids.sign as nat, v < 0);
    let s2 = get_ctx(s, data, ids.sign as nat).1;
    assert(qo.skip(0) =~= qo);
    lemma_get_quotient(s2, ops, probs, at + 1, ids.val_q_base as nat, 0, q);
    let s3 = get_quotient(s2, data, ids.val_q_base as nat, 0).1;
    lemma_pow2_pos(k);
    vstd::arithmetic::div_mod::lemma_fundamental_div_mod(mag(v) as int, pow2(k) as int);
    vstd::arithmetic::mul::lemma_mul_is_commutative(q as int, pow2(k) as int);
    vstd::arithmetic::div_mod::lemma_small_mod(r, pow2(k));
    lemma_get_bits(s3, ops, probs, at + 1 + q + 1, q, r, k);
    assert(signed_of(mag(v), v < 0) == v);
}

/// Reading a run of zeros, not the last symbol.
proof fn lemma_read_run(
    s: Dec,
    ops: Seq<Op>,
    probs: Seq<u16>,
    at: nat,
    ids: CtxIds,
    run: nat,
    rest: Seq<Op>,
)
    requires
        at_op(s, ops, probs, at),
        1 <= run < 0xffff_ffff,
        ops_at(ops, at, seq![ctx_op(ids.escape as nat, true)] + run_ops(run) + rest),
    ensures
        ({
            let data = rc::rc_bytes(ops, probs);
            let (b, s1) = get_ctx(s, data, ids.escape as nat);
            let (x, s2) = get_run(s1, data);
            &&& b
            &&& x == run
            &&& at_op(s2, ops, probs, at + 1 + run_ops(run).len())
            &&& ops_at(ops, at + 1 + run_ops(run).len(), rest)
        }),
{
    let data = rc::rc_bytes(ops, probs);
    let head = seq![ctx_op(ids.escape as nat, true)];
    lemma_ops_split(ops, at, head + run_ops(run), rest);
    lemma_ops_split(ops, at, head, run_ops(run));
    lemma_get_ctx(s, ops, probs, at, ids.escape as nat, true);
    let s1 = get_ctx(s, data, ids.escape as nat).1;
    lemma_get_run(s1, ops, probs, at + 1, run);
}

/// Reading a nonzero residual.
proof fn lemma_read_value(
    s: Dec,
    ops: Seq<Op>,
    probs: Seq<u16>,
    at: nat,
    ids: CtxIds,
    v: i32,
    k: nat,
    rest: Seq<Op>,
)
    requires
        at_op(s, ops, probs, at),
        mag(v) / pow2(k) <= MAX_QUOTIENT,
        ops_at(ops, at, value_ops(v, k, ids) + rest),
    ensures
        ({
            let data = rc::rc_bytes(ops, probs);
            let (b, s1) = get_ctx(s, data, ids.escape as nat);
            let (q, x, s2) = get_value(s1, data, k, ids);
            &&& !b
            &&& x == v
            &&& q <= MAX_QUOTIENT
            &&& at_op(s2, ops, probs, at + value_ops(v, k, ids).len())
            &&& ops_at(ops, at + value_ops(v, k, ids).len(), rest)
        }),
{
    let data = rc::rc_bytes(ops, probs);
    let vo = value_ops(v, k, ids);
    let h1 = seq![ctx_op(ids.escape as nat, false)];
    lemma_ops_split(ops, at, vo, rest);
    assert(vo.len() >= 1);
    assert(vo =~= h1 + vo.skip(1));
    lemma_ops_split(ops, at, h1, vo.skip(1));
    lemma_get_ctx(s, ops, probs, at, ids.escape as nat, false);
    let s1 = get_ctx(s, data, ids.escape as nat).1;
    lemma_get_value(s1, ops, probs, at + 1, v, k, ids);
}

/// The decisions for `vals` from `i` on read back as those residuals.
pub proof fn lemma_cabac_roundtrip(
    s: Dec,
    ops: Seq<Op>,
    probs: Seq<u16>,
    at: nat,
    vals: Seq<i32>,
    i: nat,
    left_nonzero: bool,
    k: nat,
    m: ModelView,
    stride: Option<usize>,
    fuel: nat,
)
    requires
        at_op(s, ops, probs, at),
        i <= vals.len() < u32::MAX,
        forall|j: int| 0 <= j < vals.len() ==> mag(#[trigger] vals[j]) / pow2(k) <= MAX_QUOTIENT,
        ops_at(ops, at, cabac_ops(vals, i, left_nonzero, k, m, stride)),
    ensures
        cabac_at(
            s,
            rc::rc_bytes(ops, probs),
            k,
            m,
            stride,
            vals.take(i as int),
            (vals.len() - i) as nat,
            left_nonzero,
            fuel,
        ) == vals,
    decreases vals.len() - i,
{
    let data = rc::rc_bytes(ops, probs);
    let out = vals.take(i as int);
    if i == vals.len() {
        assert(out =~= vals);
    } else {
        let ids = ids_at(vals, i, m, stride, left_nonzero);
        let s1 = get_ctx(s, data, ids.escape as nat).1;
        if vals[i as int] == 0 {
            codes::lemma_zero_run(vals, i);
            let run = codes::zero_run(vals, i);
            let rest = cabac_ops(vals, i + run, false, k, m, stride);
            lemma_read_run(s, ops, probs, at, ids, run, rest);
            let s2 = get_run(s1, data).1;
            assert(out + zeros(run) =~= vals.take((i + run) as int));
            if i + run < vals.len() {
                lemma_cabac_roundtrip(
                    s2,
                    ops,
                    probs,
                    at + 1 + run_ops(run).len(),
                    vals,
                    i + run,
                    false,
                    k,
                    m,
                    stride,
                    fuel,
                );
            } else {
                assert(vals.take((i + run) as int) =~= vals);
            }
        } else {
            let v = vals[i as int];
            assert(mag(vals[i as int]) / pow2(k) <= MAX_QUOTIENT);
            let rest = cabac_ops(vals, i + 1, true, k, m, stride);
            lemma_read_value(s, ops, probs, at, ids, v, k, rest);
            let s4 = get_value(s1, data, k, ids).2;
            assert(out.push(v) =~= vals.take((i + 1) as int));
            lemma_cabac_roundtrip(
                s4,
                ops,
                probs,
                at + value_ops(v, k, ids).len(),
                vals,
                i + 1,
                true,
                k,
                m,
                stride,
                fuel,
            );
        }
    }
}

} // verus!

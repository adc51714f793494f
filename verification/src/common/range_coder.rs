//! The arithmetic of the binary range coder.
//!
//! The encoder narrows an interval `[num, num + range)` bit by bit; whenever `range` gets small,
//! both are scaled by 256, which adds one digit to the output. The output is the digits of the
//! final `num`. The decoder follows the same intervals and finds out on which side of each split
//! the encoded number lies.

use vstd::prelude::*;
use crate::common::digits;

verus! {

/// The probability that an adaptive context starts with, as a fraction of `2^12`.
pub const INIT_PROB: u16 = 2048;

/// Below this the interval is scaled.
pub const RC_TOP: u32 = 0x100_0000;

/// The interval of the encoder and the number of digits added so far.
pub struct EncState {
    pub num: nat,
    pub range: nat,
    pub n: nat,
}

/// What the decoder knows: where the encoded number lies in the interval, and the next byte.
pub struct DecState {
    pub code: nat,
    pub range: nat,
    pub pos: nat,
}

/// One binary decision: coded with the adaptive context that is named, or with even odds.
pub struct Op {
    pub ctx: Option<nat>,
    pub bit: bool,
}

pub open spec fn next_prob(p: u16, bit: bool) -> u16 {
    if bit {
        (p + (4096 - p) / 32) as u16
    } else {
        (p - p / 32) as u16
    }
}

pub open spec fn enc_init() -> EncState {
    EncState { num: 0, range: 0xffff_ffff, n: 0 }
}

pub open spec fn enc_norm(s: EncState) -> EncState
    decreases 0x1_0000_0000 - s.range,
{
    if 0 < s.range < RC_TOP {
        enc_norm(EncState { num: s.num * 256, range: s.range * 256, n: s.n + 1 })
    } else {
        s
    }
}

/// The interval that remains for `bit`, before scaling.
pub open spec fn enc_split(s: EncState, p: u16, bit: bool) -> EncState {
    let bound = (s.range / 4096) * p as nat;
    if bit {
        EncState { num: s.num, range: bound, n: s.n }
    } else {
        EncState { num: s.num + bound, range: (s.range - bound) as nat, n: s.n }
    }
}

pub open spec fn enc_split_even(s: EncState, bit: bool) -> EncState {
    let half = s.range / 2;
    EncState {
        num: if bit {
            s.num + half
        } else {
            s.num
        },
        range: half,
        n: s.n,
    }
}

pub open spec fn dec_norm(s: DecState, data: Seq<u8>) -> DecState
    decreases 0x1_0000_0000 - s.range,
{
    if 0 < s.range < RC_TOP {
        dec_norm(
            DecState {
                code: (s.code * 256) % 0x1_0000_0000 + digits::byte_at(data, s.pos),
                range: s.range * 256,
                pos: if s.pos < data.len() {
                    s.pos + 1
                } else {
                    s.pos
                },
            },
            data,
        )
    } else {
        s
    }
}

pub open spec fn dec_init(data: Seq<u8>) -> DecState {
    DecState {
        code: 0x100_0000 * digits::byte_at(data, 1) + 0x1_0000 * digits::byte_at(data, 2) + 0x100
            * digits::byte_at(data, 3) + digits::byte_at(data, 4),
        range: 0xffff_ffff,
        pos: if data.len() < 5 {
            data.len()
        } else {
            5
        },
    }
}

pub open spec fn dec_bit(s: DecState, data: Seq<u8>, p: u16) -> (bool, DecState) {
    let bound = (s.range / 4096) * p as nat;
    let bit = s.code < bound;
    let t = if bit {
        DecState { code: s.code, range: bound, pos: s.pos }
    } else {
        DecState { code: (s.code - bound) as nat, range: (s.range - bound) as nat, pos: s.pos }
    };
    (bit, dec_norm(t, data))
}

pub open spec fn dec_even(s: DecState, data: Seq<u8>) -> (bool, DecState) {
    let half = s.range / 2;
    let bit = s.code >= half;
    let t = DecState {
        code: if bit {
            (s.code - half) as nat
        } else {
            s.code
        },
        range: half,
        pos: s.pos,
    };
    (bit, dec_norm(t, data))
}

/// Interval and context probabilities after the decisions `ops`.
pub open spec fn rc_run(ops: Seq<Op>, probs: Seq<u16>) -> (EncState, Seq<u16>)
    decreases ops.len(),
{
    if ops.len() == 0 {
        (enc_init(), probs)
    } else {
        let (s, pr) = rc_run(ops.drop_last(), probs);
        let op = ops.last();
        match op.ctx {
            Some(c) => (
                enc_norm(enc_split(s, pr[c as int], op.bit)),
                pr.update(c as int, next_prob(pr[c as int], op.bit)),
            ),
            None => (enc_norm(enc_split_even(s, op.bit)), pr),
        }
    }
}

/// The bytes that stand for the decisions `ops`.
pub open spec fn rc_bytes(ops: Seq<Op>, probs: Seq<u16>) -> Seq<u8> {
    let s = rc_run(ops, probs).0;
    digits::be_bytes(s.num, s.n + 5)
}

pub open spec fn valid_probs(probs: Seq<u16>) -> bool {
    forall|i: int| 0 <= i < probs.len() ==> 0 < #[trigger] probs[i] < 4096
}

pub open spec fn valid_ops(ops: Seq<Op>, n_ctx: nat) -> bool {
    forall|i: int| 0 <= i < ops.len() ==> valid_op(#[trigger] ops[i], n_ctx)
}

pub open spec fn valid_op(op: Op, n_ctx: nat) -> bool {
    op.ctx is Some ==> op.ctx->0 < n_ctx
}

pub open spec fn valid_enc(s: EncState) -> bool {
    &&& 0x100_0000 <= s.range <= 0xffff_ffff
    &&& s.num + s.range <= 0x1_0000_0000 * digits::p256(s.n)
}

/// `t` lies in `s`, scaled.
pub open spec fn inside(t: EncState, s: EncState) -> bool {
    &&& s.n <= t.n
    &&& s.num * digits::p256((t.n - s.n) as nat) <= t.num
    &&& t.num + t.range <= (s.num + s.range) * digits::p256((t.n - s.n) as nat)
}

pub proof fn lemma_inside_trans(a: EncState, b: EncState, c: EncState)
    requires
        inside(a, b),
        inside(b, c),
    ensures
        inside(a, c),
{
    let x = (a.n - b.n) as nat;
    let y = (b.n - c.n) as nat;
    digits::lemma_p256_add(x, y);
    digits::lemma_p256_pos(x);
    let px = digits::p256(x);
    let py = digits::p256(y);
    assert(c.num * (px * py) <= b.num * px) by (nonlinear_arith)
        requires
            c.num * py <= b.num,
    ;
    assert((b.num + b.range) * px <= (c.num + c.range) * (px * py)) by (nonlinear_arith)
        requires
            b.num + b.range <= (c.num + c.range) * py,
    ;
}

/// Scaling keeps the interval and makes it wide again.
pub proof fn lemma_enc_norm(s: EncState)
    requires
        0 < s.range <= 0xffff_ffff,
        s.num + s.range <= 0x1_0000_0000 * digits::p256(s.n),
    ensures
        valid_enc(enc_norm(s)),
        inside(enc_norm(s), s),
        enc_norm(s).num + enc_norm(s).range <= (s.num + s.range) * digits::p256(
            (enc_norm(s).n - s.n) as nat,
        ),
    decreases 0x1_0000_0000 - s.range,
{
    if s.range < RC_TOP {
        let t = EncState { num: s.num * 256, range: s.range * 256, n: s.n + 1 };
        assert(digits::p256(s.n + 1) == 256 * digits::p256(s.n));
        lemma_enc_norm(t);
        assert(inside(t, s)) by {
            assert(digits::p256(1) == 256) by {
                reveal_with_fuel(digits::p256, 2);
            }
            assert((t.n - s.n) as nat == 1);
            assert(t.num + t.range == (s.num + s.range) * 256);
        }
        lemma_inside_trans(enc_norm(t), t, s);
    } else {
        assert(digits::p256(0) == 1);
        assert(s.num * 1 == s.num);
        assert((s.num + s.range) * 1 == s.num + s.range);
    }
}

pub proof fn lemma_next_prob(p: u16, bit: bool)
    requires
        0 < p < 4096,
    ensures
        0 < next_prob(p, bit) < 4096,
{
}

/// A decision narrows the interval.
pub proof fn lemma_enc_split(s: EncState, p: u16, bit: bool)
    requires
        valid_enc(s),
        0 < p < 4096,
    ensures
        0 < enc_split(s, p, bit).range <= 0xffff_ffff,
        inside(enc_split(s, p, bit), s),
        enc_split(s, p, bit).num + enc_split(s, p, bit).range <= 0x1_0000_0000 * digits::p256(s.n),
{
    let q = s.range / 4096;
    let bound = q * p as nat;
    assert(q >= 4096);
    assert(1 <= bound <= q * 4095) by (nonlinear_arith)
        requires
            bound == q * p as nat,
            q >= 1,
            0 < p < 4096,
    ;
    assert(q * 4096 <= s.range);
    assert(digits::p256(0) == 1);
    assert(s.num * 1 == s.num);
    assert((s.num + s.range) * 1 == s.num + s.range);
}

pub proof fn lemma_enc_split_even(s: EncState, bit: bool)
    requires
        valid_enc(s),
    ensures
        0 < enc_split_even(s, bit).range <= 0xffff_ffff,
        inside(enc_split_even(s, bit), s),
        enc_split_even(s, bit).num + enc_split_even(s, bit).range <= 0x1_0000_0000 * digits::p256(
            s.n,
        ),
{
    assert(digits::p256(0) == 1);
    assert(s.num * 1 == s.num);
    assert((s.num + s.range) * 1 == s.num + s.range);
}

/// Every prefix of the decisions leaves a valid state, and later intervals lie in earlier ones.
pub proof fn lemma_rc_run(ops: Seq<Op>, probs: Seq<u16>)
    requires
        valid_probs(probs),
        valid_ops(ops, probs.len()),
    ensures
        valid_enc(rc_run(ops, probs).0),
        valid_probs(rc_run(ops, probs).1),
        rc_run(ops, probs).1.len() == probs.len(),
        ops.len() > 0 ==> inside(rc_run(ops, probs).0, rc_run(ops.drop_last(), probs).0),
    decreases ops.len(),
{
    if ops.len() == 0 {
        assert(digits::p256(0) == 1);
    } else {
        let init = ops.drop_last();
        assert forall|i: int| 0 <= i < init.len() implies valid_op(
            #[trigger] init[i],
            probs.len(),
        ) by {
            assert(init[i] == ops[i]);
        }
        lemma_rc_run(init, probs);
        let (s, pr) = rc_run(init, probs);
        let op = ops.last();
        assert(valid_op(ops[ops.len() - 1], probs.len()));
        match op.ctx {
            Some(c) => {
                let p = pr[c as int];
                lemma_enc_split(s, p, op.bit);
                let m = enc_split(s, p, op.bit);
                lemma_enc_norm(m);
                lemma_inside_trans(enc_norm(m), m, s);
                lemma_next_prob(p, op.bit);
            },
            None => {
                lemma_enc_split_even(s, op.bit);
                let m = enc_split_even(s, op.bit);
                lemma_enc_norm(m);
                lemma_inside_trans(enc_norm(m), m, s);
            },
        }
    }
}

/// The interval after all of `ops` lies in that after any part of them.
pub proof fn lemma_rc_run_nested(ops: Seq<Op>, probs: Seq<u16>, i: nat)
    requires
        valid_probs(probs),
        valid_ops(ops, probs.len()),
        i <= ops.len(),
    ensures
        valid_ops(ops.take(i as int), probs.len()),
        inside(rc_run(ops, probs).0, rc_run(ops.take(i as int), probs).0),
    decreases ops.len() - i,
{
    assert forall|j: int| 0 <= j < i implies valid_op(
        #[trigger] ops.take(i as int)[j],
        probs.len(),
    ) by {
        assert(ops.take(i as int)[j] == ops[j]);
    }
    if i == ops.len() {
        assert(ops.take(i as int) =~= ops);
        assert(digits::p256(0) == 1);
        let s = rc_run(ops, probs).0;
        assert(s.num * 1 == s.num);
        assert((s.num + s.range) * 1 == s.num + s.range);
    } else {
        lemma_rc_run_nested(ops, probs, i + 1);
        lemma_rc_run(ops.take((i + 1) as int), probs);
        assert(ops.take((i + 1) as int).drop_last() =~= ops.take(i as int));
        lemma_inside_trans(
            rc_run(ops, probs).0,
            rc_run(ops.take((i + 1) as int), probs).0,
            rc_run(ops.take(i as int), probs).0,
        );
    }
}

/// The decoder state `d` belongs to the encoder interval `e` of the number `f` with `nf` added digits.
pub open spec fn in_step(d: DecState, e: EncState, f: nat, nf: nat) -> bool {
    &&& e.n <= nf
    &&& d.range == e.range
    &&& d.pos == 5 + e.n
    &&& e.num <= f / digits::p256((nf - e.n) as nat) < e.num + e.range
    &&& d.code == f / digits::p256((nf - e.n) as nat) - e.num
}

/// A number in a scaled interval lies, cut to fewer digits, in the unscaled one.
proof fn lemma_cut(f: nat, nf: nat, t: EncState, e: EncState)
    requires
        inside(t, e),
        t.num <= f < t.num + t.range,
        t.n == nf,
    ensures
        e.num <= f / digits::p256((nf - e.n) as nat) < e.num + e.range,
{
    let w = digits::p256((nf - e.n) as nat);
    digits::lemma_p256_pos((nf - e.n) as nat);
    vstd::arithmetic::div_mod::lemma_fundamental_div_mod(f as int, w as int);
    let x = f / w;
    let r = f % w;
    assert(e.num <= x) by (nonlinear_arith)
        requires
            e.num * w <= f,
            f == w * x + r,
            r < w,
    ;
    assert(x < e.num + e.range) by (nonlinear_arith)
        requires
            f < (e.num + e.range) * w,
            f == w * x + r,
            r >= 0,
            w > 0,
    ;
}

/// Scaling keeps encoder and decoder in step.
proof fn lemma_norm_in_step(d: DecState, e: EncState, f: nat, nf: nat)
    requires
        in_step(d, e, f, nf),
        0 < e.range <= 0xffff_ffff,
        enc_norm(e).n <= nf,
        f / digits::p256((nf - enc_norm(e).n) as nat) < enc_norm(e).num + enc_norm(e).range,
        e.num + e.range <= 0x1_0000_0000 * digits::p256(e.n),
    ensures
        in_step(dec_norm(d, digits::be_bytes(f, nf + 5)), enc_norm(e), f, nf),
    decreases 0x1_0000_0000 - e.range,
{
    let data = digits::be_bytes(f, nf + 5);
    if e.range < RC_TOP {
        let e1 = EncState { num: e.num * 256, range: e.range * 256, n: e.n + 1 };
        assert(digits::p256(e.n + 1) == 256 * digits::p256(e.n));
        lemma_enc_norm(e1);
        let b = (nf - e.n - 1) as nat;
        digits::lemma_next_digit(f, b);
        digits::lemma_be_bytes_digit(f, nf + 5, 5 + e.n);
        let x = f / digits::p256(b + 1);
        let y = f / digits::p256(b);
        let dig = y % 256;
        assert((nf + 5 - 1 - (5 + e.n)) as nat == b);
        assert(y == 256 * x + dig);
        let d1 = DecState {
            code: (d.code * 256) % 0x1_0000_0000 + digits::byte_at(data, d.pos),
            range: d.range * 256,
            pos: if d.pos < data.len() {
                d.pos + 1
            } else {
                d.pos
            },
        };
        assert(d.code * 256 < 0x1_0000_0000);
        assert(in_step(d1, e1, f, nf));
        lemma_norm_in_step(d1, e1, f, nf);
    }
}

/// The context probabilities and the interval of the decoder `d` are those of the encoder before
/// decision `i` of `ops`.
pub open spec fn tracks(d: DecState, pr: Seq<u16>, ops: Seq<Op>, probs: Seq<u16>, i: nat) -> bool {
    let fin = rc_run(ops, probs).0;
    let (e, epr) = rc_run(ops.take(i as int), probs);
    &&& i <= ops.len()
    &&& pr == epr
    &&& in_step(d, e, fin.num, fin.n)
}

pub proof fn lemma_tracks_init(ops: Seq<Op>, probs: Seq<u16>)
    requires
        valid_probs(probs),
        valid_ops(ops, probs.len()),
    ensures
        tracks(dec_init(rc_bytes(ops, probs)), probs, ops, probs, 0),
{
    let fin = rc_run(ops, probs).0;
    let data = rc_bytes(ops, probs);
    lemma_rc_run(ops, probs);
    lemma_rc_run_nested(ops, probs, 0);
    assert(ops.take(0) =~= Seq::<Op>::empty());
    lemma_cut(fin.num, fin.n, fin, enc_init());
    digits::lemma_be_bytes_len(fin.num, fin.n + 5);
    let f = fin.num;
    let nf = fin.n;
    digits::lemma_be_bytes_digit(f, nf + 5, 1);
    digits::lemma_be_bytes_digit(f, nf + 5, 2);
    digits::lemma_be_bytes_digit(f, nf + 5, 3);
    digits::lemma_be_bytes_digit(f, nf + 5, 4);
    digits::lemma_next_digit(f, nf);
    digits::lemma_next_digit(f, nf + 1);
    digits::lemma_next_digit(f, nf + 2);
    digits::lemma_next_digit(f, nf + 3);
    let x = f / digits::p256(nf);
    assert(x < 0xffff_ffff);
    assert((nf + 5 - 1 - 4) as nat == nf);
    assert((nf + 5 - 1 - 3) as nat == nf + 1);
    assert((nf + 5 - 1 - 2) as nat == nf + 2);
    assert((nf + 5 - 1 - 1) as nat == nf + 3);
    assert(f / digits::p256(nf + 4) == 0) by {
        digits::lemma_p256_pos(nf + 4);
        digits::lemma_p256_add(nf, 4);
        assert(digits::p256(4) == 0x1_0000_0000) by {
            reveal_with_fuel(digits::p256, 5);
        }
        assert(f < digits::p256(nf + 4)) by (nonlinear_arith)
            requires
                f < 0x1_0000_0000 * digits::p256(nf),
                digits::p256(nf + 4) == digits::p256(nf) * 0x1_0000_0000,
        ;
        vstd::arithmetic::div_mod::lemma_basic_div(f as int, digits::p256(nf + 4) as int);
    }
}

/// The decoder finds each decision of the encoder.
pub proof fn lemma_tracks_step(
    d: DecState,
    pr: Seq<u16>,
    ops: Seq<Op>,
    probs: Seq<u16>,
    i: nat,
)
    requires
        valid_probs(probs),
        valid_ops(ops, probs.len()),
        i < ops.len(),
        tracks(d, pr, ops, probs, i),
    ensures
        match ops[i as int].ctx {
            Some(c) => {
                let (bit, d1) = dec_bit(d, rc_bytes(ops, probs), pr[c as int]);
                &&& bit == ops[i as int].bit
                &&& tracks(d1, pr.update(c as int, next_prob(pr[c as int], bit)), ops, probs, i + 1)
            },
            None => {
                let (bit, d1) = dec_even(d, rc_bytes(ops, probs));
                &&& bit == ops[i as int].bit
                &&& tracks(d1, pr, ops, probs, i + 1)
            },
        },
{
    let fin = rc_run(ops, probs).0;
    let f = fin.num;
    let nf = fin.n;
    lemma_rc_run(ops, probs);
    lemma_rc_run_nested(ops, probs, i);
    lemma_rc_run_nested(ops, probs, i + 1);
    let t0 = ops.take(i as int);
    let t1 = ops.take((i + 1) as int);
    assert(t1.drop_last() =~= t0);
    lemma_rc_run(t0, probs);
    let e = rc_run(t0, probs).0;
    let e1 = rc_run(t1, probs).0;
    let op = ops[i as int];
    assert(t1.last() == op);
    assert(valid_op(op, probs.len()));
    let m = match op.ctx {
        Some(c) => enc_split(e, pr[c as int], op.bit),
        None => enc_split_even(e, op.bit),
    };
    match op.ctx {
        Some(c) => {
            lemma_enc_split(e, pr[c as int], op.bit);
        },
        None => {
            lemma_enc_split_even(e, op.bit);
        },
    }
    assert(e1 == enc_norm(m));
    lemma_enc_norm(m);
    lemma_inside_trans(fin, e1, m);
    lemma_cut(f, nf, fin, m);
    lemma_cut(f, nf, fin, e1);
    let x = f / digits::p256((nf - e.n) as nat);
    let dm = DecState { code: (x - m.num) as nat, range: m.range, pos: d.pos };
    lemma_norm_in_step(dm, m, f, nf);
}

/// A decision makes its repetition more likely, by a thirty-second of what is left, and never certain.
pub proof fn law_next_prob(p: u16)
    requires
        0 < p < 4096,
    ensures
        p <= next_prob(p, true) < 4096,
        0 < next_prob(p, false) <= p,
        0 <= 4096 - p - 32 * (next_prob(p, true) - p) < 32,
        0 <= p - 32 * (p - next_prob(p, false)) < 32,
{
}

/// Both outcomes of a decision share out what there was before it, nothing in common and nothing left,
/// each the more the likelier it is.
pub proof fn law_split(s: EncState, p: u16)
    requires
        s.range >= RC_TOP,
        0 < p < 4096,
    ensures
        ({
            let (a, b) = (enc_split(s, p, true), enc_split(s, p, false));
            &&& a.num == s.num
            &&& a.num + a.range == b.num
            &&& b.num + b.range == s.num + s.range
            &&& a.range > 0 && b.range > 0
            &&& s.range * p - 0x100_0000 < 4096 * a.range <= s.range * p
        }),
{
    let k = s.range / 4096;
    let q = p as nat;
    vstd::arithmetic::div_mod::lemma_fundamental_div_mod(s.range as int, 4096);
    assert(0 < k * q < s.range && s.range * q - 0x100_0000 < 4096 * (k * q) <= s.range * q)
        by (nonlinear_arith)
        requires
            s.range == 4096 * k + s.range % 4096,
            0 <= s.range % 4096 < 4096,
            k >= 1,
            0 < q < 4096,
    ;
}

} // verus!

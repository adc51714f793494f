//! Zero-run encoder on top of an adaptive binary range coder.

use vstd::prelude::*;
use vstd::arithmetic::power2::*;
use crate::common::bits;
use crate::common::cabac_syntax as syn;
use crate::common::choose_k;
use crate::common::choose_k::{best_k_exec, floor_log2};
use crate::common::codes;
use crate::common::context;
use crate::common::context::{attrs_at, build_ma_tree, Attrs, CtxIds, CtxModel, MaTree, ModelView, CTX_RUN_LEAD, N_CTX};
use crate::common::digits;
use crate::common::error::CrfResult;
use crate::common::par::par_map;
use crate::common::range_coder as rc;
use crate::common::range_coder::{EncState, Op, INIT_PROB, RC_TOP};

verus! {

/// Binary range encoder.
pub struct RangeEncoder {
    low: u64,
    range: u32,
    out: Vec<u8>,
}

/// Zeros at the end of a byte string scale the number that it spells.
proof fn lemma_be_val_zeros(s: Seq<u8>, i: nat)
    requires
        i <= s.len(),
        forall|j: int| i <= j < s.len() ==> s[j] == 0,
    ensures
        digits::be_val(s) == digits::be_val(s.take(i as int)) * digits::p256((s.len() - i) as nat),
    decreases s.len() - i,
{
    if i == s.len() {
        assert(s.take(i as int) =~= s);
        assert(digits::be_val(s) * 1 == digits::be_val(s));
    } else {
        let t = s.drop_last();
        lemma_be_val_zeros(t, i);
        assert(t.take(i as int) =~= s.take(i as int));
        let a = digits::be_val(s.take(i as int));
        let p = digits::p256((t.len() - i) as nat);
        assert(256 * (a * p) == a * (256 * p)) by (nonlinear_arith);
    }
}

/// Adds one to the number that `out` spells.
fn carry(out: &mut Vec<u8>)
    requires
        digits::be_val(old(out)@) + 1 < digits::p256(old(out)@.len()),
    ensures
        final(out)@.len() == old(out)@.len(),
        digits::be_val(final(out)@) == digits::be_val(old(out)@) + 1,
{
    let ghost before = out@;
    let n: usize = out.len();
    let mut i: usize = n;
    proof {
        assert(before.take(i as int) =~= before);
        assert((digits::be_val(before) + 1) * 1 == digits::be_val(before) + 1);
        if n == 0 {
            assert(digits::p256(0) == 1);
        }
    }
    while i > 0 && out[i - 1] == 0xff
        invariant
            i <= n,
            n == out@.len(),
            n == before.len(),
            out@.take(i as int) == before.take(i as int),
            forall|j: int| i <= j < n ==> out@[j] == 0,
            digits::be_val(before) + 1 == (digits::be_val(before.take(i as int)) + 1)
                * digits::p256((n - i) as nat),
        decreases i,
    {
        proof {
            let t = before.take(i as int);
            assert(t.drop_last() =~= before.take(i - 1));
            assert(t.last() == out@.take(i as int)[i - 1]);
            let a = digits::be_val(before.take(i - 1));
            let p = digits::p256((n - i) as nat);
            assert(digits::be_val(t) + 1 == 256 * (a + 1));
            assert((256 * (a + 1)) * p == (a + 1) * (256 * p)) by (nonlinear_arith);
            assert((n - (i - 1)) as nat == (n - i) as nat + 1);
        }
        out.set(i - 1, 0);
        i = i - 1;
        assert(out@.take(i as int) =~= before.take(i as int));
    }
    proof {
        if i == 0 {
            assert(before.take(0) =~= Seq::<u8>::empty());
            let p = digits::p256(n as nat);
            assert(digits::be_val(before.take(0)) == 0);
            assert((0 + 1) * p == p) by (nonlinear_arith);
            assert(digits::be_val(before) + 1 == p);
        }
    }
    let b: u8 = out[i - 1];
    proof {
        assert(b == out@.take(i as int)[i - 1]);
        let t = before.take(i as int);
        assert(t.drop_last() =~= before.take(i - 1));
    }
    out.set(i - 1, b + 1);
    proof {
        let u = out@.take(i as int);
        let t = before.take(i as int);
        assert(u.drop_last() =~= t.drop_last());
        lemma_be_val_zeros(out@, i as nat);
    }
}

/// After four shifts nothing is left of the low end.
proof fn lemma_low_gone(l0: nat, l1: nat, l2: nat, l3: nat)
    requires
        l1 == (l0 % 0x100_0000) * 256,
        l2 == (l1 % 0x100_0000) * 256,
        l3 == (l2 % 0x100_0000) * 256,
    ensures
        (l3 % 0x100_0000) * 256 == 0,
{
    let a = l0 % 0x100_0000;
    assert(l1 % 0x100_0000 == 256 * (a % 0x1_0000));
    let b = a % 0x1_0000;
    assert(l2 == 0x1_0000 * b);
    assert(l2 % 0x100_0000 == 0x1_0000 * (b % 256));
}

impl RangeEncoder {
    /// The interval.
    pub closed spec fn view(&self) -> EncState {
        EncState {
            num: 0x1_0000_0000 * digits::be_val(self.out@) + self.low as nat,
            range: self.range as nat,
            n: (self.out@.len() - 1) as nat,
        }
    }

    spec fn inv(&self) -> bool {
        &&& self.out@.len() >= 1
        &&& self.range > 0
        &&& self.low + self.range <= 0x2_0000_0000
        &&& self@.num + self@.range <= 0x1_0000_0000 * digits::p256(self@.n)
    }

    pub closed spec fn wf(&self) -> bool {
        self.inv() && rc::valid_enc(self@)
    }

    /// An encoder without output yet.
    pub fn new() -> (e: RangeEncoder)
        ensures
            e.wf(),
            e@ == rc::enc_init(),
    {
        let e = RangeEncoder { low: 0, range: u32::MAX, out: vec![0u8] };
        proof {
            assert(e.out@ =~= seq![0u8]);
            assert(e.out@.drop_last() =~= Seq::<u8>::empty());
            reveal_with_fuel(digits::be_val, 2);
            reveal_with_fuel(digits::p256, 2);
        }
        e
    }

    /// Moves the top byte of `low` to the output.
    fn shift_low(&mut self)
        requires
            old(self).out@.len() >= 1,
            old(self).low < 0x2_0000_0000,
            old(self).low >= 0x1_0000_0000 ==> digits::be_val(old(self).out@) + 1 < digits::p256(
                old(self).out@.len(),
            ),
        ensures
            final(self).out@.len() == old(self).out@.len() + 1,
            final(self).range == old(self).range,
            final(self).low == (old(self).low % 0x100_0000) * 256,
            final(self)@.num == old(self)@.num * 256,
    {
        let mut low: u64 = self.low;
        let ghost num0 = self@.num;
        if low >= 0x1_0000_0000 {
            carry(&mut self.out);
            low = low - 0x1_0000_0000;
        }
        let ghost mid = self.out@;
        assert(num0 == 0x1_0000_0000 * digits::be_val(mid) + low as nat);
        self.out.push((low / 0x100_0000) as u8);
        self.low = (low % 0x100_0000) * 256;
        proof {
            assert(self.out@.drop_last() =~= mid);
        }
    }

    fn normalize(&mut self)
        requires
            old(self).inv(),
        ensures
            final(self).wf(),
            final(self)@ == rc::enc_norm(old(self)@),
    {
        let ghost goal = rc::enc_norm(self@);
        while self.range < RC_TOP
            invariant
                self.inv(),
                rc::enc_norm(self@) == goal,
            decreases 0x1_0000_0000 - self.range,
        {
            let ghost s = self@;
            proof {
                assert(digits::p256(s.n + 1) == 256 * digits::p256(s.n));
                digits::lemma_p256_pos(s.n);
            }
            self.range = self.range * 256;
            self.shift_low();
            proof {
                assert(self@ == (EncState { num: s.num * 256, range: s.range * 256, n: s.n + 1 }));
            }
        }
    }

    /// Codes `bit` with the adaptive probability `prob` of a one.
    pub fn encode_bit(&mut self, bit: bool, prob: &mut u16)
        requires
            old(self).wf(),
            0 < *old(prob) < 4096,
        ensures
            final(self).wf(),
            final(self)@ == rc::enc_norm(rc::enc_split(old(self)@, *old(prob), bit)),
            *final(prob) == rc::next_prob(*old(prob), bit),
            0 < *final(prob) < 4096,
    {
        let p: u16 = *prob;
        proof {
            rc::lemma_enc_split(self@, p, bit);
            let q = self.range / 4096;
            assert(q * p <= q * 4095) by (nonlinear_arith)
                requires
                    p < 4096,
            ;
        }
        let bound: u32 = (self.range / 4096) * p as u32;
        if bit {
            *prob = p + (4096 - p) / 32;
            self.range = bound;
        } else {
            *prob = p - p / 32;
            self.low = self.low + bound as u64;
            self.range = self.range - bound;
        }
        self.normalize();
    }

    /// Codes `bit` with even odds.
    pub fn encode_direct(&mut self, bit: bool)
        requires
            old(self).wf(),
        ensures
            final(self).wf(),
            final(self)@ == rc::enc_norm(rc::enc_split_even(old(self)@, bit)),
    {
        proof {
            rc::lemma_enc_split_even(self@, bit);
        }
        self.range = self.range / 2;
        if bit {
            self.low = self.low + self.range as u64;
        }
        self.normalize();
    }

    /// The digits of the interval's lower end.
    pub fn finish(self) -> (out: Vec<u8>)
        requires
            self.wf(),
        ensures
            out@ == digits::be_bytes(self@.num, self@.n + 5),
    {
        let mut e = self;
        proof {
            digits::lemma_p256_pos(e@.n);
            assert(digits::p256(e.out@.len()) == 256 * digits::p256(e@.n));
        }
        let ghost l0 = e.low as nat;
        e.shift_low();
        let ghost l1 = e.low as nat;
        e.shift_low();
        let ghost l2 = e.low as nat;
        e.shift_low();
        let ghost l3 = e.low as nat;
        e.shift_low();
        proof {
            lemma_low_gone(l0, l1, l2, l3);
            assert(e.low == 0);
            assert(digits::be_val(e.out@) == self@.num);
            digits::lemma_be_bytes_of_val(e.out@);
        }
        e.out
    }

    /// Number of bytes that are settled but for a carry; [`finish`](Self::finish) returns four more.
    pub fn out_len(&self) -> (n: usize)
        requires
            self.wf(),
        ensures
            n == self@.n + 1,
    {
        self.out.len()
    }
}

/// Magnitudes of residuals.
pub open spec fn mags(vals: Seq<i32>) -> Seq<u32> {
    Seq::new(vals.len(), |i: int| syn::mag(vals[i]) as u32)
}

/// Magnitude of a residual.
pub fn mag_u32(v: i32) -> (m: u32)
    ensures
        m == syn::mag(v),
{
    if v >= 0 {
        v as u32
    } else {
        (-(v + 1)) as u32 + 1
    }
}

/// The parameter that the zero-run coder on top of the range coder picks for `vals`.
pub open spec fn cabac_k(vals: Seq<i32>) -> nat {
    choose_k::best_k_of(mags(vals))
}

/// Codes residuals as binary decisions.
pub struct CabacEncoder {
    rc: RangeEncoder,
    probs: Vec<u16>,
    k: u8,
    ops: Ghost<Seq<Op>>,
}

impl CabacEncoder {
    /// The decisions coded so far.
    pub closed spec fn view(&self) -> Seq<Op> {
        self.ops@
    }

    pub closed spec fn spec_k(&self) -> u8 {
        self.k
    }

    pub closed spec fn wf(&self) -> bool {
        &&& self.rc.wf()
        &&& self.k < 32
        &&& self.probs@.len() == N_CTX
        &&& rc::valid_probs(self.probs@)
        &&& rc::valid_ops(self.ops@, N_CTX as nat)
        &&& (self.rc@, self.probs@) == rc::rc_run(self.ops@, syn::init_probs(N_CTX as nat))
    }

    /// An encoder with parameter `k`.
    pub fn new(k: u8) -> (e: CabacEncoder)
        requires
            k < 32,
        ensures
            e.wf(),
            e.spec_k() == k,
            e@ == Seq::<Op>::empty(),
    {
        let e = CabacEncoder {
            rc: RangeEncoder::new(),
            probs: vec![INIT_PROB; N_CTX],
            k,
            ops: Ghost(Seq::empty()),
        };
        assert(e.probs@ =~= syn::init_probs(N_CTX as nat));
        e
    }

    /// An encoder whose parameter makes the quotients of the magnitudes of `values` shortest.
    pub fn adaptive(values: &[i32]) -> (e: CabacEncoder)
        requires
            values@.len() < u32::MAX,
        ensures
            e.wf(),
            e.spec_k() == cabac_k(values@),
            e.spec_k() <= choose_k::HIST_MAX_K,
            e@ == Seq::<Op>::empty(),
    {
        let mut m: Vec<u32> = Vec::with_capacity(values.len());
        let mut i: usize = 0;
        while i < values.len()
            invariant
                i <= values@.len(),
                m@ == mags(values@).take(i as int),
            decreases values@.len() - i,
        {
            m.push(mag_u32(values[i]));
            i = i + 1;
            assert(m@ =~= mags(values@).take(i as int));
        }
        assert(m@ =~= mags(values@));
        let k: u8 = best_k_exec(&m);
        Self::new(k)
    }

    /// The parameter.
    pub fn k(&self) -> (k: u8)
        ensures
            k == self.spec_k(),
    {
        self.k
    }

    fn bit(&mut self, b: bool, ctx: usize)
        requires
            old(self).wf(),
            ctx < N_CTX,
        ensures
            final(self).wf(),
            final(self).spec_k() == old(self).spec_k(),
            final(self)@ == old(self)@.push(syn::ctx_op(ctx as nat, b)),
    {
        let mut p: u16 = self.probs[ctx];
        let ghost ops0 = self.ops@;
        self.rc.encode_bit(b, &mut p);
        self.probs.set(ctx, p);
        self.ops = Ghost(ops0.push(syn::ctx_op(ctx as nat, b)));
        proof {
            assert(self.ops@.drop_last() =~= ops0);
        }
    }

    fn direct_bit(&mut self, b: bool)
        requires
            old(self).wf(),
        ensures
            final(self).wf(),
            final(self).spec_k() == old(self).spec_k(),
            final(self)@ == old(self)@.push(Op { ctx: None, bit: b }),
    {
        let ghost ops0 = self.ops@;
        self.rc.encode_direct(b);
        self.ops = Ghost(ops0.push(Op { ctx: None, bit: b }));
        proof {
            assert(self.ops@.drop_last() =~= ops0);
        }
    }

    /// Codes the `n` low bits of `v` with even odds.
    fn direct_bits(&mut self, v: u32, n: u32)
        requires
            old(self).wf(),
            n <= 32,
        ensures
            final(self).wf(),
            final(self).spec_k() == old(self).spec_k(),
            final(self)@ == old(self)@ + syn::even_ops(bits::nat_bits(v as nat, n as nat)),
    {
        let ghost before = self@;
        let ghost k = self.spec_k();
        let ghost all = syn::even_ops(bits::nat_bits(v as nat, n as nat));
        let mut i: u32 = 0;
        proof {
            bits::lemma_nat_bits_len(v as nat, n as nat);
            assert(before + all.take(0) =~= before);
        }
        while i < n
            invariant
                self.wf(),
                self.spec_k() == k,
                i <= n <= 32,
                all == syn::even_ops(bits::nat_bits(v as nat, n as nat)),
                all.len() == n,
                self@ == before + all.take(i as int),
            decreases n - i,
        {
            let sh: u32 = n - 1 - i;
            proof {
                bits::lemma_nat_bits_index(v as nat, n as nat, i as int);
                vstd::bits::lemma_u32_shr_is_div(v, sh);
                let x = v >> sh;
                assert(x & 1 == x % 2) by (bit_vector);
            }
            self.direct_bit((v >> sh) & 1 == 1);
            i = i + 1;
            assert(self@ =~= before + all.take(i as int));
        }
        assert(all.take(n as int) =~= all);
    }

    /// Codes the length of a run of zeros.
    fn enc_exp_golomb(&mut self, run: u32)
        requires
            old(self).wf(),
            run < u32::MAX,
        ensures
            final(self).wf(),
            final(self).spec_k() == old(self).spec_k(),
            final(self)@ == old(self)@ + syn::run_ops(run as nat),
    {
        let ghost before = self@;
        let v: u32 = run + 1;
        let m: u32 = floor_log2(v);
        if m < 15 {
            self.bit(false, CTX_RUN_LEAD);
            self.direct_bits(m, 4);
        } else {
            self.bit(true, CTX_RUN_LEAD);
            self.direct_bits(m - 15, 5);
        }
        self.direct_bits(v, m);
        assert(self@ =~= before + syn::run_ops(run as nat));
    }

    /// Codes a nonzero residual, behind the decision on the kind of symbol.
    fn enc_value(&mut self, v: i32, ids: CtxIds)
        requires
            old(self).wf(),
            v != 0,
            ids.escape < 8,
            ids.sign < CTX_RUN_LEAD,
            ids.val_q_base + 3 < context::CTX_SIGN,
        ensures
            final(self).wf(),
            final(self).spec_k() == old(self).spec_k(),
            final(self)@ == old(self)@ + syn::value_ops(v, old(self).spec_k() as nat, ids),
    {
        let ghost before = self@;
        let k: u8 = self.k;
        self.bit(false, ids.escape);
        self.bit(v < 0, ids.sign);
        let m: u32 = mag_u32(v);
        proof {
            lemma2_to64();
            lemma_pow2_pos(k as nat);
            lemma_pow2_strictly_increases(k as nat, 32);
            vstd::bits::lemma_u32_shr_is_div(m, k as u32);
            vstd::bits::lemma_u32_shl_is_mul(1, k as u32);
        }
        let q: u32 = m >> (k as u32);
        let mut j: u32 = 0;
        let base: usize = ids.val_q_base;
        let ghost mid = self@;
        let ghost all = syn::q_ops(base as nat, q as nat);
        proof {
            assert(mid + all.take(0) =~= mid);
        }
        while j < q
            invariant
                self.wf(),
                self.spec_k() == k,
                j <= q,
                base + 3 < context::CTX_SIGN,
                all == syn::q_ops(base as nat, q as nat),
                self@ == mid + all.take(j as int),
            decreases q - j,
        {
            self.bit(
                true,
                base + if j < 3 {
                    j as usize
                } else {
                    3
                },
            );
            j = j + 1;
            assert(self@ =~= mid + all.take(j as int));
        }
        self.bit(
            false,
            base + if q < 3 {
                q as usize
            } else {
                3
            },
        );
        assert(self@ =~= mid + all);
        let r: u32 = m % (1u32 << (k as u32));
        self.direct_bits(r, k as u32);
        assert(self@ =~= before + syn::value_ops(v, k as nat, ids));
    }

    /// Codes the symbol at `values[i]` and returns the index behind it.
    fn encode_symbol(
        &mut self,
        values: &[i32],
        i: usize,
        left_nonzero: bool,
        model: &CtxModel<'_>,
        stride: Option<usize>,
    ) -> (r: (usize, bool))
        requires
            old(self).wf(),
            model.wf(),
            i < values@.len() < u32::MAX,
        ensures
            final(self).wf(),
            final(self).spec_k() == old(self).spec_k(),
            i < r.0 <= values@.len(),
            old(self)@ + syn::cabac_ops(
                values@,
                i as nat,
                left_nonzero,
                old(self).spec_k() as nat,
                model@,
                stride,
            ) == final(self)@ + syn::cabac_ops(
                values@,
                r.0 as nat,
                r.1,
                old(self).spec_k() as nat,
                model@,
                stride,
            ),
    {
        let ghost before = self@;
        let ghost k = self.spec_k() as nat;
        let a: Attrs = attrs_at(values, i, stride);
        let ids: CtxIds = model.classify(a, left_nonzero);
        if values[i] == 0 {
            let mut j: usize = i;
            proof {
                codes::lemma_zero_run(values@, i as nat);
            }
            while j < values.len() && values[j] == 0
                invariant
                    i <= j <= values@.len(),
                    j - i + codes::zero_run(values@, j as nat) == codes::zero_run(
                        values@,
                        i as nat,
                    ),
                decreases values@.len() - j,
            {
                j = j + 1;
            }
            let run: u32 = (j - i) as u32;
            self.bit(true, ids.escape);
            self.enc_exp_golomb(run);
            proof {
                let rest = syn::cabac_ops(values@, j as nat, false, k, model@, stride);
                assert(before + (seq![syn::ctx_op(ids.escape as nat, true)] + syn::run_ops(
                    run as nat,
                ) + rest) =~= self@ + rest);
            }
            (j, false)
        } else {
            self.enc_value(values[i], ids);
            proof {
                let rest = syn::cabac_ops(values@, (i + 1) as nat, true, k, model@, stride);
                assert(before + (syn::value_ops(values@[i as int], k, ids) + rest) =~= self@
                    + rest);
            }
            (i + 1, true)
        }
    }

    /// Codes `values`, unless the stream would get longer than `byte_limit`; returns whether it was
    /// done. Stops as soon as the limit is passed.
    pub fn encode_signed_array_limited(
        &mut self,
        values: &[i32],
        model: &CtxModel<'_>,
        stride: Option<usize>,
        byte_limit: Option<usize>,
    ) -> (done: bool)
        requires
            old(self).wf(),
            model.wf(),
            values@.len() < u32::MAX,
        ensures
            final(self).wf(),
            final(self).spec_k() == old(self).spec_k(),
            ({
                let all = old(self)@ + syn::cabac_ops(
                    values@,
                    0,
                    false,
                    old(self).spec_k() as nat,
                    model@,
                    stride,
                );
                &&& done ==> final(self)@ == all
                &&& !done ==> byte_limit is Some && rc::rc_bytes(
                    all,
                    syn::init_probs(N_CTX as nat),
                ).len() > byte_limit->0
            }),
    {
        let ghost goal = self@ + syn::cabac_ops(
            values@,
            0,
            false,
            self.spec_k() as nat,
            model@,
            stride,
        );
        let ghost k = self.spec_k();
        let mut i: usize = 0;
        let mut left_nonzero: bool = false;
        while i < values.len()
            invariant
                self.wf(),
                self.spec_k() == k,
                model.wf(),
                i <= values@.len() < u32::MAX,
                old(self).spec_k() == k,
                goal == old(self)@ + syn::cabac_ops(
                    values@,
                    0,
                    false,
                    k as nat,
                    model@,
                    stride,
                ),
                goal == self@ + syn::cabac_ops(
                    values@,
                    i as nat,
                    left_nonzero,
                    k as nat,
                    model@,
                    stride,
                ),
            decreases values@.len() - i,
        {
            if let Some(limit) = byte_limit {
                if self.rc.out_len() >= limit {
                    proof {
                        self.lemma_grows(values@, i as nat, left_nonzero, model@, stride);
                    }
                    return false;
                }
            }
            let (j, nz) = self.encode_symbol(values, i, left_nonzero, model, stride);
            i = j;
            left_nonzero = nz;
        }
        assert(goal =~= self@);
        true
    }

    /// What is coded later only adds to the stream.
    proof fn lemma_grows(
        &self,
        vals: Seq<i32>,
        i: nat,
        left_nonzero: bool,
        m: ModelView,
        stride: Option<usize>,
    )
        requires
            self.wf(),
            m is Ma ==> m->Ma_0.len() == context::MA_NODES,
        ensures
            rc::rc_bytes(
                self@ + syn::cabac_ops(vals, i, left_nonzero, self.spec_k() as nat, m, stride),
                syn::init_probs(N_CTX as nat),
            ).len() > self.rc@.n + 1,
    {
        let more = syn::cabac_ops(vals, i, left_nonzero, self.spec_k() as nat, m, stride);
        let all = self@ + more;
        let probs = syn::init_probs(N_CTX as nat);
        lemma_cabac_ops_valid(vals, i, left_nonzero, self.spec_k() as nat, m, stride);
        assert forall|j: int| 0 <= j < all.len() implies rc::valid_op(
            #[trigger] all[j],
            N_CTX as nat,
        ) by {
            if j < self@.len() {
                assert(all[j] == self@[j]);
            } else {
                assert(all[j] == more[j - self@.len()]);
            }
        }
        rc::lemma_rc_run_nested(all, probs, self@.len());
        assert(all.take(self@.len() as int) =~= self@);
        digits::lemma_be_bytes_len(rc::rc_run(all, probs).0.num, rc::rc_run(all, probs).0.n + 5);
    }

    /// Codes `values`.
    pub fn encode_signed_array(
        &mut self,
        values: &[i32],
        model: &CtxModel<'_>,
        stride: Option<usize>,
    )
        requires
            old(self).wf(),
            model.wf(),
            values@.len() < u32::MAX,
        ensures
            final(self).wf(),
            final(self).spec_k() == old(self).spec_k(),
            final(self)@ == old(self)@ + syn::cabac_ops(
                values@,
                0,
                false,
                old(self).spec_k() as nat,
                model@,
                stride,
            ),
    {
        let _done: bool = self.encode_signed_array_limited(values, model, stride, None);
    }

    /// The bytes of the stream.
    pub fn finish(self) -> (out: Vec<u8>)
        requires
            self.wf(),
        ensures
            out@ == rc::rc_bytes(self@, syn::init_probs(N_CTX as nat)),
    {
        self.rc.finish()
    }
}

proof fn lemma_valid_add(a: Seq<Op>, b: Seq<Op>)
    requires
        rc::valid_ops(a, N_CTX as nat),
        rc::valid_ops(b, N_CTX as nat),
    ensures
        rc::valid_ops(a + b, N_CTX as nat),
{
    assert forall|j: int| 0 <= j < (a + b).len() implies rc::valid_op(
        #[trigger] (a + b)[j],
        N_CTX as nat,
    ) by {
        if j < a.len() {
            assert((a + b)[j] == a[j]);
        } else {
            assert((a + b)[j] == b[j - a.len()]);
        }
    }
}

/// The decisions for residuals name contexts that exist.
pub proof fn lemma_cabac_ops_valid(
    vals: Seq<i32>,
    i: nat,
    left_nonzero: bool,
    k: nat,
    m: ModelView,
    stride: Option<usize>,
)
    requires
        m is Ma ==> m->Ma_0.len() == context::MA_NODES,
    ensures
        rc::valid_ops(syn::cabac_ops(vals, i, left_nonzero, k, m, stride), N_CTX as nat),
    decreases vals.len() - i,
{
    if i < vals.len() {
        let ids = syn::ids_at(vals, i, m, stride, left_nonzero);
        context::lemma_model_leaf(m, context::attrs_spec(vals.take(i as int), stride));
        if vals[i as int] == 0 {
            let run = codes::zero_run(vals, i);
            if run > 0 && i + run <= vals.len() {
                lemma_cabac_ops_valid(vals, i + run, false, k, m, stride);
                let h = seq![syn::ctx_op(ids.escape as nat, true)];
                let r = syn::run_ops(run);
                lemma_valid_add(h, r);
                lemma_valid_add(h + r, syn::cabac_ops(vals, i + run, false, k, m, stride));
            }
        } else {
            lemma_cabac_ops_valid(vals, i + 1, true, k, m, stride);
            let v = vals[i as int];
            let h = seq![syn::ctx_op(ids.escape as nat, false), syn::ctx_op(ids.sign as nat, v < 0)];
            lemma_pow2_pos(k);
            let q = syn::q_ops(ids.val_q_base as nat, syn::mag(v) / pow2(k));
            let r = syn::even_ops(bits::nat_bits(syn::mag(v) % pow2(k), k));
            lemma_valid_add(h, q);
            lemma_valid_add(h + q, r);
            lemma_valid_add(
                syn::value_ops(vals[i as int], k, ids),
                syn::cabac_ops(vals, i + 1, true, k, m, stride),
            );
        }
    }
}

/// The stream of residuals `vals` in one of the three context models.
pub open spec fn cabac_stream(
    vals: Seq<i32>,
    k: nat,
    m: ModelView,
    stride: Option<usize>,
) -> Seq<u8> {
    rc::rc_bytes(syn::cabac_ops(vals, 0, false, k, m, stride), syn::init_probs(N_CTX as nat))
}

/// The stored form of a context tree with the nodes `nodes`.
pub open spec fn tree_bytes(nodes: Seq<context::MaNode>) -> Seq<u8> {
    Seq::new(
        context::MA_HEADER_LEN as nat,
        |j: int|
            if j % 2 == 0 {
                nodes[j / 2].attr
            } else {
                nodes[j / 2].threshold
            },
    )
}

/// The payload of variant 0 (fitted tree), 1 (classes of activity) or 2 (one context): a byte that
/// tells the variant, the tree where there is one, the stream.
pub open spec fn variant_body(
    vals: Seq<i32>,
    k: nat,
    stride: Option<usize>,
    variant: u8,
) -> Seq<u8> {
    if variant == 0 {
        let nodes = context::fitted_nodes(vals, stride);
        seq![1u8] + tree_bytes(nodes) + cabac_stream(vals, k, ModelView::Ma(nodes), stride)
    } else if variant == 1 {
        seq![2u8] + cabac_stream(vals, k, ModelView::Gradient, stride)
    } else {
        seq![0u8] + cabac_stream(vals, k, ModelView::Uniform, stride)
    }
}

/// `r` is the payload of a variant if that is below the limit, and nothing otherwise.
pub open spec fn variant_result(
    vals: Seq<i32>,
    k: nat,
    stride: Option<usize>,
    limit: Option<usize>,
    variant: u8,
    r: Option<Vec<u8>>,
) -> bool {
    let body = variant_body(vals, k, stride, variant);
    if limit is Some && body.len() >= limit->0 {
        r is None
    } else {
        r is Some && r->0@ == body
    }
}

/// What coding a variant needs.
pub open spec fn variant_ready(vals: Seq<i32>, k: u8) -> bool {
    k < 32 && vals.len() < u32::MAX
}

fn encode_cabac_variant(
    pixels: &[i32],
    k: u8,
    stride: Option<usize>,
    byte_limit: Option<usize>,
    variant: u8,
) -> (r: Option<Vec<u8>>)
    requires
        variant_ready(pixels@, k),
    ensures
        variant_result(pixels@, k as nat, stride, byte_limit, variant, r),
{
    let mut body: Vec<u8> = Vec::new();
    let tree: MaTree = build_ma_tree(pixels, stride);
    let model: CtxModel<'_> = if variant == 0 {
        body.push(1);
        let h: Vec<u8> = tree.serialize();
        body.extend_from_slice(&h);
        CtxModel::Ma(&tree)
    } else if variant == 1 {
        body.push(2);
        CtxModel::Gradient
    } else {
        body.push(0);
        CtxModel::Uniform
    };
    let ghost head = body@;
    proof {
        assert(variant == 0 ==> head =~= seq![1u8] + tree_bytes(tree.nodes@));
        assert(variant == 1 ==> head =~= seq![2u8]);
        assert(variant > 1 ==> head =~= seq![0u8]);
    }
    let stream_limit: Option<usize> = match byte_limit {
        Some(limit) => Some(
            if limit > body.len() {
                limit - body.len()
            } else {
                0
            },
        ),
        None => None,
    };
    let mut enc = CabacEncoder::new(k);
    let done: bool = enc.encode_signed_array_limited(pixels, &model, stride, stream_limit);
    proof {
        let ops = syn::cabac_ops(pixels@, 0, false, k as nat, model@, stride);
        assert(Seq::<Op>::empty() + ops =~= ops);
        assert(variant_body(pixels@, k as nat, stride, variant) =~= head + cabac_stream(
            pixels@,
            k as nat,
            model@,
            stride,
        ));
    }
    if !done {
        return None;
    }
    let stream: Vec<u8> = enc.finish();
    body.extend_from_slice(&stream);
    assert(body@ =~= head + stream@);
    if let Some(limit) = byte_limit {
        if body.len() >= limit {
            return None;
        }
    }
    Some(body)
}

/// The variants that compete: without rows there are no neighbours to tell contexts by.
pub open spec fn variants_for(stride: Option<usize>) -> Seq<u8> {
    if stride is Some {
        seq![0u8, 1u8, 2u8]
    } else {
        seq![2u8]
    }
}

/// The shortest payload of the first `n` variants, the first one should several be equally short.
pub open spec fn best_body(vals: Seq<i32>, k: nat, stride: Option<usize>, n: nat) -> Seq<u8>
    decreases n,
{
    let v = variants_for(stride);
    if n <= 1 {
        variant_body(vals, k, stride, v[0])
    } else {
        let b = best_body(vals, k, stride, (n - 1) as nat);
        let c = variant_body(vals, k, stride, v[n - 1]);
        if c.len() < b.len() {
            c
        } else {
            b
        }
    }
}

/// The payload of the zero-run coder on top of the range coder.
pub open spec fn cabac_body(vals: Seq<i32>, stride: Option<usize>) -> Seq<u8> {
    best_body(vals, cabac_k(vals), stride, variants_for(stride).len())
}

/// A payload has at least the byte that names its context model.
pub proof fn lemma_body_not_empty(vals: Seq<i32>, k: nat, stride: Option<usize>, n: nat)
    ensures
        best_body(vals, k, stride, n).len() >= 1,
    decreases n,
{
    if n > 1 {
        lemma_body_not_empty(vals, k, stride, (n - 1) as nat);
    }
}

proof fn lemma_best_of(vals: Seq<i32>, k: nat, stride: Option<usize>, n: nat)
    requires
        1 <= n <= variants_for(stride).len(),
    ensures
        exists|i: int|
            0 <= i < n && best_body(vals, k, stride, n) == #[trigger] variant_body(
                vals,
                k,
                stride,
                variants_for(stride)[i],
            ),
        forall|i: int|
            0 <= i < n ==> best_body(vals, k, stride, n).len() <= (#[trigger] variant_body(
                vals,
                k,
                stride,
                variants_for(stride)[i],
            )).len(),
    decreases n,
{
    let v = variants_for(stride);
    if n <= 1 {
        assert(best_body(vals, k, stride, n) == variant_body(vals, k, stride, v[0]));
    } else {
        lemma_best_of(vals, k, stride, (n - 1) as nat);
        let i = choose|i: int|
            0 <= i < n - 1 && best_body(vals, k, stride, (n - 1) as nat)
                == #[trigger] variant_body(vals, k, stride, v[i]);
        let c = variant_body(vals, k, stride, v[n - 1]);
        assert(best_body(vals, k, stride, n) == c || best_body(vals, k, stride, n)
            == variant_body(vals, k, stride, v[i]));
    }
}

/// A payload starts with 0, 1 or 2, which tells its context model, and with 0 where residuals form
/// no rows. No payload of a context model that competes is shorter.
pub proof fn law_cabac_body(vals: Seq<i32>, stride: Option<usize>)
    ensures
        cabac_body(vals, stride).len() >= 1,
        cabac_body(vals, stride)[0] <= 2,
        stride is None ==> cabac_body(vals, stride)[0] == 0,
        forall|i: int|
            0 <= i < variants_for(stride).len() ==> cabac_body(vals, stride).len()
                <= (#[trigger] variant_body(
                vals,
                cabac_k(vals),
                stride,
                variants_for(stride)[i],
            )).len(),
{
    lemma_best_of(vals, cabac_k(vals), stride, variants_for(stride).len());
}

/// Lets the variants compete and takes the shortest payload.
fn encode_best(pixels: &[i32], stride: Option<usize>, byte_limit: Option<usize>) -> (r: Option<
    (Vec<u8>, u8),
>)
    requires
        pixels@.len() < u32::MAX,
    ensures
        ({
            let body = cabac_body(pixels@, stride);
            if byte_limit is Some && body.len() >= byte_limit->0 {
                r is None
            } else {
                r is Some && (r->Some_0).0@ == body && (r->Some_0).1 == cabac_k(pixels@)
            }
        }),
        r is Some ==> (r->Some_0).1 <= choose_k::HIST_MAX_K,
{
    let probe = CabacEncoder::adaptive(pixels);
    let k: u8 = probe.k();
    let variants: Vec<u8> = if stride.is_some() {
        vec![0, 1, 2]
    } else {
        vec![2]
    };
    assert(variants@ =~= variants_for(stride));
    let encode = |v: &u8| -> (r: Option<Vec<u8>>)
        requires
            variant_ready(pixels@, k),
        ensures
            variant_result(pixels@, k as nat, stride, byte_limit, *v, r),
        {
            encode_cabac_variant(pixels, k, stride, byte_limit, *v)
        };
    let results: Vec<Option<Vec<u8>>> = par_map(&variants, encode);
    let mut best: Option<Vec<u8>> = None;
    let mut i: usize = 0;
    for r in it: results
        invariant
            it.seq() == results@,
            i == it.index(),
            variants@ == variants_for(stride),
            results@.len() == variants@.len(),
            forall|j: int|
                0 <= j < results@.len() ==> variant_result(
                    pixels@,
                    k as nat,
                    stride,
                    byte_limit,
                    variants@[j],
                    #[trigger] results@[j],
                ),
            i == 0 ==> best is None,
            i > 0 ==> ({
                let body = best_body(pixels@, k as nat, stride, i as nat);
                if byte_limit is Some && body.len() >= byte_limit->0 {
                    best is None
                } else {
                    best is Some && best->0@ == body
                }
            }),
    {
        proof {
            assert(variant_result(
                pixels@,
                k as nat,
                stride,
                byte_limit,
                variants@[i as int],
                results@[i as int],
            ));
        }
        if let Some(body) = r {
            let better: bool = match &best {
                Some(b) => body.len() < b.len(),
                None => true,
            };
            if better {
                best = Some(body);
            }
        }
        i = i + 1;
    }
    match best {
        Some(body) => Some((body, k)),
        None => None,
    }
}

/// Zero-run codes residuals on top of the range coder, in the context model that gives the
/// shortest payload. `stride` is the length of a row, if the residuals form rows.
pub fn encode_frame_rle_cabac_adaptive(pixels: &[i32], stride: Option<usize>) -> (r: CrfResult<
    (Vec<u8>, u8),
>)
    requires
        pixels@.len() < u32::MAX,
    ensures
        r is Ok,
        r->Ok_0.0@ == cabac_body(pixels@, stride),
        r->Ok_0.1 == cabac_k(pixels@),
        r->Ok_0.1 <= choose_k::HIST_MAX_K,
{
    match encode_best(pixels, stride, None) {
        Some(x) => Ok(x),
        None => Ok((Vec::new(), 0)),
    }
}

/// [`encode_frame_rle_cabac_adaptive`], given up if no payload is below `byte_limit` bytes.
pub fn encode_frame_rle_cabac_adaptive_limited(
    pixels: &[i32],
    stride: Option<usize>,
    byte_limit: usize,
) -> (r: CrfResult<Option<(Vec<u8>, u8)>>)
    requires
        pixels@.len() < u32::MAX,
    ensures
        r is Ok,
        ({
            let body = cabac_body(pixels@, stride);
            if body.len() >= byte_limit {
                r->Ok_0 is None
            } else {
                &&& r->Ok_0 is Some
                &&& (r->Ok_0->Some_0).0@ == body
                &&& (r->Ok_0->Some_0).1 == cabac_k(pixels@)
                &&& (r->Ok_0->Some_0).1 <= choose_k::HIST_MAX_K
            }
        }),
{
    Ok(encode_best(pixels, stride, Some(byte_limit)))
}

} // verus!

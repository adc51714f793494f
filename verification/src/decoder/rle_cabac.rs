//! Decoder of zero-run codes on top of an adaptive binary range coder.

use vstd::prelude::*;
use vstd::arithmetic::power2::*;
use crate::common::cabac_syntax as syn;
use crate::common::cabac_syntax::{Dec, MAX_QUOTIENT};
use crate::common::context;
use crate::common::context::{attrs_at, Attrs, CtxIds, CtxModel, MaTree, ModelView, CTX_RUN_LEAD, N_CTX};
use crate::common::digits;
use crate::common::range_coder as rc;
use crate::common::range_coder::{DecState, INIT_PROB, RC_TOP};
use crate::encoder::rle_cabac;

verus! {

/// Binary range decoder.
pub struct RangeDecoder<'a> {
    range: u32,
    code: u32,
    data: &'a [u8],
    pos: usize,
}

impl<'a> RangeDecoder<'a> {
    pub closed spec fn view(&self) -> DecState {
        DecState { code: self.code as nat, range: self.range as nat, pos: self.pos as nat }
    }

    pub closed spec fn data(&self) -> Seq<u8> {
        self.data@
    }

    pub closed spec fn wf(&self) -> bool {
        self.range >= RC_TOP && self.pos <= self.data@.len()
    }

    /// A decoder at the start of `data`: it passes over the first byte, which is always zero, and
    /// reads four more.
    pub fn new(data: &'a [u8]) -> (d: RangeDecoder<'a>)
        ensures
            d.wf(),
            d.data() == data@,
            d@ == rc::dec_init(data@),
    {
        let n: usize = data.len();
        let b1: u32 = if n > 1 {
            data[1] as u32
        } else {
            0
        };
        let b2: u32 = if n > 2 {
            data[2] as u32
        } else {
            0
        };
        let b3: u32 = if n > 3 {
            data[3] as u32
        } else {
            0
        };
        let b4: u32 = if n > 4 {
            data[4] as u32
        } else {
            0
        };
        RangeDecoder {
            range: u32::MAX,
            code: 0x100_0000 * b1 + 0x1_0000 * b2 + 0x100 * b3 + b4,
            data,
            pos: if n < 5 {
                n
            } else {
                5
            },
        }
    }

    fn next_byte(&mut self) -> (b: u32)
        requires
            old(self).pos <= old(self).data@.len(),
        ensures
            b == digits::byte_at(old(self).data@, old(self).pos as nat),
            final(self).data@ == old(self).data@,
            final(self).range == old(self).range,
            final(self).code == old(self).code,
            final(self).pos == old(self).pos + if old(self).pos < old(self).data@.len() {
                1int
            } else {
                0
            },
    {
        if self.pos < self.data.len() {
            let b: u32 = self.data[self.pos] as u32;
            self.pos = self.pos + 1;
            b
        } else {
            0
        }
    }

    fn normalize(&mut self)
        requires
            old(self).range > 0,
            old(self).pos <= old(self).data@.len(),
        ensures
            final(self).wf(),
            final(self).data() == old(self).data(),
            final(self)@ == rc::dec_norm(old(self)@, old(self).data@),
    {
        let ghost goal = rc::dec_norm(self@, self.data@);
        let ghost data = self.data@;
        while self.range < RC_TOP
            invariant
                self.range > 0,
                self.data@ == data,
                self.pos <= data.len(),
                rc::dec_norm(self@, data) == goal,
            decreases 0x1_0000_0000 - self.range,
        {
            let b: u32 = self.next_byte();
            self.code = self.code.wrapping_mul(256) + b;
            self.range = self.range * 256;
        }
    }

    /// Reads a decision that was coded with the adaptive probability `prob` of a one.
    pub fn decode_bit(&mut self, prob: &mut u16) -> (bit: bool)
        requires
            old(self).wf(),
            0 < *old(prob) < 4096,
        ensures
            final(self).wf(),
            final(self).data() == old(self).data(),
            (bit, final(self)@) == rc::dec_bit(old(self)@, old(self).data(), *old(prob)),
            *final(prob) == rc::next_prob(*old(prob), bit),
            0 < *final(prob) < 4096,
    {
        let p: u16 = *prob;
        proof {
            let q = self.range / 4096;
            assert(1 <= q * p <= q * 4095) by (nonlinear_arith)
                requires
                    0 < p < 4096,
                    q >= 1,
            ;
        }
        let bound: u32 = (self.range / 4096) * p as u32;
        let bit: bool = self.code < bound;
        if bit {
            self.range = bound;
            *prob = p + (4096 - p) / 32;
        } else {
            self.code = self.code - bound;
            self.range = self.range - bound;
            *prob = p - p / 32;
        }
        self.normalize();
        bit
    }

    /// Reads a decision that was coded with even odds.
    pub fn decode_direct(&mut self) -> (bit: bool)
        requires
            old(self).wf(),
        ensures
            final(self).wf(),
            final(self).data() == old(self).data(),
            (bit, final(self)@) == rc::dec_even(old(self)@, old(self).data()),
    {
        self.range = self.range / 2;
        let bit: bool = self.code >= self.range;
        if bit {
            self.code = self.code - self.range;
        }
        self.normalize();
        bit
    }
}

/// Reads residuals from binary decisions.
pub struct CabacDecoder<'a> {
    rc: RangeDecoder<'a>,
    probs: Vec<u16>,
    k: u8,
}

impl<'a> CabacDecoder<'a> {
    pub closed spec fn view(&self) -> Dec {
        Dec { d: self.rc@, pr: self.probs@ }
    }

    pub closed spec fn data(&self) -> Seq<u8> {
        self.rc.data()
    }

    pub closed spec fn spec_k(&self) -> u8 {
        self.k
    }

    pub closed spec fn wf(&self) -> bool {
        &&& self.rc.wf()
        &&& self.probs@.len() == N_CTX
        &&& rc::valid_probs(self.probs@)
    }

    /// A decoder at the start of `data`.
    pub fn new(data: &'a [u8], k: u8) -> (d: CabacDecoder<'a>)
        ensures
            d.wf(),
            d.data() == data@,
            d.spec_k() == k,
            d@ == (Dec { d: rc::dec_init(data@), pr: syn::init_probs(N_CTX as nat) }),
    {
        let d = CabacDecoder { rc: RangeDecoder::new(data), probs: vec![INIT_PROB; N_CTX], k };
        assert(d.probs@ =~= syn::init_probs(N_CTX as nat));
        d
    }

    fn bit(&mut self, ctx: usize) -> (b: bool)
        requires
            old(self).wf(),
            ctx < N_CTX,
        ensures
            final(self).wf(),
            final(self).data() == old(self).data(),
            final(self).spec_k() == old(self).spec_k(),
            (b, final(self)@) == syn::get_ctx(old(self)@, old(self).data(), ctx as nat),
    {
        let mut p: u16 = self.probs[ctx];
        let b: bool = self.rc.decode_bit(&mut p);
        self.probs.set(ctx, p);
        b
    }

    fn direct_bit(&mut self) -> (b: bool)
        requires
            old(self).wf(),
        ensures
            final(self).wf(),
            final(self).data() == old(self).data(),
            final(self).spec_k() == old(self).spec_k(),
            (b, final(self)@) == syn::get_even(old(self)@, old(self).data()),
    {
        self.rc.decode_direct()
    }

    fn direct_bits(&mut self, acc: u32, n: u32) -> (v: u32)
        requires
            old(self).wf(),
        ensures
            final(self).wf(),
            final(self).data() == old(self).data(),
            final(self).spec_k() == old(self).spec_k(),
            (v as nat, final(self)@) == syn::get_bits(
                old(self)@,
                old(self).data(),
                acc as nat,
                n as nat,
            ),
    {
        let ghost s = self@;
        let ghost data = self.data();
        let ghost k = self.spec_k();
        let mut v: u32 = acc;
        let mut i: u32 = 0;
        while i < n
            invariant
                self.wf(),
                self.data() == data,
                self.spec_k() == k,
                i <= n,
                (v as nat, self@) == syn::get_bits(s, data, acc as nat, i as nat),
            decreases n - i,
        {
            let b: bool = self.direct_bit();
            v = v.wrapping_mul(2) + if b {
                1
            } else {
                0
            };
            i = i + 1;
        }
        v
    }

    /// Reads the length of a run of zeros.
    fn dec_exp_golomb(&mut self) -> (run: u32)
        requires
            old(self).wf(),
        ensures
            final(self).wf(),
            final(self).data() == old(self).data(),
            final(self).spec_k() == old(self).spec_k(),
            (run as nat, final(self)@) == syn::get_run(old(self)@, old(self).data()),
    {
        let ghost s0 = self@;
        let long: bool = self.bit(CTX_RUN_LEAD);
        let ghost s1 = self@;
        let m: u32 = if long {
            let x: u32 = self.direct_bits(0, 5);
            proof {
                lemma_get_bits_bound(s1, self.data(), 0, 5);
                lemma2_to64();
            }
            x + 15
        } else {
            self.direct_bits(0, 4)
        };
        if m == 0 {
            return 0;
        }
        let v: u32 = self.direct_bits(1, m);
        v.wrapping_sub(1)
    }

    /// Reads a quotient.
    fn dec_quotient(&mut self, base: usize) -> (q: u32)
        requires
            old(self).wf(),
            base + 3 < N_CTX,
        ensures
            final(self).wf(),
            final(self).data() == old(self).data(),
            final(self).spec_k() == old(self).spec_k(),
            (q as nat, final(self)@) == syn::get_quotient(
                old(self)@,
                old(self).data(),
                base as nat,
                0,
            ),
    {
        let ghost goal = syn::get_quotient(self@, self.data(), base as nat, 0);
        let ghost data = self.data();
        let ghost k = self.spec_k();
        let mut q: u32 = 0;
        while q <= MAX_QUOTIENT
            invariant
                self.wf(),
                self.data() == data,
                self.spec_k() == k,
                base + 3 < N_CTX,
                q <= MAX_QUOTIENT + 1,
                q <= MAX_QUOTIENT ==> goal == syn::get_quotient(self@, data, base as nat, q as nat),
                q == MAX_QUOTIENT + 1 ==> goal == (q as nat, self@),
                data == old(self).data(),
                k == old(self).spec_k(),
                goal == syn::get_quotient(old(self)@, old(self).data(), base as nat, 0),
            decreases MAX_QUOTIENT + 1 - q,
        {
            let b: bool = self.bit(
                base + if q < 3 {
                    q as usize
                } else {
                    3
                },
            );
            if !b {
                return q;
            }
            q = q + 1;
        }
        q
    }

    /// Reads a nonzero residual, behind the decision on the kind of symbol.
    fn dec_value(&mut self, ids: CtxIds) -> (r: (u32, i32))
        requires
            old(self).wf(),
            ids.sign < N_CTX,
            ids.val_q_base + 3 < N_CTX,
        ensures
            final(self).wf(),
            final(self).data() == old(self).data(),
            final(self).spec_k() == old(self).spec_k(),
            (r.0 as nat, r.1, final(self)@) == syn::get_value(
                old(self)@,
                old(self).data(),
                old(self).spec_k() as nat,
                ids,
            ),
    {
        let neg: bool = self.bit(ids.sign);
        let q: u32 = self.dec_quotient(ids.val_q_base);
        let m: u32 = self.direct_bits(q, self.k as u32);
        (q, to_signed(m, neg))
    }

    /// Reads `count` residuals. `model` and `stride` must be those of the encoder.
    pub fn decode_signed_array(
        &mut self,
        count: usize,
        model: &CtxModel<'_>,
        stride: Option<usize>,
    ) -> (out: Vec<i32>)
        requires
            old(self).wf(),
            model.wf(),
        ensures
            final(self).wf(),
            out@ == syn::cabac_at(
                old(self)@,
                old(self).data(),
                old(self).spec_k() as nat,
                model@,
                stride,
                Seq::empty(),
                count as nat,
                false,
                u64::MAX as nat,
            ),
    {
        let ghost data = self.data();
        let ghost k = self.spec_k() as nat;
        let ghost goal = syn::cabac_at(
            self@,
            data,
            k,
            model@,
            stride,
            Seq::empty(),
            count as nat,
            false,
            u64::MAX as nat,
        );
        let mut out: Vec<i32> = Vec::new();
        let mut remaining: usize = count;
        let mut left_nonzero: bool = false;
        let mut fuel: u64 = u64::MAX;
        while remaining > 0
            invariant
                self.wf(),
                model.wf(),
                self.data() == data,
                self.spec_k() == k,
                goal == syn::cabac_at(
                    self@,
                    data,
                    k,
                    model@,
                    stride,
                    out@,
                    remaining as nat,
                    left_nonzero,
                    fuel as nat,
                ),
            decreases remaining, fuel,
        {
            let ghost out0 = out@;
            let a: Attrs = attrs_at(&out, out.len(), stride);
            assert(out@.take(out@.len() as int) =~= out@);
            let ids: CtxIds = model.classify(a, left_nonzero);
            if self.bit(ids.escape) {
                let run: u32 = self.dec_exp_golomb();
                left_nonzero = false;
                if run == 0 && fuel > 0 {
                    fuel = fuel - 1;
                } else {
                    let actual: usize = if run > 0 && (run as usize) < remaining {
                        run as usize
                    } else {
                        remaining
                    };
                    push_zeros(&mut out, actual);
                    remaining = remaining - actual;
                }
            } else {
                let (q, v) = self.dec_value(ids);
                left_nonzero = true;
                if q > MAX_QUOTIENT && remaining >= 2 {
                    out.push(0);
                    remaining = remaining - 1;
                }
                out.push(v);
                remaining = remaining - 1;
            }
        }
        out
    }
}

/// Appends `n` zeros.
pub fn push_zeros(out: &mut Vec<i32>, n: usize)
    ensures
        final(out)@ == old(out)@ + syn::zeros(n as nat),
{
    let ghost out0 = out@;
    let mut j: usize = 0;
    assert(out0 + syn::zeros(0) =~= out0);
    while j < n
        invariant
            j <= n,
            out@ == out0 + syn::zeros(j as nat),
        decreases n - j,
    {
        out.push(0);
        j = j + 1;
        assert(out@ =~= out0 + syn::zeros(j as nat));
    }
}

/// The residual with magnitude `m` modulo `2^32`.
fn to_signed(m: u32, neg: bool) -> (v: i32)
    ensures
        v == syn::signed_of(m as nat, neg),
{
    if m < 0x8000_0000 {
        if neg {
            -(m as i32)
        } else {
            m as i32
        }
    } else if m == 0x8000_0000 {
        i32::MIN
    } else {
        let c: i32 = (0xffff_ffff - m) as i32 + 1;
        if neg {
            c
        } else {
            -c
        }
    }
}

proof fn lemma_get_bits_bound(s: Dec, data: Seq<u8>, acc: nat, n: nat)
    requires
        acc == 0,
    ensures
        syn::get_bits(s, data, acc, n).0 < pow2(n),
    decreases n,
{
    lemma2_to64();
    if n > 0 {
        lemma_get_bits_bound(s, data, acc, (n - 1) as nat);
        lemma_pow2_unfold(n);
        let v = syn::get_bits(s, data, acc, (n - 1) as nat).0;
        let (b, s2) = syn::get_even(syn::get_bits(s, data, acc, (n - 1) as nat).1, data);
        assert((2 * v + if b {
            1nat
        } else {
            0
        }) % 0x1_0000_0000 <= 2 * v + 1);
    }
}

/// The payload does not start with a damaged context tree.
pub open spec fn body_ok(data: Seq<u8>) -> bool {
    data.len() > 0 && data[0] % 2 == 1 ==> MaTree::header_ok(data.skip(1))
}

/// The context model that a payload names, and the stream behind it.
pub open spec fn body_model(data: Seq<u8>) -> (ModelView, Seq<u8>) {
    if data[0] % 2 == 1 {
        let nodes = Seq::new(
            context::MA_NODES as nat,
            |i: int|
                context::MaNode { attr: data[1 + 2 * i], threshold: data[2 + 2 * i] },
        );
        (ModelView::Ma(nodes), data.skip(1 + context::MA_HEADER_LEN as int))
    } else if (data[0] / 2) % 2 == 1 {
        (ModelView::Gradient, data.skip(1))
    } else {
        (ModelView::Uniform, data.skip(1))
    }
}

/// The `n` residuals that a payload stands for.
pub open spec fn cabac_frame(data: Seq<u8>, k: nat, n: nat, stride: Option<usize>) -> Seq<i32> {
    if data.len() == 0 {
        syn::zeros(n)
    } else {
        let (m, stream) = body_model(data);
        syn::cabac_at(
            Dec { d: rc::dec_init(stream), pr: syn::init_probs(N_CTX as nat) },
            stream,
            k,
            m,
            stride,
            Seq::empty(),
            n,
            false,
            u64::MAX as nat,
        )
    }
}

proof fn lemma_cabac_at_len(
    s: Dec,
    data: Seq<u8>,
    k: nat,
    m: ModelView,
    stride: Option<usize>,
    out: Seq<i32>,
    n: nat,
    left_nonzero: bool,
    fuel: nat,
)
    ensures
        syn::cabac_at(s, data, k, m, stride, out, n, left_nonzero, fuel).len() == out.len() + n,
    decreases n, fuel,
{
    if n > 0 {
        let ids = context::classify_spec(m, context::attrs_spec(out, stride), left_nonzero);
        let (is_run, s1) = syn::get_ctx(s, data, ids.escape as nat);
        if is_run {
            let (run, s2) = syn::get_run(s1, data);
            if run == 0 {
                if fuel > 0 {
                    lemma_cabac_at_len(s2, data, k, m, stride, out, n, false, (fuel - 1) as nat);
                }
            } else if run < n {
                let next = out + syn::zeros(run);
                lemma_cabac_at_len(s2, data, k, m, stride, next, (n - run) as nat, false, fuel);
            }
        } else {
            let (q, v, s4) = syn::get_value(s1, data, k, ids);
            if q > MAX_QUOTIENT && n >= 2 {
                let next = out.push(0).push(v);
                lemma_cabac_at_len(s4, data, k, m, stride, next, (n - 2) as nat, true, fuel);
            } else {
                lemma_cabac_at_len(
                    s4,
                    data,
                    k,
                    m,
                    stride,
                    out.push(v),
                    (n - 1) as nat,
                    true,
                    fuel,
                );
            }
        }
    }
}

/// A payload gives as many residuals as are asked for.
pub proof fn lemma_cabac_len(data: Seq<u8>, k: nat, n: nat, stride: Option<usize>)
    ensures
        cabac_frame(data, k, n, stride).len() == n,
{
    if data.len() > 0 {
        let (m, stream) = body_model(data);
        lemma_cabac_at_len(
            Dec { d: rc::dec_init(stream), pr: syn::init_probs(N_CTX as nat) },
            stream,
            k,
            m,
            stride,
            Seq::empty(),
            n,
            false,
            u64::MAX as nat,
        );
    }
}

/// Whether [`decode_frame_rle_cabac`] can take the payload.
pub fn check_body(data: &[u8]) -> (ok: bool)
    ensures
        ok == body_ok(data@),
{
    if data.len() == 0 || data[0] % 2 == 0 {
        return true;
    }
    let body = vstd::slice::slice_subrange(data, 1, data.len());
    assert(body@ =~= data@.skip(1));
    match MaTree::deserialize(body) {
        Ok(_) => true,
        Err(_) => false,
    }
}

/// Decodes a payload of the zero-run coder on top of the range coder.
pub fn decode_frame_rle_cabac(
    data: &[u8],
    k: u8,
    pixel_count: usize,
    stride: Option<usize>,
) -> (out: Vec<i32>)
    requires
        body_ok(data@),
    ensures
        out@ == cabac_frame(data@, k as nat, pixel_count as nat, stride),
{
    if data.len() == 0 {
        let mut out: Vec<i32> = Vec::new();
        push_zeros(&mut out, pixel_count);
        assert(out@ =~= syn::zeros(pixel_count as nat));
        return out;
    }
    let flags: u8 = data[0];
    let body = vstd::slice::slice_subrange(data, 1, data.len());
    assert(body@ =~= data@.skip(1));
    if flags % 2 == 1 {
        match MaTree::deserialize(body) {
            Ok((tree, header_len)) => {
                let stream = vstd::slice::slice_subrange(body, header_len, body.len());
                assert(stream@ =~= data@.skip(1 + context::MA_HEADER_LEN as int));
                proof {
                    let nodes = body_model(data@).0->Ma_0;
                    assert(tree.nodes@ =~= nodes) by {
                        assert forall|i: int| 0 <= i < context::MA_NODES implies tree.nodes@[i]
                            == nodes[i] by {
                            assert(tree.bytes()[2 * i] == data@.skip(1)[2 * i]);
                            assert(tree.bytes()[2 * i + 1] == data@.skip(1)[2 * i + 1]);
                        }
                    }
                }
                let mut dec = CabacDecoder::new(stream, k);
                return dec.decode_signed_array(pixel_count, &CtxModel::Ma(&tree), stride);
            },
            Err(_) => {
                return Vec::new();
            },
        }
    }
    let mut dec = CabacDecoder::new(body, k);
    if (flags / 2) % 2 == 1 {
        dec.decode_signed_array(pixel_count, &CtxModel::Gradient, stride)
    } else {
        dec.decode_signed_array(pixel_count, &CtxModel::Uniform, stride)
    }
}

/// Coding on top of the range coder loses nothing, in each of the three context models.
pub proof fn law_cabac_variant_roundtrip(
    vals: Seq<i32>,
    k: nat,
    stride: Option<usize>,
    variant: u8,
)
    requires
        vals.len() < u32::MAX,
        forall|i: int| 0 <= i < vals.len() ==> syn::mag(#[trigger] vals[i]) <= MAX_QUOTIENT,
    ensures
        body_ok(rle_cabac::variant_body(vals, k, stride, variant)),
        cabac_frame(
            rle_cabac::variant_body(vals, k, stride, variant),
            k,
            vals.len(),
            stride,
        ) == vals,
{
    let body = rle_cabac::variant_body(vals, k, stride, variant);
    let nodes = context::fitted_nodes(vals, stride);
    let m = if variant == 0 {
        ModelView::Ma(nodes)
    } else if variant == 1 {
        ModelView::Gradient
    } else {
        ModelView::Uniform
    };
    let stream = rle_cabac::cabac_stream(vals, k, m, stride);
    if variant == 0 {
        let t = rle_cabac::tree_bytes(nodes);
        assert forall|i: int| 0 <= i < context::MA_NODES implies #[trigger] body.skip(1)[2 * i]
            < 4 by {
            assert(body.skip(1)[2 * i] == t[2 * i]);
        }
        assert(body_model(body).0->Ma_0 =~= nodes) by {
            assert forall|i: int| 0 <= i < context::MA_NODES implies body_model(body).0->Ma_0[i]
                == nodes[i] by {
                assert(body[1 + 2 * i] == t[2 * i]);
                assert(body[2 + 2 * i] == t[2 * i + 1]);
            }
        }
        assert(body.skip(1 + context::MA_HEADER_LEN as int) =~= stream);
    } else {
        assert(body.skip(1) =~= stream);
    }
    assert(body_model(body) == (m, stream));
    let ops = syn::cabac_ops(vals, 0, false, k, m, stride);
    let probs = syn::init_probs(N_CTX as nat);
    rle_cabac::lemma_cabac_ops_valid(vals, 0, false, k, m, stride);
    rc::lemma_tracks_init(ops, probs);
    lemma_pow2_pos(k);
    assert forall|j: int| 0 <= j < vals.len() implies syn::mag(#[trigger] vals[j]) / pow2(k)
        <= MAX_QUOTIENT by {
        vstd::arithmetic::div_mod::lemma_div_is_ordered_by_denominator(
            syn::mag(vals[j]) as int,
            1,
            pow2(k) as int,
        );
    }
    assert(ops.subrange(0, ops.len() as int) =~= ops);
    let s = Dec { d: rc::dec_init(stream), pr: probs };
    syn::lemma_cabac_roundtrip(s, ops, probs, 0, vals, 0, false, k, m, stride, u64::MAX as nat);
    assert(vals.take(0) =~= Seq::<i32>::empty());
}

/// Payloads do not start with a damaged context tree.
pub proof fn lemma_body_ok(vals: Seq<i32>, stride: Option<usize>)
    ensures
        body_ok(rle_cabac::cabac_body(vals, stride)),
{
    let k = rle_cabac::cabac_k(vals);
    let v = lemma_best_is_variant(vals, k, stride, rle_cabac::variants_for(stride).len());
    let body = rle_cabac::variant_body(vals, k, stride, v);
    if v == 0 {
        let t = rle_cabac::tree_bytes(context::fitted_nodes(vals, stride));
        assert forall|i: int| 0 <= i < context::MA_NODES implies #[trigger] body.skip(1)[2 * i]
            < 4 by {
            assert(body.skip(1)[2 * i] == t[2 * i]);
        }
    }
}

/// The payload of the shortest variant decodes to the residuals it stands for.
pub proof fn law_cabac_roundtrip(vals: Seq<i32>, stride: Option<usize>)
    requires
        vals.len() < u32::MAX,
        forall|i: int| 0 <= i < vals.len() ==> syn::mag(#[trigger] vals[i]) <= MAX_QUOTIENT,
    ensures
        body_ok(rle_cabac::cabac_body(vals, stride)),
        cabac_frame(
            rle_cabac::cabac_body(vals, stride),
            rle_cabac::cabac_k(vals),
            vals.len(),
            stride,
        ) == vals,
{
    let k = rle_cabac::cabac_k(vals);
    let n = rle_cabac::variants_for(stride).len();
    let v = lemma_best_is_variant(vals, k, stride, n);
    law_cabac_variant_roundtrip(vals, k, stride, v);
}

proof fn lemma_best_is_variant(
    vals: Seq<i32>,
    k: nat,
    stride: Option<usize>,
    n: nat,
) -> (v: u8)
    ensures
        rle_cabac::best_body(vals, k, stride, n) == rle_cabac::variant_body(vals, k, stride, v),
    decreases n,
{
    let vs = rle_cabac::variants_for(stride);
    if n <= 1 {
        vs[0]
    } else {
        let b = lemma_best_is_variant(vals, k, stride, (n - 1) as nat);
        if rle_cabac::variant_body(vals, k, stride, vs[n - 1]).len() < rle_cabac::best_body(
            vals,
            k,
            stride,
            (n - 1) as nat,
        ).len() {
            vs[n - 1]
        } else {
            b
        }
    }
}

} // verus!

//! Encoder of the coefficients of blocks, on top of an adaptive binary range coder.

use vstd::prelude::*;
use crate::common::cabac_syntax as syn;
use crate::common::coeff_syntax as cs;
use crate::common::coeff_syntax::{COEFFS, CTX_LEVEL, CTX_NONZERO, CTX_RUN, MAX_RUN, N_COEFF_CTX};
use crate::common::range_coder as rc;
use crate::common::range_coder::{Op, INIT_PROB};
use crate::encoder::rle_cabac::{mag_u32, RangeEncoder};

verus! {

/// Writes blocks of coefficients.
pub struct CoeffCABAC {
    rc: RangeEncoder,
    probs: Vec<u16>,
    ops: Ghost<Seq<Op>>,
}

impl CoeffCABAC {
    pub closed spec fn wf(&self) -> bool {
        &&& self.rc.wf()
        &&& self.probs@.len() == N_COEFF_CTX
        &&& rc::valid_probs(self.probs@)
        &&& (self.rc@, self.probs@) == rc::rc_run(
            self.ops@,
            syn::init_probs(N_COEFF_CTX as nat),
        )
    }

    /// The decisions coded so far.
    pub closed spec fn view(&self) -> Seq<Op> {
        self.ops@
    }

    /// An encoder without blocks yet.
    pub fn new() -> (e: CoeffCABAC)
        ensures
            e.wf(),
            e@ == Seq::<Op>::empty(),
    {
        let e = CoeffCABAC {
            rc: RangeEncoder::new(),
            probs: vec![INIT_PROB; N_COEFF_CTX],
            ops: Ghost(Seq::empty()),
        };
        assert(e.probs@ =~= syn::init_probs(N_COEFF_CTX as nat));
        e
    }

    fn bit(&mut self, b: bool, ctx: usize)
        requires
            old(self).wf(),
            ctx < N_COEFF_CTX,
        ensures
            final(self).wf(),
            final(self)@ == old(self)@.push(syn::ctx_op(ctx as nat, b)),
    {
        let mut p: u16 = self.probs[ctx];
        let ghost ops0 = self.ops@;
        self.rc.encode_bit(b, &mut p);
        self.probs.set(ctx, p);
        self.ops = Ghost(ops0.push(syn::ctx_op(ctx as nat, b)));
        proof {
            assert(self.ops@.drop_last() =~= ops0);
        }
    }

    fn direct_bit(&mut self, b: bool)
        requires
            old(self).wf(),
        ensures
            final(self).wf(),
            final(self)@ == old(self)@.push(Op { ctx: None, bit: b }),
    {
        let ghost ops0 = self.ops@;
        self.rc.encode_direct(b);
        self.ops = Ghost(ops0.push(Op { ctx: None, bit: b }));
        proof {
            assert(self.ops@.drop_last() =~= ops0);
        }
    }

    fn put_run(&mut self, r: usize)
        requires
            old(self).wf(),
            r <= MAX_RUN,
        ensures
            final(self).wf(),
            final(self)@ == old(self)@ + cs::unary_ops(r as nat),
    {
        let ghost before = self@;
        let ghost all = cs::unary_ops(r as nat);
        let mut j: usize = 0;
        assert(before + all.take(0) =~= before);
        while j < r
            invariant
                self.wf(),
                j <= r <= MAX_RUN,
                all == cs::unary_ops(r as nat),
                self@ == before + all.take(j as int),
            decreases r - j,
        {
            self.bit(true, CTX_RUN);
            j = j + 1;
            assert(self@ =~= before + all.take(j as int));
        }
        if r < MAX_RUN {
            self.bit(false, CTX_RUN);
        }
        assert(self@ =~= before + all);
    }

    fn put_level(&mut self, v: i32)
        requires
            old(self).wf(),
        ensures
            final(self).wf(),
            final(self)@ == old(self)@ + cs::level_ops(v),
    {
        let ghost before = self@;
        let ghost all = cs::level_ops(v);
        let m: u32 = mag_u32(v);
        let mut j: u32 = 0;
        assert(before + all.take(0) =~= before);
        while j < m
            invariant
                self.wf(),
                j <= m,
                m == syn::mag(v),
                all == cs::level_ops(v),
                self@ == before + all.take(j as int),
            decreases m - j,
        {
            self.bit(true, CTX_LEVEL);
            j = j + 1;
            assert(self@ =~= before + all.take(j as int));
        }
        self.bit(false, CTX_LEVEL);
        self.direct_bit(v < 0);
        assert(self@ =~= before + all);
    }

    /// Codes the coefficients of a block, given in zigzag order.
    pub fn encode_block(&mut self, zigzag: &[i32])
        requires
            old(self).wf(),
            zigzag@.len() == COEFFS,
        ensures
            final(self).wf(),
            final(self)@ == old(self)@ + cs::block_ops(zigzag@),
    {
        let ghost before = self@;
        let mut last: usize = COEFFS;
        while last > 0 && zigzag[last - 1] == 0
            invariant
                last <= COEFFS,
                zigzag@.len() == COEFFS,
                cs::last_nonzero(zigzag@, COEFFS as nat) == cs::last_nonzero(zigzag@, last as nat),
            decreases last,
        {
            last = last - 1;
        }
        if last == 0 {
            self.bit(false, CTX_NONZERO);
            assert(self@ =~= before + cs::block_ops(zigzag@));
            return;
        }
        self.bit(true, CTX_NONZERO);
        let ghost goal = self@ + cs::pairs_ops(zigzag@, COEFFS as nat);
        let mut prev: usize = COEFFS;
        let mut i: usize = last;
        while i > 0
            invariant
                self.wf(),
                zigzag@.len() == COEFFS,
                i <= prev <= COEFFS,
                i == prev || cs::last_nonzero(zigzag@, prev as nat) == cs::last_nonzero(
                    zigzag@,
                    i as nat,
                ),
                prev == COEFFS ==> cs::last_nonzero(zigzag@, i as nat) is Some,
                goal == self@ + cs::pairs_ops(zigzag@, prev as nat),
            decreases i,
        {
            i = i - 1;
            if zigzag[i] != 0 {
                let ghost mid = self@;
                self.put_run(prev - i - 1);
                self.put_level(zigzag[i]);
                proof {
                    let a = cs::unary_ops((prev - i - 1) as nat);
                    let b = cs::level_ops(zigzag@[i as int]);
                    let rest = cs::pairs_ops(zigzag@, i as nat);
                    assert(mid + (a + b + rest) =~= self@ + rest);
                }
                prev = i;
            }
        }
        if prev > 0 {
            self.put_run(
                if prev < MAX_RUN {
                    prev
                } else {
                    MAX_RUN
                },
            );
        }
        assert(self@ =~= goal);
        assert(goal =~= before + cs::block_ops(zigzag@));
    }

    /// The bytes of the blocks.
    pub fn finish(self) -> (out: Vec<u8>)
        requires
            self.wf(),
        ensures
            out@ == rc::rc_bytes(self@, syn::init_probs(N_COEFF_CTX as nat)),
    {
        self.rc.finish()
    }
}

} // verus!

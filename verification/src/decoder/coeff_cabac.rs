//! Decoder of the coefficients of blocks.

use vstd::prelude::*;
use crate::common::cabac_syntax as syn;
use crate::common::cabac_syntax::{Dec, MAX_QUOTIENT};
use crate::common::coeff_syntax as cs;
use crate::common::coeff_syntax::{COEFFS, CTX_LEVEL, CTX_NONZERO, CTX_RUN, MAX_RUN, N_COEFF_CTX};
use crate::common::range_coder as rc;
use crate::common::range_coder::INIT_PROB;
use crate::decoder::rle_cabac::RangeDecoder;

verus! {

/// Reads blocks of coefficients.
pub struct CoeffCABACDecoder<'a> {
    rc: RangeDecoder<'a>,
    probs: Vec<u16>,
}

impl<'a> CoeffCABACDecoder<'a> {
    pub closed spec fn view(&self) -> Dec {
        Dec { d: self.rc@, pr: self.probs@ }
    }

    pub closed spec fn data(&self) -> Seq<u8> {
        self.rc.data()
    }

    pub closed spec fn wf(&self) -> bool {
        &&& self.rc.wf()
        &&& self.probs@.len() == N_COEFF_CTX
        &&& rc::valid_probs(self.probs@)
    }

    /// A decoder before the first block of `data`.
    pub fn new(data: &'a [u8]) -> (d: CoeffCABACDecoder<'a>)
        ensures
            d.wf(),
            d.data() == data@,
            d@ == cs::start(data@),
    {
        let d = CoeffCABACDecoder {
            rc: RangeDecoder::new(data),
            probs: vec![INIT_PROB; N_COEFF_CTX],
        };
        assert(d.probs@ =~= syn::init_probs(N_COEFF_CTX as nat));
        d
    }

    fn bit(&mut self, ctx: usize) -> (b: bool)
        requires
            old(self).wf(),
            ctx < N_COEFF_CTX,
        ensures
            final(self).wf(),
            final(self).data() == old(self).data(),
            (b, final(self)@) == syn::get_ctx(old(self)@, old(self).data(), ctx as nat),
    {
        let mut p: u16 = self.probs[ctx];
        let b: bool = self.rc.decode_bit(&mut p);
        self.probs.set(ctx, p);
        b
    }

    fn get_run(&mut self) -> (r: usize)
        requires
            old(self).wf(),
        ensures
            final(self).wf(),
            final(self).data() == old(self).data(),
            (r as nat, final(self)@) == cs::get_unary(old(self)@, old(self).data(), 0),
    {
        let ghost goal = cs::get_unary(self@, self.data(), 0);
        let ghost data = self.data();
        let mut r: usize = 0;
        while r < MAX_RUN
            invariant
                self.wf(),
                self.data() == data,
                data == old(self).data(),
                goal == cs::get_unary(old(self)@, data, 0),
                r <= MAX_RUN,
                cs::get_unary(self@, data, r as nat) == goal,
            decreases MAX_RUN - r,
        {
            let b: bool = self.bit(CTX_RUN);
            if !b {
                return r;
            }
            r = r + 1;
        }
        r
    }

    fn get_magnitude(&mut self) -> (m: u32)
        requires
            old(self).wf(),
        ensures
            final(self).wf(),
            final(self).data() == old(self).data(),
            (m as nat, final(self)@) == cs::get_level(old(self)@, old(self).data(), 0),
            m <= MAX_QUOTIENT + 1,
    {
        let ghost goal = cs::get_level(self@, self.data(), 0);
        let ghost data = self.data();
        let mut m: u32 = 0;
        loop
            invariant
                self.wf(),
                self.data() == data,
                data == old(self).data(),
                goal == cs::get_level(old(self)@, data, 0),
                m <= MAX_QUOTIENT,
                cs::get_level(self@, data, m as nat) == goal,
            decreases MAX_QUOTIENT + 1 - m,
        {
            let b: bool = self.bit(CTX_LEVEL);
            if !b {
                return m;
            }
            if m >= MAX_QUOTIENT {
                return m + 1;
            }
            m = m + 1;
        }
    }

    /// Reads the coefficients of a block, in zigzag order.
    pub fn decode_block(&mut self) -> (z: Vec<i32>)
        requires
            old(self).wf(),
        ensures
            final(self).wf(),
            final(self).data() == old(self).data(),
            (z@, final(self)@) == cs::block_at(old(self)@, old(self).data()),
            z@.len() == COEFFS,
    {
        let mut z: Vec<i32> = vec![0i32; COEFFS];
        assert(z@ =~= syn::zeros(COEFFS as nat));
        let ghost data = self.data();
        let ghost goal = cs::block_at(self@, data);
        let some: bool = self.bit(CTX_NONZERO);
        if !some {
            return z;
        }
        let mut prev: usize = COEFFS;
        while prev > 0
            invariant
                self.wf(),
                self.data() == data,
                data == old(self).data(),
                goal == cs::block_at(old(self)@, data),
                prev <= COEFFS,
                z@.len() == COEFFS,
                cs::pairs_at(self@, data, prev as nat, z@) == goal,
            decreases prev,
        {
            let r: usize = self.get_run();
            if r >= prev {
                return z;
            }
            let i: usize = prev - 1 - r;
            let m: u32 = self.get_magnitude();
            let neg: bool = self.rc.decode_direct();
            let v: i32 = if neg {
                -(m as i32)
            } else {
                m as i32
            };
            z.set(i, v);
            prev = i;
        }
        z
    }
}

} // verus!

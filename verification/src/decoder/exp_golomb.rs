//! Exp-Golomb decoder.

use vstd::prelude::*;
use vstd::arithmetic::power2::*;
use crate::common::bits;
use crate::common::bits::BitReader;
use crate::common::codes;
use crate::common::codes::zigzag_decode;

verus! {

/// A code with this many leading zeros, or more, reads as 0.
pub const EXP_CAP: u32 = 31;

/// Reads an Exp-Golomb code; one with `cap` leading zeros or more reads as 0.
pub fn get_exp_golomb(r: &mut BitReader<'_>, cap: u32) -> (v: u32)
    requires
        old(r).wf(),
        cap <= 32,
    ensures
        final(r).wf(),
        final(r).bits() == old(r).bits(),
        v == codes::exp_at(old(r).bits(), old(r).pos(), cap as nat).0,
        final(r).pos() == codes::exp_at(old(r).bits(), old(r).pos(), cap as nat).1,
{
    let ghost s = r.bits();
    let ghost p = r.pos();
    let m: u32 = r.read_zeros(cap);
    if m == cap {
        return 0;
    }
    proof {
        lemma2_to64();
        lemma_bits_val_bound(s, r.pos(), m as nat);
        lemma_pow2_strictly_increases(m as nat, 32);
        lemma_pow2_unfold(m as nat + 1);
        if m < 31 {
            lemma_pow2_strictly_increases(m as nat + 1, 32);
        }
        lemma_pow2_pos(m as nat);
    }
    let v: u32 = r.read_onto(1, m);
    v - 1
}

pub proof fn lemma_bits_val_bound(s: Seq<bool>, p: nat, n: nat)
    ensures
        bits::bits_val(s, p, n) < pow2(n),
    decreases n,
{
    lemma2_to64();
    if n > 0 {
        lemma_bits_val_bound(s, p, (n - 1) as nat);
        lemma_pow2_unfold(n);
    }
}

/// Reads a stream of Exp-Golomb codes.
pub struct ExpGolombDecoder<'a> {
    r: BitReader<'a>,
}

impl<'a> ExpGolombDecoder<'a> {
    pub closed spec fn wf(&self) -> bool {
        self.r.wf()
    }

    pub closed spec fn bits(&self) -> Seq<bool> {
        self.r.bits()
    }

    pub closed spec fn pos(&self) -> nat {
        self.r.pos()
    }

    /// A decoder at the start of `data`.
    pub fn new(data: &'a [u8]) -> (d: ExpGolombDecoder<'a>)
        ensures
            d.wf(),
            d.bits() == bits::bits_of(data@),
            d.pos() == 0,
    {
        ExpGolombDecoder { r: BitReader::new(data) }
    }

    /// Reads one value.
    pub fn decode_value(&mut self) -> (v: u32)
        requires
            old(self).wf(),
        ensures
            final(self).wf(),
            final(self).bits() == old(self).bits(),
            v == codes::exp_at(old(self).bits(), old(self).pos(), EXP_CAP as nat).0,
            final(self).pos() == codes::exp_at(
                old(self).bits(),
                old(self).pos(),
                EXP_CAP as nat,
            ).1,
    {
        get_exp_golomb(&mut self.r, EXP_CAP)
    }

    /// Reads one value and undoes its zigzag mapping.
    pub fn decode_signed(&mut self) -> (v: i32)
        requires
            old(self).wf(),
        ensures
            final(self).wf(),
            final(self).bits() == old(self).bits(),
            v == codes::unzigzag(
                codes::exp_at(old(self).bits(), old(self).pos(), EXP_CAP as nat).0 as u32,
            ),
            final(self).pos() == codes::exp_at(
                old(self).bits(),
                old(self).pos(),
                EXP_CAP as nat,
            ).1,
    {
        let u: u32 = self.decode_value();
        zigzag_decode(u)
    }

    /// Reads `count` values.
    pub fn decode_array(&mut self, count: usize) -> (out: Vec<u32>)
        requires
            old(self).wf(),
        ensures
            final(self).wf(),
            final(self).bits() == old(self).bits(),
            out@ == codes::exps_at(
                old(self).bits(),
                old(self).pos(),
                EXP_CAP as nat,
                count as nat,
            ).0,
            final(self).pos() == codes::exps_at(
                old(self).bits(),
                old(self).pos(),
                EXP_CAP as nat,
                count as nat,
            ).1,
    {
        let ghost s = self.bits();
        let ghost p = self.pos();
        let mut out: Vec<u32> = Vec::new();
        let mut i: usize = 0;
        while i < count
            invariant
                self.wf(),
                self.bits() == s,
                i <= count,
                (out@, self.pos()) == codes::exps_at(s, p, EXP_CAP as nat, i as nat),
            decreases count - i,
        {
            let v: u32 = self.decode_value();
            out.push(v);
            i = i + 1;
        }
        out
    }

    /// Reads `count` values and undoes their zigzag mapping.
    pub fn decode_signed_array(&mut self, count: usize) -> (out: Vec<i32>)
        requires
            old(self).wf(),
        ensures
            final(self).wf(),
            final(self).bits() == old(self).bits(),
            out@ == codes::unzigzags(
                codes::exps_at(
                    old(self).bits(),
                    old(self).pos(),
                    EXP_CAP as nat,
                    count as nat,
                ).0,
            ),
            final(self).pos() == codes::exps_at(
                old(self).bits(),
                old(self).pos(),
                EXP_CAP as nat,
                count as nat,
            ).1,
    {
        let u: Vec<u32> = self.decode_array(count);
        unzigzag_all(&u)
    }

    /// Whether a byte is left.
    pub fn has_remaining(&self) -> (b: bool)
        requires
            self.wf(),
        ensures
            b == (self.pos() < self.bits().len()),
    {
        self.r.has_remaining()
    }
}

/// The values that zigzag images stand for.
pub fn unzigzag_all(u: &[u32]) -> (out: Vec<i32>)
    ensures
        out@ == codes::unzigzags(u@),
{
    let mut out: Vec<i32> = Vec::with_capacity(u.len());
    let mut i: usize = 0;
    while i < u.len()
        invariant
            i <= u@.len(),
            out@ == codes::unzigzags(u@).take(i as int),
        decreases u@.len() - i,
    {
        out.push(zigzag_decode(u[i]));
        i = i + 1;
        assert(out@ =~= codes::unzigzags(u@).take(i as int));
    }
    assert(out@ =~= codes::unzigzags(u@));
    out
}

/// The `n` samples that Exp-Golomb coded `data` stand for.
pub open spec fn exp_frame(data: Seq<u8>, n: nat) -> Seq<i32> {
    codes::unzigzags(codes::exps_at(bits::bits_of(data), 0, EXP_CAP as nat, n).0)
}

/// Decodes the samples of an Exp-Golomb coded frame.
pub fn decode_frame_exp_golomb(data: &[u8], pixel_count: usize) -> (out: Vec<i32>)
    ensures
        out@ == exp_frame(data@, pixel_count as nat),
{
    let mut d = ExpGolombDecoder::new(data);
    d.decode_signed_array(pixel_count)
}

/// Samples whose zigzag image is below `2^31 - 1` survive Exp-Golomb coding.
pub proof fn law_exp_golomb_roundtrip(vals: Seq<i32>)
    requires
        forall|i: int| 0 <= i < vals.len() ==> -0x4000_0000 < #[trigger] vals[i] < 0x4000_0000,
    ensures
        exp_frame(bits::pack(codes::exp_bits(codes::zigzags(vals))), vals.len()) == vals,
{
    let zz = codes::zigzags(vals);
    let code = codes::exp_bits(zz);
    bits::lemma_packed_holds(code);
    lemma2_to64();
    assert forall|i: int| 0 <= i < zz.len() implies codes::ilog2(#[trigger] zz[i] as nat + 1)
        < 31 by {
        assert(-0x4000_0000 < vals[i] < 0x4000_0000);
        assert(zz[i] as nat + 1 <= 0x7fff_ffff);
        codes::lemma_ilog2_below(zz[i] as nat + 1, 31);
    }
    codes::lemma_exps_roundtrip(bits::bits_of(bits::pack(code)), 0, zz, 31);
    codes::lemma_unzigzags(vals);
}

} // verus!

//! Exp-Golomb encoder.

use vstd::prelude::*;
use vstd::arithmetic::power2::*;
use crate::common::bits;
use crate::common::bits::BitWriter;
use crate::common::choose_k::floor_log2;
use crate::common::codes;
use crate::common::codes::zigzag_encode;
use crate::common::error::CrfResult;

verus! {

/// Appends the Exp-Golomb code of `value`.
pub fn put_exp_golomb(w: &mut BitWriter, value: u32)
    requires
        old(w).wf(),
        value < u32::MAX,
    ensures
        final(w).wf(),
        final(w)@ == old(w)@ + codes::exp_code(value as nat),
{
    let vp1: u32 = value + 1;
    let m: u32 = floor_log2(vp1);
    let total: u32 = 2 * m + 1;
    let ghost before = w@;
    proof {
        lemma2_to64();
        lemma2_to64_rest();
        if m > 0 {
            lemma_pow2_strictly_increases(m as nat + 1, total as nat);
        }
    }
    if total <= 57 {
        w.put(vp1 as u64, total);
    } else {
        proof {
            lemma_pow2_pos(m as nat);
            bits::lemma_nat_bits_split(0, vp1 as nat, m as nat, m as nat + 1);
            assert(0 * pow2(m as nat + 1) + vp1 as nat == vp1);
        }
        w.put(0, m);
        w.put(vp1 as u64, m + 1);
        assert(w@ =~= before + codes::exp_code(value as nat));
    }
}

/// Writes a stream of Exp-Golomb codes.
pub struct ExpGolombEncoder {
    w: BitWriter,
}

impl ExpGolombEncoder {
    pub closed spec fn wf(&self) -> bool {
        self.w.wf()
    }

    /// The bits written so far.
    pub closed spec fn view(&self) -> Seq<bool> {
        self.w@
    }

    /// An encoder without output yet.
    pub fn new() -> (e: ExpGolombEncoder)
        ensures
            e.wf(),
            e@ == Seq::<bool>::empty(),
    {
        ExpGolombEncoder { w: BitWriter::new() }
    }

    /// Appends the code of `value`.
    pub fn encode_value(&mut self, value: u32)
        requires
            old(self).wf(),
            value < u32::MAX,
        ensures
            final(self).wf(),
            final(self)@ == old(self)@ + codes::exp_code(value as nat),
    {
        put_exp_golomb(&mut self.w, value);
    }

    /// Appends the code of the zigzag image of `value`.
    pub fn encode_signed(&mut self, value: i32)
        requires
            old(self).wf(),
            value > i32::MIN,
        ensures
            final(self).wf(),
            final(self)@ == old(self)@ + codes::exp_code(codes::zigzag(value)),
    {
        let u: u32 = zigzag_encode(value);
        self.encode_value(u);
    }

    /// Appends the codes of `values`.
    pub fn encode_array(&mut self, values: &[u32])
        requires
            old(self).wf(),
            forall|i: int| 0 <= i < values@.len() ==> values@[i] < u32::MAX,
        ensures
            final(self).wf(),
            final(self)@ == old(self)@ + codes::exp_bits(values@),
    {
        let ghost before = self@;
        let mut i: usize = 0;
        assert(values@.take(0) =~= Seq::<u32>::empty());
        assert(before + codes::exp_bits(values@.take(0)) =~= before);
        while i < values.len()
            invariant
                self.wf(),
                i <= values@.len(),
                forall|i: int| 0 <= i < values@.len() ==> values@[i] < u32::MAX,
                self@ == before + codes::exp_bits(values@.take(i as int)),
            decreases values@.len() - i,
        {
            proof {
                assert(values@.take(i + 1).drop_last() =~= values@.take(i as int));
            }
            self.encode_value(values[i]);
            i = i + 1;
            assert(self@ =~= before + codes::exp_bits(values@.take(i as int)));
        }
        assert(values@.take(i as int) =~= values@);
    }

    /// Appends the codes of the zigzag images of `values`.
    pub fn encode_signed_array(&mut self, values: &[i32])
        requires
            old(self).wf(),
            forall|i: int| 0 <= i < values@.len() ==> values@[i] > i32::MIN,
        ensures
            final(self).wf(),
            final(self)@ == old(self)@ + codes::exp_bits(codes::zigzags(values@)),
    {
        let ghost before = self@;
        let ghost zz = codes::zigzags(values@);
        let mut i: usize = 0;
        assert(zz.take(0) =~= Seq::<u32>::empty());
        assert(before + codes::exp_bits(zz.take(0)) =~= before);
        while i < values.len()
            invariant
                self.wf(),
                i <= values@.len(),
                zz == codes::zigzags(values@),
                forall|i: int| 0 <= i < values@.len() ==> values@[i] > i32::MIN,
                self@ == before + codes::exp_bits(zz.take(i as int)),
            decreases values@.len() - i,
        {
            proof {
                assert(zz.take(i + 1).drop_last() =~= zz.take(i as int));
            }
            self.encode_signed(values[i]);
            i = i + 1;
            assert(self@ =~= before + codes::exp_bits(zz.take(i as int)));
        }
        assert(zz.take(i as int) =~= zz);
    }

    /// The bytes of the stream.
    pub fn finish(self) -> (out: Vec<u8>)
        requires
            self.wf(),
        ensures
            out@ == bits::pack(self@),
    {
        self.w.finish()
    }

    /// Number of bytes that [`finish`](Self::finish) would return.
    pub fn buffer_len(&self) -> (n: usize)
        requires
            self.wf(),
            self@.len() <= usize::MAX,
        ensures
            n == (self@.len() + 7) / 8,
    {
        self.w.byte_len()
    }
}

/// Exp-Golomb codes the samples of a frame.
pub fn encode_frame_exp_golomb(pixels: &[i32]) -> (r: CrfResult<Vec<u8>>)
    requires
        forall|i: int| 0 <= i < pixels@.len() ==> pixels@[i] > i32::MIN,
    ensures
        r is Ok,
        r->Ok_0@ == bits::pack(codes::exp_bits(codes::zigzags(pixels@))),
{
    let mut e = ExpGolombEncoder::new();
    let ghost before = e@;
    e.encode_signed_array(pixels);
    assert(e@ =~= codes::exp_bits(codes::zigzags(pixels@)));
    Ok(e.finish())
}

} // verus!

//! Zero-run encoder: Exp-Golomb codes for runs of zeros, Golomb-Rice codes for other values.

use vstd::prelude::*;
use crate::common::bits;
use crate::common::bits::BitWriter;
use crate::common::choose_k;
use crate::common::choose_k::{adaptive_k, best_k_exec};
use crate::common::codes;
use crate::common::codes::zigzag_encode;
use crate::common::error::CrfResult;
use crate::encoder::exp_golomb::put_exp_golomb;
use crate::encoder::golomb::{put_golomb, zigzag_all};

verus! {

/// The parameter that [`best_k_by_histogram`] returns.
pub open spec fn best_k(vals: Seq<i32>) -> nat {
    choose_k::best_k_of(codes::zigzags(vals))
}

/// The bits that stand for `vals` with parameter `k`.
pub open spec fn rle_code(vals: Seq<i32>, k: nat) -> Seq<bool> {
    codes::rle_bits(vals, 0, k)
}

/// The bytes that stand for `vals` with parameter `k`.
pub open spec fn rle_bytes(vals: Seq<i32>, k: nat) -> Seq<u8> {
    bits::pack(rle_code(vals, k))
}

/// Writes a zero-run code.
pub struct RleGolombEncoder {
    k: u8,
    w: BitWriter,
}

impl RleGolombEncoder {
    pub closed spec fn wf(&self) -> bool {
        self.w.wf() && self.k < 32
    }

    /// The bits written so far.
    pub closed spec fn view(&self) -> Seq<bool> {
        self.w@
    }

    pub closed spec fn spec_k(&self) -> u8 {
        self.k
    }

    /// An encoder with parameter `k`.
    pub fn new(k: u8) -> (e: RleGolombEncoder)
        requires
            k < 32,
        ensures
            e.wf(),
            e.spec_k() == k,
            e@ == Seq::<bool>::empty(),
    {
        RleGolombEncoder { k, w: BitWriter::new() }
    }

    /// An encoder whose parameter suits the mean of the zigzag images of `values`.
    pub fn adaptive(values: &[i32]) -> (e: RleGolombEncoder)
        requires
            values@.len() <= u32::MAX,
        ensures
            e.wf(),
            e.spec_k() == choose_k::adaptive_k_spec(codes::zigzags(values@)),
            e@ == Seq::<bool>::empty(),
    {
        let u: Vec<u32> = zigzag_all(values);
        let k: u8 = adaptive_k(&u);
        Self::new(k)
    }

    /// The parameter.
    pub fn k(&self) -> (k: u8)
        ensures
            k == self.spec_k(),
    {
        self.k
    }

    /// Writes the symbol at `values[i]` and returns the index behind it.
    fn encode_symbol(&mut self, values: &[i32], i: usize) -> (j: usize)
        requires
            old(self).wf(),
            i < values@.len() < u32::MAX,
        ensures
            final(self).wf(),
            final(self).spec_k() == old(self).spec_k(),
            i < j <= values@.len(),
            old(self)@ + codes::rle_bits(values@, i as nat, old(self).spec_k() as nat)
                == final(self)@ + codes::rle_bits(values@, j as nat, old(self).spec_k() as nat),
    {
        let ghost before = self@;
        let ghost k = self.spec_k() as nat;
        if values[i] == 0 {
            let mut j: usize = i;
            proof {
                codes::lemma_zero_run(values@, i as nat);
            }
            while j < values.len() && values[j] == 0
                invariant
                    i <= j <= values@.len(),
                    j - i + codes::zero_run(values@, j as nat) == codes::zero_run(
                        values@,
                        i as nat,
                    ),
                decreases values@.len() - j,
            {
                j = j + 1;
            }
            let run: u32 = (j - i) as u32;
            self.w.put_bit(true);
            put_exp_golomb(&mut self.w, run);
            proof {
                let rest = codes::rle_bits(values@, j as nat, k);
                assert(before + (seq![true] + codes::exp_code(run as nat) + rest) =~= self@ + rest);
            }
            j
        } else {
            self.w.put_bit(false);
            let u: u32 = zigzag_encode(values[i]);
            put_golomb(&mut self.w, u, self.k);
            proof {
                let rest = codes::rle_bits(values@, (i + 1) as nat, k);
                assert(before + (seq![false] + codes::golomb_code(u as nat, k) + rest) =~= self@
                    + rest);
            }
            i + 1
        }
    }

    /// Appends the code of `values`.
    pub fn encode_signed_array(&mut self, values: &[i32])
        requires
            old(self).wf(),
            values@.len() < u32::MAX,
        ensures
            final(self).wf(),
            final(self).spec_k() == old(self).spec_k(),
            final(self)@ == old(self)@ + rle_code(values@, old(self).spec_k() as nat),
    {
        let ghost goal = self@ + rle_code(values@, self.spec_k() as nat);
        let ghost k = self.spec_k();
        let mut i: usize = 0;
        while i < values.len()
            invariant
                self.wf(),
                self.spec_k() == k,
                i <= values@.len() < u32::MAX,
                goal == self@ + codes::rle_bits(values@, i as nat, k as nat),
            decreases values@.len() - i,
        {
            i = self.encode_symbol(values, i);
        }
        assert(goal =~= self@);
    }

    /// Appends the code of `values` and returns the bytes of the stream, unless they are more than
    /// `byte_limit`. Stops as soon as the limit is passed; the encoder is then of no further use.
    pub fn encode_signed_array_limited(&mut self, values: &[i32], byte_limit: usize) -> (r: Option<
        Vec<u8>,
    >)
        requires
            old(self).wf(),
            values@.len() < u32::MAX,
        ensures
            ({
                let all = bits::pack(
                    old(self)@ + rle_code(values@, old(self).spec_k() as nat),
                );
                if all.len() <= byte_limit {
                    r is Some && r->0@ == all
                } else {
                    r is None
                }
            }),
    {
        let ghost goal = self@ + rle_code(values@, self.spec_k() as nat);
        let ghost k = self.spec_k();
        proof {
            bits::lemma_pack(goal);
        }
        let mut i: usize = 0;
        while i < values.len()
            invariant
                self.wf(),
                self.spec_k() == k,
                i <= values@.len() < u32::MAX,
                goal == self@ + codes::rle_bits(values@, i as nat, k as nat),
                goal == old(self)@ + rle_code(values@, old(self).spec_k() as nat),
                bits::pack(goal).len() == (goal.len() + 7) / 8,
            decreases values@.len() - i,
        {
            if self.w.exceeds(byte_limit) {
                return None;
            }
            i = self.encode_symbol(values, i);
        }
        assert(goal =~= self@);
        if self.w.exceeds(byte_limit) {
            return None;
        }
        let mut w = BitWriter::new();
        std::mem::swap(&mut w, &mut self.w);
        Some(w.finish())
    }

    /// The bytes of the stream.
    pub fn finish(self) -> (out: Vec<u8>)
        requires
            self.wf(),
        ensures
            out@ == bits::pack(self@),
    {
        self.w.finish()
    }
}

/// Zero-run codes the samples of a frame with parameter `k`.
pub fn encode_frame_rle_golomb(pixels: &[i32], k: u8) -> (r: CrfResult<(Vec<u8>, u8)>)
    requires
        k < 32,
        pixels@.len() < u32::MAX,
    ensures
        r is Ok,
        r->Ok_0.0@ == rle_bytes(pixels@, k as nat),
        r->Ok_0.1 == k,
{
    let mut e = RleGolombEncoder::new(k);
    e.encode_signed_array(pixels);
    assert(e@ =~= rle_code(pixels@, k as nat));
    Ok((e.finish(), k))
}

/// The parameter up to [`HIST_MAX_K`](choose_k::HIST_MAX_K) for which the codes of the nonzero
/// values are shortest; the first such, should there be several.
pub fn best_k_by_histogram(values: &[i32]) -> (k: u8)
    requires
        values@.len() < u32::MAX,
    ensures
        choose_k::is_best_k(codes::zigzags(values@), k as nat),
        k == best_k(values@),
{
    let u: Vec<u32> = zigzag_all(values);
    best_k_exec(&u)
}

/// Zero-run codes the samples of a frame with the parameter of [`best_k_by_histogram`].
pub fn encode_frame_rle_golomb_adaptive(pixels: &[i32]) -> (r: CrfResult<(Vec<u8>, u8)>)
    requires
        pixels@.len() < u32::MAX,
    ensures
        r is Ok,
        r->Ok_0.1 == best_k(pixels@),
        r->Ok_0.1 <= choose_k::HIST_MAX_K,
        r->Ok_0.0@ == rle_bytes(pixels@, best_k(pixels@)),
{
    let k: u8 = best_k_by_histogram(pixels);
    encode_frame_rle_golomb(pixels, k)
}

/// [`encode_frame_rle_golomb_adaptive`], given up as soon as more than `byte_limit` bytes come out.
pub fn encode_frame_rle_golomb_adaptive_limited(pixels: &[i32], byte_limit: usize) -> (r: CrfResult<
    Option<(Vec<u8>, u8)>,
>)
    requires
        pixels@.len() < u32::MAX,
    ensures
        r is Ok,
        ({
            let all = rle_bytes(pixels@, best_k(pixels@));
            if all.len() <= byte_limit {
                r->Ok_0 is Some && (r->Ok_0->Some_0).0@ == all && (r->Ok_0->Some_0).1 == best_k(pixels@)
            } else {
                r->Ok_0 is None
            }
        }),
{
    let k: u8 = best_k_by_histogram(pixels);
    let mut e = RleGolombEncoder::new(k);
    assert(e@ + rle_code(pixels@, k as nat) =~= rle_code(pixels@, k as nat));
    match e.encode_signed_array_limited(pixels, byte_limit) {
        Some(data) => Ok(Some((data, k))),
        None => Ok(None),
    }
}

} // verus!

//! Decoder of zero-run codes.

use vstd::prelude::*;
use crate::common::bits;
use crate::common::bits::BitReader;
use crate::common::codes;
use crate::common::codes::zigzag_decode;
use crate::decoder::exp_golomb::get_exp_golomb;
use crate::decoder::golomb::get_golomb;
use crate::encoder::rle_golomb;

verus! {

/// Reads a zero-run code.
pub struct RleGolombDecoder<'a> {
    r: BitReader<'a>,
    k: u8,
}

impl<'a> RleGolombDecoder<'a> {
    pub closed spec fn wf(&self) -> bool {
        self.r.wf()
    }

    pub closed spec fn bits(&self) -> Seq<bool> {
        self.r.bits()
    }

    pub closed spec fn pos(&self) -> nat {
        self.r.pos()
    }

    pub closed spec fn spec_k(&self) -> u8 {
        self.k
    }

    /// A decoder at the start of `data`.
    pub fn new(data: &'a [u8], k: u8) -> (d: RleGolombDecoder<'a>)
        ensures
            d.wf(),
            d.bits() == bits::bits_of(data@),
            d.pos() == 0,
            d.spec_k() == k,
    {
        RleGolombDecoder { r: BitReader::new(data), k }
    }

    /// Reads `count` values.
    pub fn decode_signed_array(&mut self, count: usize) -> (out: Vec<i32>)
        requires
            old(self).wf(),
        ensures
            final(self).wf(),
            final(self).bits() == old(self).bits(),
            final(self).spec_k() == old(self).spec_k(),
            (out@, final(self).pos()) == codes::rle_at(
                old(self).bits(),
                old(self).pos(),
                old(self).spec_k() as nat,
                count as nat,
            ),
    {
        let ghost s = self.bits();
        let ghost p0 = self.pos();
        let ghost k = self.spec_k();
        let ghost goal = codes::rle_at(s, p0, k as nat, count as nat);
        let mut out: Vec<i32> = Vec::new();
        let mut remaining: usize = count;
        proof {
            self.r.lemma_pos();
            assert(goal.0 =~= out@ + goal.0);
        }
        while remaining > 0
            invariant
                self.wf(),
                self.bits() == s,
                self.spec_k() == k,
                self.pos() <= s.len(),
                ({
                    let (rest, p) = codes::rle_at(s, self.pos(), k as nat, remaining as nat);
                    goal == (out@ + rest, p)
                }),
            decreases remaining, s.len() - self.pos(),
        {
            let ghost out0 = out@;
            let ghost rest0 = codes::rle_at(s, self.pos(), k as nat, remaining as nat).0;
            let is_run: bool = self.r.read_bit();
            if is_run {
                let run: u32 = get_exp_golomb(&mut self.r, 32);
                let actual: usize = if (run as usize) < remaining {
                    run as usize
                } else {
                    remaining
                };
                let mut j: usize = 0;
                while j < actual
                    invariant
                        j <= actual,
                        out@ == out0 + Seq::new(j as nat, |i: int| 0i32),
                    decreases actual - j,
                {
                    out.push(0);
                    j = j + 1;
                    assert(out@ =~= out0 + Seq::new(j as nat, |i: int| 0i32));
                }
                remaining = remaining - actual;
            } else {
                let u: u32 = get_golomb(&mut self.r, self.k);
                out.push(zigzag_decode(u));
                remaining = remaining - 1;
            }
            proof {
                let rest = codes::rle_at(s, self.pos(), k as nat, remaining as nat).0;
                assert(out0 + rest0 =~= out@ + rest);
            }
        }
        assert(goal.0 =~= out@);
        out
    }
}

/// The `n` samples that zero-run coded `data` stand for.
pub open spec fn rle_frame(data: Seq<u8>, k: nat, n: nat) -> Seq<i32> {
    codes::rle_at(bits::bits_of(data), 0, k, n).0
}

/// Zero-run codes give as many values as are asked for.
pub proof fn lemma_rle_len(s: Seq<bool>, p: nat, k: nat, n: nat)
    ensures
        codes::rle_at(s, p, k, n).0.len() == n,
    decreases n, s.len() - p,
{
    if n > 0 {
        if bits::bit_at(s, p) {
            let (run, p1) = codes::exp_at(s, p + 1, 32);
            let m = if run < n {
                run
            } else {
                n
            };
            lemma_rle_len(s, p1, k, (n - m) as nat);
        } else {
            let (u, p1) = codes::golomb_at(s, p + 1, k);
            lemma_rle_len(s, p1, k, (n - 1) as nat);
        }
    }
}

/// Decodes the samples of a zero-run coded frame.
pub fn decode_frame_rle_golomb(data: &[u8], k: u8, pixel_count: usize) -> (out: Vec<i32>)
    ensures
        out@ == rle_frame(data@, k as nat, pixel_count as nat),
{
    let mut d = RleGolombDecoder::new(data, k);
    d.decode_signed_array(pixel_count)
}

/// Zero-run coding loses nothing, whatever the parameter.
pub proof fn law_rle_golomb_roundtrip(vals: Seq<i32>, k: nat)
    requires
        vals.len() < u32::MAX,
    ensures
        rle_frame(rle_golomb::rle_bytes(vals, k), k, vals.len()) == vals,
{
    let code = rle_golomb::rle_code(vals, k);
    bits::lemma_packed_holds(code);
    codes::lemma_rle_roundtrip(bits::bits_of(bits::pack(code)), 0, vals, 0, k);
    assert(vals.skip(0) =~= vals);
}

} // verus!

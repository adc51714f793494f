//! Golomb-Rice encoder.

use vstd::prelude::*;
use vstd::arithmetic::power2::*;
use crate::common::bits;
use crate::common::bits::BitWriter;
use crate::common::blocks;
use crate::common::blocks::{get_tile, Grid};
use crate::common::choose_k;
use crate::common::choose_k::adaptive_k;
use crate::common::codes;
use crate::common::codes::zigzag_encode;
use crate::common::error::CrfResult;
use crate::common::le;
use crate::common::le::{put_bytes, put_le32};

verus! {

/// Appends the Golomb-Rice code of `value`; all but the end of a long quotient goes byte by byte.
pub fn put_golomb(w: &mut BitWriter, value: u32, k: u8)
    requires
        old(w).wf(),
        k < 32,
    ensures
        final(w).wf(),
        final(w)@ == old(w)@ + codes::golomb_code(value as nat, k as nat),
{
    let ghost before = w@;
    let ghost d = pow2(k as nat);
    proof {
        lemma2_to64();
        lemma2_to64_rest();
        lemma_pow2_pos(k as nat);
        vstd::bits::lemma_u32_shl_is_mul(1, k as u32);
        vstd::bits::lemma_u32_shr_is_div(value, k as u32);
        lemma_pow2_strictly_increases(k as nat, 32);
    }
    let r: u64 = (value % (1u32 << (k as u32))) as u64;
    let mut q: u64 = (value >> (k as u32)) as u64;
    let ghost q0 = q as nat;
    let room: u32 = 56 - k as u32;
    assert(before + bits::repeat_bit(true, 0) =~= before);
    if q > room as u64 {
        w.put_ones(q - room as u64);
        q = room as u64;
    }
    assert(w@ == before + bits::repeat_bit(true, (q0 - q) as nat));
    let n: u32 = q as u32 + 1 + k as u32;
    proof {
        lemma2_to64();
        lemma2_to64_rest();
        let qn = q as nat;
        let kn = k as nat;
        bits::lemma_nat_bits_ones(qn);
        lemma_pow2_pos(qn);
        lemma_pow2_adds(qn, 1 + kn);
        lemma_pow2_unfold(1 + kn);
        if n < 57 {
            lemma_pow2_strictly_increases(n as nat, 57);
        }
        let ones = (pow2(qn) - 1) as nat;
        assert(ones * pow2(1 + kn) + pow2(1 + kn) == pow2(n as nat)) by (nonlinear_arith)
            requires
                ones + 1 == pow2(qn),
                pow2(qn) * pow2(1 + kn) == pow2(n as nat),
        ;
        assert(pow2(qn) <= pow2(n as nat)) by {
            lemma_pow2_strictly_increases(qn, n as nat);
        }
        vstd::bits::lemma_u64_shl_is_mul(1, q);
        vstd::bits::lemma_u64_shl_is_mul(ones as u64, (1 + k) as u64);
        bits::lemma_nat_bits_split(ones, r as nat, qn, 1 + kn);
        bits::lemma_nat_bits_split(0, r as nat, 1, kn);
        assert(0 * pow2(kn) + r as nat == r as nat);
        bits::lemma_nat_bits_zero(1);
    }
    let head: u64 = ((1u64 << q) - 1) << ((1 + k) as u64);
    w.put(head + r, n);
    proof {
        assert(w@ =~= before + codes::golomb_code(value as nat, k as nat));
    }
}

/// Writes a stream of Golomb-Rice codes.
pub struct GolombEncoder {
    k: u8,
    w: BitWriter,
}

impl GolombEncoder {
    pub closed spec fn wf(&self) -> bool {
        self.w.wf() && self.k < 32
    }

    /// The bits written so far.
    pub closed spec fn view(&self) -> Seq<bool> {
        self.w@
    }

    pub closed spec fn spec_k(&self) -> u8 {
        self.k
    }

    /// An encoder with parameter `k`.
    pub fn new(k: u8) -> (e: GolombEncoder)
        requires
            k < 32,
        ensures
            e.wf(),
            e.spec_k() == k,
            e@ == Seq::<bool>::empty(),
    {
        GolombEncoder { k, w: BitWriter::new() }
    }

    /// An encoder whose parameter suits the mean of `values`.
    pub fn adaptive(values: &[u32]) -> (e: GolombEncoder)
        requires
            values@.len() <= u32::MAX,
        ensures
            e.wf(),
            e.spec_k() == choose_k::adaptive_k_spec(values@),
            e@ == Seq::<bool>::empty(),
    {
        let k: u8 = adaptive_k(values);
        Self::new(k)
    }

    /// The parameter.
    pub fn k(&self) -> (k: u8)
        ensures
            k == self.spec_k(),
    {
        self.k
    }

    /// Appends the code of `value`.
    pub fn encode_value(&mut self, value: u32)
        requires
            old(self).wf(),
        ensures
            final(self).wf(),
            final(self).spec_k() == old(self).spec_k(),
            final(self)@ == old(self)@ + codes::golomb_code(
                value as nat,
                old(self).spec_k() as nat,
            ),
    {
        put_golomb(&mut self.w, value, self.k);
    }

    /// Appends the code of the zigzag image of `value`.
    pub fn encode_signed(&mut self, value: i32)
        requires
            old(self).wf(),
        ensures
            final(self).wf(),
            final(self).spec_k() == old(self).spec_k(),
            final(self)@ == old(self)@ + codes::golomb_code(
                codes::zigzag(value),
                old(self).spec_k() as nat,
            ),
    {
        let u: u32 = zigzag_encode(value);
        self.encode_value(u);
    }

    /// Appends the codes of `values`.
    pub fn encode_array(&mut self, values: &[u32])
        requires
            old(self).wf(),
        ensures
            final(self).wf(),
            final(self).spec_k() == old(self).spec_k(),
            final(self)@ == old(self)@ + codes::golomb_bits(values@, old(self).spec_k() as nat),
    {
        let ghost before = self@;
        let ghost k = self.spec_k();
        let mut i: usize = 0;
        assert(values@.take(0) =~= Seq::<u32>::empty());
        assert(before + codes::golomb_bits(values@.take(0), k as nat) =~= before);
        while i < values.len()
            invariant
                self.wf(),
                self.spec_k() == k,
                i <= values@.len(),
                self@ == before + codes::golomb_bits(values@.take(i as int), k as nat),
            decreases values@.len() - i,
        {
            proof {
                assert(values@.take(i + 1).drop_last() =~= values@.take(i as int));
            }
            self.encode_value(values[i]);
            i = i + 1;
            assert(self@ =~= before + codes::golomb_bits(values@.take(i as int), k as nat));
        }
        assert(values@.take(i as int) =~= values@);
    }

    /// Appends the codes of the zigzag images of `values`.
    pub fn encode_signed_array(&mut self, values: &[i32])
        requires
            old(self).wf(),
        ensures
            final(self).wf(),
            final(self).spec_k() == old(self).spec_k(),
            final(self)@ == old(self)@ + codes::golomb_bits(
                codes::zigzags(values@),
                old(self).spec_k() as nat,
            ),
    {
        let u: Vec<u32> = zigzag_all(values);
        self.encode_array(&u);
    }

    /// The bytes of the stream.
    pub fn finish(self) -> (out: Vec<u8>)
        requires
            self.wf(),
        ensures
            out@ == bits::pack(self@),
    {
        self.w.finish()
    }

    /// Number of bytes that [`finish`](Self::finish) would return.
    pub fn buffer_len(&self) -> (n: usize)
        requires
            self.wf(),
            self@.len() <= usize::MAX,
        ensures
            n == (self@.len() + 7) / 8,
    {
        self.w.byte_len()
    }
}

/// The zigzag images of `values`.
pub fn zigzag_all(values: &[i32]) -> (u: Vec<u32>)
    ensures
        u@ == codes::zigzags(values@),
{
    let mut u: Vec<u32> = Vec::with_capacity(values.len());
    let mut i: usize = 0;
    while i < values.len()
        invariant
            i <= values@.len(),
            u@ == codes::zigzags(values@).take(i as int),
        decreases values@.len() - i,
    {
        u.push(zigzag_encode(values[i]));
        i = i + 1;
        assert(u@ =~= codes::zigzags(values@).take(i as int));
    }
    assert(u@ =~= codes::zigzags(values@));
    u
}

/// Golomb-Rice codes the samples of a frame with parameter `k`.
pub fn encode_frame_golomb(pixels: &[i32], k: u8) -> (r: CrfResult<(Vec<u8>, u8)>)
    requires
        k < 32,
    ensures
        r is Ok,
        r->Ok_0.0@ == bits::pack(codes::golomb_bits(codes::zigzags(pixels@), k as nat)),
        r->Ok_0.1 == k,
{
    let u: Vec<u32> = zigzag_all(pixels);
    let mut e = GolombEncoder::new(k);
    e.encode_array(&u);
    assert(e@ =~= codes::golomb_bits(u@, k as nat));
    Ok((e.finish(), k))
}

/// Golomb-Rice codes the samples of a frame with the parameter that suits their mean.
pub fn encode_frame_golomb_adaptive(pixels: &[i32]) -> (r: CrfResult<(Vec<u8>, u8)>)
    requires
        pixels@.len() <= u32::MAX,
    ensures
        r is Ok,
        r->Ok_0.1 == choose_k::adaptive_k_spec(codes::zigzags(pixels@)),
        r->Ok_0.0@ == bits::pack(
            codes::golomb_bits(codes::zigzags(pixels@), r->Ok_0.1 as nat),
        ),
{
    let u: Vec<u32> = zigzag_all(pixels);
    let k: u8 = adaptive_k(&u);
    let mut e = GolombEncoder::new(k);
    e.encode_array(&u);
    assert(e@ =~= codes::golomb_bits(u@, k as nat));
    Ok((e.finish(), k))
}

/// Side in pixels of the blocks that [`encode_frame_golomb_block_adaptive`] cuts an image into.
pub const GOLOMB_BLOCK: usize = 8;

/// The blocks of an image: in a row of a block stand the samples of its pixels.
pub open spec fn block_grid(width: int, height: int, components: int) -> blocks::Tiling {
    blocks::Tiling {
        w: width * components,
        h: height,
        bw: GOLOMB_BLOCK * components,
        bh: GOLOMB_BLOCK as int,
    }
}

/// The parameter for one block.
pub open spec fn block_k(vals: Seq<i32>) -> nat {
    choose_k::adaptive_k_spec(codes::zigzags(vals))
}

/// The bytes of one block.
pub open spec fn block_code(vals: Seq<i32>) -> Seq<u8> {
    bits::pack(codes::golomb_bits(codes::zigzags(vals), block_k(vals)))
}

/// The bytes of the blocks `ts`.
pub open spec fn block_codes(ts: Seq<Seq<i32>>) -> Seq<u8>
    decreases ts.len(),
{
    if ts.len() == 0 {
        Seq::empty()
    } else {
        block_codes(ts.drop_last()) + block_code(ts.last())
    }
}

/// What [`encode_frame_golomb_block_adaptive`] returns: number of blocks, a parameter for each, and
/// their codes.
pub open spec fn block_payload(ts: Seq<Seq<i32>>) -> Seq<u8> {
    le::le32(ts.len() as u32) + Seq::new(ts.len(), |t: int| block_k(ts[t]) as u8) + block_codes(ts)
}

/// Golomb-Rice codes the samples of a frame, with a parameter for each block of pixels. The
/// parameter that stands for this form in a frame header is returned beside the bytes.
pub fn encode_frame_golomb_block_adaptive(
    pixels: &[i32],
    width: usize,
    height: usize,
    components: usize,
) -> (r: CrfResult<(Vec<u8>, u8)>)
    requires
        1 <= components <= 4,
        pixels@.len() == width * components * height,
        pixels@.len() <= u32::MAX,
    ensures
        r is Ok,
        r->Ok_0.0@ == block_payload(
            blocks::tiles(
                pixels@,
                block_grid(width as int, height as int, components as int),
            ),
        ),
        r->Ok_0.1 == 0xff,
{
    let n: usize = pixels.len();
    proof {
        if height == 0 {
            assert(0 <= width * components * height) by (nonlinear_arith)
                requires
                    height == 0,
            ;
        } else {
            assert(width * components <= width * components * height) by (nonlinear_arith)
                requires
                    height >= 1,
                    width * components >= 0,
            ;
        }
    }
    if height == 0 {
        let mut empty: Vec<u8> = Vec::new();
        put_le32(&mut empty, 0);
        proof {
            let g = block_grid(width as int, height as int, components as int);
            assert(g.w >= 0) by (nonlinear_arith)
                requires
                    g.w == width * components,
            ;
            blocks::lemma_tiles_along(0, 8, 0);
            assert(g.count() == 0) by (nonlinear_arith)
                requires
                    g.count() == g.down() * g.across(),
                    g.down() == 0,
            ;
            let ts = blocks::tiles(pixels@, g);
            assert(empty@ =~= block_payload(ts));
        }
        return Ok((empty, 0xff));
    }
    let g = Grid {
        w: width * components,
        h: height,
        bw: GOLOMB_BLOCK * components,
        bh: GOLOMB_BLOCK,
    };
    let ghost ts = blocks::tiles(pixels@, g@);
    let count: usize = g.count();
    proof {
        blocks::lemma_count(g@);
    }
    let mut ks: Vec<u8> = Vec::new();
    let mut data: Vec<u8> = Vec::new();
    let mut t: usize = 0;
    assert(ts.take(0) =~= Seq::<Seq<i32>>::empty());
    while t < count
        invariant
            g.ok(),
            pixels@.len() == g.w * g.h,
            pixels@.len() <= u32::MAX,
            count == g@.count(),
            ts == blocks::tiles(pixels@, g@),
            ts.len() == count,
            t <= count,
            ks@ == Seq::new(t as nat, |i: int| block_k(ts[i]) as u8),
            data@ == block_codes(ts.take(t as int)),
        decreases count - t,
    {
        let block: Vec<i32> = get_tile(pixels, g, t);
        assert(block@ == ts[t as int]);
        proof {
            lemma_area(g@, t as int);
            blocks::lemma_tile_dims(g@, t as int);
        }
        let u: Vec<u32> = zigzag_all(&block);
        let k: u8 = adaptive_k(&u);
        let mut e = GolombEncoder::new(k);
        e.encode_array(&u);
        assert(e@ =~= codes::golomb_bits(u@, k as nat));
        let code: Vec<u8> = e.finish();
        ks.push(k);
        put_bytes(&mut data, &code);
        proof {
            assert(ts.take(t + 1).drop_last() =~= ts.take(t as int));
        }
        t = t + 1;
        assert(ks@ =~= Seq::new(t as nat, |i: int| block_k(ts[i]) as u8));
    }
    let mut out: Vec<u8> = Vec::new();
    put_le32(&mut out, count as u32);
    put_bytes(&mut out, &ks);
    put_bytes(&mut out, &data);
    assert(ts.take(t as int) =~= ts);
    assert(out@ =~= block_payload(ts));
    Ok((out, 0xff))
}

/// A tile has no more samples than the plane.
pub proof fn lemma_area(g: blocks::Tiling, t: int)
    requires
        g.ok(),
        0 <= t < g.count(),
    ensures
        g.area(t) <= g.w * g.h,
{
    blocks::lemma_tile_dims(g, t);
    assert(g.th(t) * g.tw(t) <= g.w * g.h) by (nonlinear_arith)
        requires
            0 <= g.th(t) <= g.h,
            0 <= g.tw(t) <= g.w,
    ;
}

} // verus!

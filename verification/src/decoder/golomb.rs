//! Golomb-Rice decoder.

use vstd::prelude::*;
use vstd::arithmetic::power2::*;
use crate::common::bits;
use crate::common::bits::BitReader;
use crate::common::blocks;
use crate::common::blocks::{join_tiles, Grid};
use crate::common::codes;
use crate::common::codes::zigzag_decode;
use crate::common::le;
use crate::common::le::get_le32;
use crate::decoder::exp_golomb::unzigzag_all;
use crate::encoder::golomb;

verus! {

/// Reads a Golomb-Rice code.
pub fn get_golomb(r: &mut BitReader<'_>, k: u8) -> (v: u32)
    requires
        old(r).wf(),
    ensures
        final(r).wf(),
        final(r).bits() == old(r).bits(),
        v == codes::golomb_at(old(r).bits(), old(r).pos(), k as nat).0,
        final(r).pos() == codes::golomb_at(old(r).bits(), old(r).pos(), k as nat).1,
{
    let q: u32 = r.read_ones();
    r.read_onto(q, k as u32)
}

/// Reads a stream of Golomb-Rice codes.
pub struct GolombDecoder<'a> {
    r: BitReader<'a>,
    k: u8,
}

impl<'a> GolombDecoder<'a> {
    pub closed spec fn wf(&self) -> bool {
        self.r.wf()
    }

    pub closed spec fn bits(&self) -> Seq<bool> {
        self.r.bits()
    }

    pub closed spec fn pos(&self) -> nat {
        self.r.pos()
    }

    pub closed spec fn spec_k(&self) -> u8 {
        self.k
    }

    /// A decoder at the start of `data`.
    pub fn new(data: &'a [u8], k: u8) -> (d: GolombDecoder<'a>)
        ensures
            d.wf(),
            d.bits() == bits::bits_of(data@),
            d.pos() == 0,
            d.spec_k() == k,
    {
        GolombDecoder { r: BitReader::new(data), k }
    }

    /// Reads one value.
    pub fn decode_value(&mut self) -> (v: u32)
        requires
            old(self).wf(),
        ensures
            final(self).wf(),
            final(self).bits() == old(self).bits(),
            final(self).spec_k() == old(self).spec_k(),
            (v, final(self).pos()) == codes::golomb_at(
                old(self).bits(),
                old(self).pos(),
                old(self).spec_k() as nat,
            ),
    {
        get_golomb(&mut self.r, self.k)
    }

    /// Reads one value and undoes its zigzag mapping.
    pub fn decode_signed(&mut self) -> (v: i32)
        requires
            old(self).wf(),
        ensures
            final(self).wf(),
            final(self).bits() == old(self).bits(),
            final(self).spec_k() == old(self).spec_k(),
            ({
                let (u, p) = codes::golomb_at(
                    old(self).bits(),
                    old(self).pos(),
                    old(self).spec_k() as nat,
                );
                v == codes::unzigzag(u) && final(self).pos() == p
            }),
    {
        let u: u32 = self.decode_value();
        zigzag_decode(u)
    }

    /// Reads `count` values.
    pub fn decode_array(&mut self, count: usize) -> (out: Vec<u32>)
        requires
            old(self).wf(),
        ensures
            final(self).wf(),
            final(self).bits() == old(self).bits(),
            final(self).spec_k() == old(self).spec_k(),
            (out@, final(self).pos()) == codes::golombs_at(
                old(self).bits(),
                old(self).pos(),
                old(self).spec_k() as nat,
                count as nat,
            ),
    {
        let ghost s = self.bits();
        let ghost p = self.pos();
        let ghost k = self.spec_k();
        let mut out: Vec<u32> = Vec::new();
        let mut i: usize = 0;
        while i < count
            invariant
                self.wf(),
                self.bits() == s,
                self.spec_k() == k,
                i <= count,
                (out@, self.pos()) == codes::golombs_at(s, p, k as nat, i as nat),
            decreases count - i,
        {
            let v: u32 = self.decode_value();
            out.push(v);
            i = i + 1;
        }
        out
    }

    /// Reads `count` values and undoes their zigzag mapping.
    pub fn decode_signed_array(&mut self, count: usize) -> (out: Vec<i32>)
        requires
            old(self).wf(),
        ensures
            final(self).wf(),
            final(self).bits() == old(self).bits(),
            final(self).spec_k() == old(self).spec_k(),
            ({
                let (u, p) = codes::golombs_at(
                    old(self).bits(),
                    old(self).pos(),
                    old(self).spec_k() as nat,
                    count as nat,
                );
                out@ == codes::unzigzags(u) && final(self).pos() == p
            }),
    {
        let u: Vec<u32> = self.decode_array(count);
        unzigzag_all(&u)
    }

    /// Whether a byte is left.
    pub fn has_remaining(&self) -> (b: bool)
        requires
            self.wf(),
        ensures
            b == (self.pos() < self.bits().len()),
    {
        self.r.has_remaining()
    }

    /// The number of bytes that reading has entered.
    pub fn bytes_used(&self) -> (n: usize)
        requires
            self.wf(),
        ensures
            n == (self.pos() + 7) / 8,
            8 * n <= self.bits().len(),
    {
        self.r.bytes_used()
    }
}

/// The first `n` of the samples `s`, followed by zeros where there are too few.
pub open spec fn fitted(s: Seq<i32>, n: nat) -> Seq<i32> {
    Seq::new(
        n,
        |i: int|
            if i < s.len() {
                s[i]
            } else {
                0
            },
    )
}

/// The first `n` of the samples `s`, followed by zeros where there are too few.
pub fn fit_len(s: &Vec<i32>, n: usize) -> (out: Vec<i32>)
    ensures
        out@ == fitted(s@, n as nat),
{
    let mut out: Vec<i32> = Vec::new();
    let mut i: usize = 0;
    while i < n
        invariant
            i <= n,
            out@ == fitted(s@, n as nat).take(i as int),
        decreases n - i,
    {
        if i < s.len() {
            out.push(s[i]);
        } else {
            out.push(0);
        }
        i = i + 1;
        assert(out@ =~= fitted(s@, n as nat).take(i as int));
    }
    assert(out@ =~= fitted(s@, n as nat));
    out
}

/// The first `n` blocks in `data`, with the parameters `ks`, and the number of bytes they take.
pub open spec fn blocks_at(data: Seq<u8>, ks: Seq<u8>, g: blocks::Tiling, n: nat) -> (
    Seq<Seq<i32>>,
    nat,
)
    decreases n,
{
    if n == 0 {
        (Seq::empty(), 0)
    } else {
        let (ts, off) = blocks_at(data, ks, g, (n - 1) as nat);
        let k = if n - 1 < ks.len() {
            ks[n - 1] as nat
        } else {
            0
        };
        let (u, p) = codes::golombs_at(
            bits::bits_of(data.skip(off as int)),
            0,
            k,
            g.area(n - 1) as nat,
        );
        (ts.push(codes::unzigzags(u)), off + (p + 7) / 8)
    }
}

/// The samples of a frame with a parameter for each block; zeros where the table of parameters is
/// cut short.
pub open spec fn block_adaptive_frame(data: Seq<u8>, n: nat, g: blocks::Tiling) -> Seq<i32> {
    if data.len() < 4 || 4 + le::le32_at(data, 0) > data.len() {
        fitted(Seq::empty(), n)
    } else {
        let at = (4 + le::le32_at(data, 0)) as int;
        let ks = data.subrange(4, at);
        fitted(blocks::untile(blocks_at(data.skip(at), ks, g, g.count() as nat).0, g), n)
    }
}

/// The samples of a Golomb-Rice coded frame of the given dimensions.
pub open spec fn golomb_frame(
    data: Seq<u8>,
    k: u8,
    n: nat,
    width: int,
    height: int,
    components: int,
) -> Seq<i32> {
    if k == 0xff {
        block_adaptive_frame(data, n, golomb::block_grid(width, height, components))
    } else {
        codes::unzigzags(codes::golombs_at(bits::bits_of(data), 0, k as nat, n).0)
    }
}

proof fn lemma_golombs_len(s: Seq<bool>, p: nat, k: nat, n: nat)
    ensures
        codes::golombs_at(s, p, k, n).0.len() == n,
    decreases n,
{
    if n > 0 {
        lemma_golombs_len(s, p, k, (n - 1) as nat);
    }
}

proof fn lemma_blocks_len(data: Seq<u8>, ks: Seq<u8>, g: blocks::Tiling, n: nat)
    requires
        g.ok(),
        n <= g.count(),
    ensures
        blocks_at(data, ks, g, n).0.len() == n,
        forall|t: int|
            0 <= t < n ==> (#[trigger] blocks_at(data, ks, g, n).0[t]).len() == g.area(t),
    decreases n,
{
    if n > 0 {
        lemma_blocks_len(data, ks, g, (n - 1) as nat);
        let (ts, off) = blocks_at(data, ks, g, (n - 1) as nat);
        let k = if n - 1 < ks.len() {
            ks[n - 1] as nat
        } else {
            0
        };
        blocks::lemma_tile_dims(g, n - 1);
        lemma_golombs_len(bits::bits_of(data.skip(off as int)), 0, k, g.area(n - 1) as nat);
        assert forall|t: int| 0 <= t < n implies (#[trigger] blocks_at(data, ks, g, n).0[t]).len()
            == g.area(t) by {
            if t < n - 1 {
                assert(blocks_at(data, ks, g, n).0[t] == ts[t]);
            }
        }
    }
}

/// A frame has as many samples as are asked for.
pub proof fn lemma_golomb_len(
    data: Seq<u8>,
    k: u8,
    n: nat,
    width: int,
    height: int,
    components: int,
)
    ensures
        golomb_frame(data, k, n, width, height, components).len() == n,
{
    lemma_golombs_len(bits::bits_of(data), 0, k as nat, n);
}

/// Decodes the samples of a Golomb-Rice coded frame.
pub fn decode_frame_golomb(
    data: &[u8],
    k: u8,
    pixel_count: usize,
    width: usize,
    height: usize,
    components: usize,
) -> (out: Vec<i32>)
    requires
        1 <= components <= 4,
        width * components * height <= usize::MAX,
        width * components <= usize::MAX,
    ensures
        out@ == golomb_frame(
            data@,
            k,
            pixel_count as nat,
            width as int,
            height as int,
            components as int,
        ),
{
    if k == 0xff {
        decode_frame_golomb_block_adaptive(data, pixel_count, width, height, components)
    } else {
        let mut d = GolombDecoder::new(data, k);
        d.decode_signed_array(pixel_count)
    }
}

fn decode_frame_golomb_block_adaptive(
    data: &[u8],
    pixel_count: usize,
    width: usize,
    height: usize,
    components: usize,
) -> (out: Vec<i32>)
    requires
        1 <= components <= 4,
        width * components * height <= usize::MAX,
        width * components <= usize::MAX,
    ensures
        out@ == block_adaptive_frame(
            data@,
            pixel_count as nat,
            golomb::block_grid(width as int, height as int, components as int),
        ),
{
    let len: usize = data.len();
    let none: Vec<i32> = Vec::new();
    if len < 4 {
        return fit_len(&none, pixel_count);
    }
    let count: u32 = get_le32(data, 0);
    if count as usize > len - 4 {
        return fit_len(&none, pixel_count);
    }
    let at: usize = 4 + count as usize;
    let ks: &[u8] = vstd::slice::slice_subrange(data, 4, at);
    let body: &[u8] = vstd::slice::slice_subrange(data, at, len);
    assert(body@ =~= data@.skip(at as int));
    let g = Grid {
        w: width * components,
        h: height,
        bw: golomb::GOLOMB_BLOCK * components,
        bh: golomb::GOLOMB_BLOCK,
    };
    proof {
        blocks::lemma_count(g@);
    }
    let n: usize = g.count();
    let total: usize = body.len();
    let mut ts: Vec<Vec<i32>> = Vec::new();
    let mut off: usize = 0;
    let mut t: usize = 0;
    assert(blocks::views(ts@) =~= blocks_at(body@, ks@, g@, 0).0);
    while t < n
        invariant
            g.ok(),
            n == g@.count(),
            t <= n,
            total == body@.len(),
            off <= total,
            (blocks::views(ts@), off as nat) == blocks_at(body@, ks@, g@, t as nat),
        decreases n - t,
    {
        let (x0, y0, tw, th) = g.rect(t);
        let k: u8 = if t < ks.len() {
            ks[t]
        } else {
            0
        };
        let rest: &[u8] = vstd::slice::slice_subrange(body, off, total);
        assert(rest@ =~= body@.skip(off as int));
        let mut d = GolombDecoder::new(rest, k);
        proof {
            golomb::lemma_area(g@, t as int);
            blocks::lemma_tile_dims(g@, t as int);
            bits::lemma_bits_of_len(rest@);
        }
        let vals: Vec<i32> = d.decode_signed_array(th * tw);
        let used: usize = d.bytes_used();
        let ghost before = blocks::views(ts@);
        ts.push(vals);
        off = off + used;
        t = t + 1;
        assert(blocks::views(ts@) =~= before.push(vals@));
    }
    proof {
        lemma_blocks_len(body@, ks@, g@, n as nat);
    }
    let px: Vec<i32> = join_tiles(&ts, g);
    fit_len(&px, pixel_count)
}

proof fn lemma_prefix_holds(code: Seq<bool>, rest: Seq<u8>)
    ensures
        bits::holds_at(bits::bits_of(bits::pack(code) + rest), 0, code),
{
    bits::lemma_packed_holds(code);
    bits::lemma_bits_of_add(bits::pack(code), rest);
    let a = bits::bits_of(bits::pack(code));
    let b = bits::bits_of(bits::pack(code) + rest);
    assert(b =~= a + bits::bits_of(rest));
    assert(b.subrange(0, code.len() as int) =~= a.subrange(0, code.len() as int));
}

proof fn lemma_blocks_roundtrip(
    ts: Seq<Seq<i32>>,
    data: Seq<u8>,
    ks: Seq<u8>,
    g: blocks::Tiling,
    n: nat,
)
    requires
        blocks::tiles_fit(ts, g),
        n <= ts.len(),
        data == golomb::block_codes(ts),
        ks == Seq::new(ts.len(), |t: int| golomb::block_k(ts[t]) as u8),
    ensures
        blocks_at(data, ks, g, n) == (
            ts.take(n as int),
            golomb::block_codes(ts.take(n as int)).len(),
        ),
    decreases n,
{
    assert(ts.take(0) =~= Seq::<Seq<i32>>::empty());
    if n > 0 {
        let m = (n - 1) as nat;
        lemma_blocks_roundtrip(ts, data, ks, g, m);
        let off = golomb::block_codes(ts.take(m as int)).len();
        lemma_codes_split(ts, n);
        assert(ts.take(n as int).drop_last() =~= ts.take(m as int));
        let vals = ts[m as int];
        let u = codes::zigzags(vals);
        let k = golomb::block_k(vals);
        assert(k < 256);
        assert(ks[m as int] as nat == k);
        let code = codes::golomb_bits(u, k);
        let rest = choose|rest: Seq<u8>|
            golomb::block_codes(ts) == golomb::block_codes(ts.take(n as int)) + rest;
        assert(data.skip(off as int) =~= bits::pack(code) + rest);
        lemma_prefix_holds(code, rest);
        codes::lemma_golombs_roundtrip(bits::bits_of(data.skip(off as int)), 0, u, k);
        codes::lemma_unzigzags(vals);
        bits::lemma_pack(code);
        assert(vals.len() == g.area(m as int));
        assert(ts.take(m as int).push(vals) =~= ts.take(n as int));
    }
}

proof fn lemma_codes_split(ts: Seq<Seq<i32>>, n: nat)
    requires
        n <= ts.len(),
    ensures
        exists|rest: Seq<u8>|
            golomb::block_codes(ts) == golomb::block_codes(ts.take(n as int)) + rest,
    decreases ts.len(),
{
    if n == ts.len() {
        assert(ts.take(n as int) =~= ts);
        assert(golomb::block_codes(ts) =~= golomb::block_codes(ts.take(n as int))
            + Seq::<u8>::empty());
    } else {
        let init = ts.drop_last();
        lemma_codes_split(init, n);
        assert(init.take(n as int) =~= ts.take(n as int));
        let rest = choose|rest: Seq<u8>|
            golomb::block_codes(init) == golomb::block_codes(init.take(n as int)) + rest;
        assert(golomb::block_codes(ts) =~= golomb::block_codes(ts.take(n as int)) + (rest
            + golomb::block_code(ts.last())));
    }
}

/// Golomb-Rice coding of a frame loses nothing, whatever the parameter.
pub proof fn law_golomb_roundtrip(
    vals: Seq<i32>,
    k: u8,
    width: int,
    height: int,
    components: int,
)
    requires
        k != 0xff,
    ensures
        golomb_frame(
            bits::pack(codes::golomb_bits(codes::zigzags(vals), k as nat)),
            k,
            vals.len(),
            width,
            height,
            components,
        ) == vals,
{
    let code = codes::golomb_bits(codes::zigzags(vals), k as nat);
    bits::lemma_packed_holds(code);
    codes::lemma_golombs_roundtrip(bits::bits_of(bits::pack(code)), 0, codes::zigzags(vals), k as nat);
    codes::lemma_unzigzags(vals);
}

/// Golomb-Rice coding with a parameter for each block loses nothing.
pub proof fn law_golomb_block_roundtrip(
    px: Seq<i32>,
    width: int,
    height: int,
    components: int,
)
    requires
        0 <= width,
        0 <= height,
        1 <= components <= 4,
        px.len() == width * components * height,
        px.len() <= u32::MAX,
    ensures
        golomb_frame(
            golomb::block_payload(
                blocks::tiles(px, golomb::block_grid(width, height, components)),
            ),
            0xff,
            px.len(),
            width,
            height,
            components,
        ) == px,
{
    let g = golomb::block_grid(width, height, components);
    assert(width * components >= 0) by (nonlinear_arith)
        requires
            width >= 0,
            components >= 1,
    ;
    let ts = blocks::tiles(px, g);
    blocks::lemma_count(g);
    blocks::lemma_untile_tiles(px, g);
    let n = ts.len();
    let ks = Seq::new(n, |t: int| golomb::block_k(ts[t]) as u8);
    let body = golomb::block_codes(ts);
    let data = golomb::block_payload(ts);
    assert(data.subrange(0, 4) =~= le::le32(n as u32));
    le::lemma_le32(data, 0, n as u32);
    assert(data.subrange(4, (4 + n) as int) =~= ks);
    assert(data.skip((4 + n) as int) =~= body);
    lemma_blocks_roundtrip(ts, body, ks, g, n);
    assert(ts.take(n as int) =~= ts);
    assert(fitted(px, px.len()) =~= px);
}

} // verus!

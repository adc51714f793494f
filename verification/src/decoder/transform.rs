//! Decoder of transformed blocks.

use vstd::prelude::*;
use crate::common::bits;
use crate::common::blocks;
use crate::common::blocks::Grid;
use crate::common::codes;
use crate::common::le;
use crate::common::le::get_le32;
use crate::common::transform;
use crate::common::transform::block_inverse;
use crate::common::zigzag;
use crate::common::zigzag::zigzag_inverse;
use crate::decoder::rle_golomb;
use crate::decoder::rle_golomb::decode_frame_rle_golomb;
use crate::encoder::rle_golomb as rle;
use crate::encoder::transform as enc;

verus! {

/// The block of side `b` at `off` in `data` and the offset behind it. Where the data end too early
/// the block is all zeros.
pub open spec fn block_at(data: Seq<u8>, off: nat, b: int) -> (Seq<i32>, nat) {
    let none = Seq::new((b * b) as nat, |j: int| 0i32);
    if off + 1 >= data.len() {
        (none, off)
    } else if off + 5 > data.len() {
        (none, off + 1)
    } else {
        let k = data[off as int] as nat;
        let size = le::le32_at(data, (off + 1) as int);
        if off + 5 + size > data.len() {
            (none, off + 5)
        } else {
            let code = data.subrange((off + 5) as int, (off + 5 + size) as int);
            let s = rle_golomb::rle_frame(code, k, (b * b) as nat);
            (transform::inverse2(zigzag::unscan(s, b), b, b), off + 5 + size)
        }
    }
}

/// The first `n` blocks from `off` on and the offset behind them.
pub open spec fn blocks_at(data: Seq<u8>, off: nat, b: int, n: nat) -> (Seq<Seq<i32>>, nat)
    decreases n,
{
    if n == 0 {
        (Seq::empty(), off)
    } else {
        let (bs, p) = blocks_at(data, off, b, (n - 1) as nat);
        let (block, p1) = block_at(data, p, b);
        (bs.push(block), p1)
    }
}

/// The side of the blocks.
pub open spec fn side(data: Seq<u8>) -> int {
    if data.len() > 0 {
        data[0] as int
    } else {
        4
    }
}

/// The plane that the blocks `bs` of side `b` cover.
pub open spec fn covered(bs: Seq<Seq<i32>>, w: int, h: int, b: int) -> Seq<i32> {
    let g = enc::square(w, h, b);
    Seq::new(
        (w * h) as nat,
        |i: int| bs[g.tile_of(i)][((i / w) % b) * b + (i % w) % b],
    )
}

/// The plane that `data` stand for.
pub open spec fn transform_frame(data: Seq<u8>, w: int, h: int) -> Seq<i32> {
    let b = side(data);
    covered(blocks_at(data, 1, b, enc::square(w, h, b).count() as nat).0, w, h, b)
}

proof fn lemma_block_len(data: Seq<u8>, off: nat, b: int)
    requires
        b >= 1,
    ensures
        block_at(data, off, b).0.len() == b * b,
{
    assert(b * b >= 1) by (nonlinear_arith)
        requires
            b >= 1,
    ;
}

proof fn lemma_blocks_len(data: Seq<u8>, off: nat, b: int, n: nat)
    requires
        b >= 1,
    ensures
        blocks_at(data, off, b, n).0.len() == n,
        forall|t: int| 0 <= t < n ==> (#[trigger] blocks_at(data, off, b, n).0[t]).len() == b * b,
    decreases n,
{
    if n > 0 {
        lemma_blocks_len(data, off, b, (n - 1) as nat);
        let (bs, p) = blocks_at(data, off, b, (n - 1) as nat);
        lemma_block_len(data, p, b);
        assert forall|t: int| 0 <= t < n implies (#[trigger] blocks_at(data, off, b, n).0[t]).len()
            == b * b by {
            if t < n - 1 {
                assert(blocks_at(data, off, b, n).0[t] == bs[t]);
            }
        }
    }
}

fn zero_block(n: usize) -> (out: Vec<i32>)
    ensures
        out@ == Seq::new(n as nat, |j: int| 0i32),
{
    let mut out: Vec<i32> = Vec::new();
    let mut j: usize = 0;
    while j < n
        invariant
            j <= n,
            out@ == Seq::new(j as nat, |j: int| 0i32),
        decreases n - j,
    {
        out.push(0);
        j = j + 1;
        assert(out@ =~= Seq::new(j as nat, |j: int| 0i32));
    }
    out
}

fn decode_block(data: &[u8], offset: &mut usize, block_size: usize) -> (out: Vec<i32>)
    requires
        1 <= block_size <= 255,
        *old(offset) <= data@.len() || *old(offset) == 1,
    ensures
        (out@, *final(offset) as nat) == block_at(data@, *old(offset) as nat, block_size as int),
        *final(offset) <= data@.len() || *final(offset) == 1,
{
    proof {
        assert(1 <= block_size * block_size <= 0xffff) by (nonlinear_arith)
            requires
                1 <= block_size <= 255,
        ;
    }
    let n: usize = block_size * block_size;
    let len: usize = data.len();
    let off: usize = *offset;
    if off >= len || off + 1 >= len {
        return zero_block(n);
    }
    let k: u8 = data[off];
    *offset = off + 1;
    if len - off < 5 {
        return zero_block(n);
    }
    let size: usize = get_le32(data, off + 1) as usize;
    *offset = off + 5;
    if size > len - (off + 5) {
        return zero_block(n);
    }
    let code: &[u8] = vstd::slice::slice_subrange(data, off + 5, off + 5 + size);
    *offset = off + 5 + size;
    let s: Vec<i32> = decode_frame_rle_golomb(code, k, n);
    proof {
        rle_golomb::lemma_rle_len(bits::bits_of(code@), 0, k as nat, n as nat);
    }
    let c: Vec<i32> = zigzag_inverse(&s, block_size);
    block_inverse(&c, block_size, block_size)
}

/// Decodes a plane of transformed blocks.
pub struct TransformDecoder<'a> {
    data: &'a [u8],
    offset: usize,
    block_size: usize,
    width: usize,
    height: usize,
}

impl<'a> TransformDecoder<'a> {
    /// The blocks have a side that can be decoded.
    pub closed spec fn wf(&self) -> bool {
        &&& 1 <= self.block_size <= 255
        &&& self.width * self.height <= usize::MAX
        &&& self.offset <= self.data@.len() || self.offset == 1
    }

    pub closed spec fn bytes(&self) -> Seq<u8> {
        self.data@
    }

    pub closed spec fn spec_offset(&self) -> nat {
        self.offset as nat
    }

    pub closed spec fn spec_side(&self) -> int {
        self.block_size as int
    }

    pub closed spec fn dims(&self) -> (int, int) {
        (self.width as int, self.height as int)
    }

    /// A decoder at the first block of `data`.
    pub fn new(data: &'a [u8], width: usize, height: usize) -> (d: TransformDecoder<'a>)
        requires
            width * height <= usize::MAX,
            side(data@) >= 1,
        ensures
            d.wf(),
            d.bytes() == data@,
            d.spec_offset() == 1,
            d.spec_side() == side(data@),
            d.dims() == (width as int, height as int),
    {
        let block_size: usize = if data.len() > 0 {
            data[0] as usize
        } else {
            4
        };
        TransformDecoder { data, offset: 1, block_size, width, height }
    }

    /// Decodes the plane.
    pub fn decode_frame(&mut self) -> (px: Vec<i32>)
        requires
            old(self).wf(),
        ensures
            final(self).wf(),
            final(self).bytes() == old(self).bytes(),
            final(self).spec_side() == old(self).spec_side(),
            final(self).dims() == old(self).dims(),
            ({
                let (w, h) = old(self).dims();
                let b = old(self).spec_side();
                let r = blocks_at(
                    old(self).bytes(),
                    old(self).spec_offset(),
                    b,
                    enc::square(w, h, b).count() as nat,
                );
                px@ == covered(r.0, w, h, b) && final(self).spec_offset() == r.1
            }),
    {
        let b: usize = self.block_size;
        let g = Grid { w: self.width, h: self.height, bw: b, bh: b };
        let n: usize = g.count();
        let ghost start = self.offset as nat;
        let mut bs: Vec<Vec<i32>> = Vec::new();
        let mut t: usize = 0;
        let mut offset: usize = self.offset;
        assert(blocks::views(bs@) =~= blocks_at(self.data@, start, b as int, 0).0);
        while t < n
            invariant
                1 <= b <= 255,
                t <= n,
                offset <= self.data@.len() || offset == 1,
                (blocks::views(bs@), offset as nat) == blocks_at(
                    self.data@,
                    start,
                    b as int,
                    t as nat,
                ),
            decreases n - t,
        {
            let block: Vec<i32> = decode_block(self.data, &mut offset, b);
            let ghost before = blocks::views(bs@);
            bs.push(block);
            t = t + 1;
            assert(blocks::views(bs@) =~= before.push(block@));
        }
        self.offset = offset;
        let across: usize = g.across();
        let ghost vs = blocks::views(bs@);
        let ghost all = covered(vs, g.w as int, g.h as int, b as int);
        proof {
            blocks::lemma_count(g@);
            lemma_blocks_len(self.data@, start, b as int, n as nat);
        }
        let total: usize = g.w * g.h;
        let mut px: Vec<i32> = Vec::new();
        let mut i: usize = 0;
        while i < total
            invariant
                g.ok(),
                1 <= b <= 255,
                g.bw == b,
                g.bh == b,
                total == g.w * g.h,
                across == g@.across(),
                vs == blocks::views(bs@),
                vs.len() == g@.count(),
                bs@.len() <= usize::MAX,
                forall|t: int| 0 <= t < vs.len() ==> (#[trigger] vs[t]).len() == b * b,
                all == covered(vs, g.w as int, g.h as int, b as int),
                all.len() == total,
                i <= total,
                px@ == all.take(i as int),
            decreases total - i,
        {
            let count: usize = bs.len();
            proof {
                blocks::lemma_place(g@, i as int);
                let t = g@.tile_of(i as int);
                assert(vs[t].len() == b * b);
                assert(bs@[t]@ == vs[t]);
                let y = i as int / g.w as int;
                let x = i as int % g.w as int;
                let ty = y / b as int;
                let tx = x / b as int;
                vstd::arithmetic::div_mod::lemma_div_pos_is_pos(y, b as int);
                vstd::arithmetic::div_mod::lemma_div_pos_is_pos(x, b as int);
                assert(0 <= ty * across <= t) by (nonlinear_arith)
                    requires
                        t == ty * across + tx,
                        tx >= 0,
                        ty >= 0,
                        across >= 0,
                ;
                let r = y % b as int;
                let c = x % b as int;
                assert(0 <= r * b <= r * b + c < b * b && r * b + c <= 0xffff) by (nonlinear_arith)
                    requires
                        0 <= r < b,
                        0 <= c < b,
                        b <= 255,
                ;
            }
            let y: usize = i / g.w;
            let x: usize = i % g.w;
            let tile: &Vec<i32> = &bs[(y / b) * across + x / b];
            px.push(tile[(y % b) * b + x % b]);
            i = i + 1;
            assert(px@ =~= all.take(i as int));
        }
        assert(px@ =~= all);
        px
    }
}

/// Decodes a plane of transformed blocks.
pub fn decode_frame_transform(data: &[u8], width: usize, height: usize) -> (px: Vec<i32>)
    requires
        width * height <= usize::MAX,
        side(data@) >= 1,
    ensures
        px@ == transform_frame(data@, width as int, height as int),
        px@.len() == width * height,
{
    proof {
        assert(width * height >= 0) by (nonlinear_arith)
            requires
                width >= 0,
                height >= 0,
        ;
    }
    let mut d = TransformDecoder::new(data, width, height);
    d.decode_frame()
}

proof fn lemma_block_back(data: Seq<u8>, off: nat, block: Seq<i32>, b: int)
    requires
        1 <= b <= 255,
        block.len() == b * b,
        data.len() <= u32::MAX,
        off + enc::block_bytes(block, b).len() <= data.len(),
        data.subrange(off as int, (off + enc::block_bytes(block, b).len()) as int)
            == enc::block_bytes(block, b),
    ensures
        block_at(data, off, b) == (block, off + enc::block_bytes(block, b).len()),
{
    assert(1 <= b * b <= 0xffff) by (nonlinear_arith)
        requires
            1 <= b <= 255,
    ;
    transform::law_transform_roundtrip(block, b, b);
    let c = transform::forward2(block, b, b);
    zigzag::law_zigzag_roundtrip(c, b);
    let s = enc::scanned(block, b);
    let k = rle::best_k(s);
    let code = rle::rle_bytes(s, k);
    crate::common::choose_k::lemma_best_k(codes::zigzags(s));
    let all = enc::block_bytes(block, b);
    let part = data.subrange(off as int, (off + all.len()) as int);
    assert(part[0] == data[off as int]);
    assert(data.subrange((off + 1) as int, (off + 5) as int) =~= le::le32(code.len() as u32)) by {
        assert(all.subrange(1, 5) =~= le::le32(code.len() as u32));
        assert(data.subrange((off + 1) as int, (off + 5) as int) =~= part.subrange(1, 5));
    }
    le::lemma_le32(data, (off + 1) as int, code.len() as u32);
    assert(data.subrange((off + 5) as int, (off + 5 + code.len()) as int) =~= code) by {
        assert(all.subrange(5, all.len() as int) =~= code);
        assert(data.subrange((off + 5) as int, (off + 5 + code.len()) as int) =~= part.subrange(
            5,
            all.len() as int,
        ));
    }
    rle_golomb::law_rle_golomb_roundtrip(s, k);
}

proof fn lemma_blocks_back(px: Seq<i32>, w: int, h: int, b: int, data: Seq<u8>, n: nat, m: nat)
    requires
        1 <= b <= 255,
        n <= m,
        data.len() <= u32::MAX,
        data == seq![b as u8] + enc::blocks_bytes(px, w, h, b, m),
    ensures
        blocks_at(data, 1, b, n) == (
            Seq::new(n, |t: int| enc::padded(px, w, h, b, t)),
            1 + enc::blocks_bytes(px, w, h, b, n).len(),
        ),
    decreases n,
{
    if n > 0 {
        lemma_blocks_back(px, w, h, b, data, (n - 1) as nat, m);
        let block = enc::padded(px, w, h, b, n - 1);
        let off = 1 + enc::blocks_bytes(px, w, h, b, (n - 1) as nat).len();
        lemma_prefix(px, w, h, b, n, m);
        let head = enc::blocks_bytes(px, w, h, b, n);
        let rest = choose|rest: Seq<u8>| enc::blocks_bytes(px, w, h, b, m) == head + rest;
        let bytes = enc::block_bytes(block, b);
        assert(data.subrange(off as int, (off + bytes.len()) as int) =~= bytes);
        assert(b * b >= 0) by (nonlinear_arith)
            requires
                b >= 1,
        ;
        lemma_block_back(data, off, block, b);
        assert(Seq::new((n - 1) as nat, |t: int| enc::padded(px, w, h, b, t)).push(block)
            =~= Seq::new(n, |t: int| enc::padded(px, w, h, b, t)));
    } else {
        assert(Seq::new(0, |t: int| enc::padded(px, w, h, b, t)) =~= Seq::<Seq<i32>>::empty());
    }
}

proof fn lemma_prefix(px: Seq<i32>, w: int, h: int, b: int, n: nat, m: nat)
    requires
        n <= m,
    ensures
        exists|rest: Seq<u8>|
            enc::blocks_bytes(px, w, h, b, m) == enc::blocks_bytes(px, w, h, b, n) + rest,
    decreases m,
{
    let head = enc::blocks_bytes(px, w, h, b, n);
    if n == m {
        assert(enc::blocks_bytes(px, w, h, b, m) =~= head + Seq::<u8>::empty());
    } else {
        lemma_prefix(px, w, h, b, n, (m - 1) as nat);
        let rest = choose|rest: Seq<u8>|
            enc::blocks_bytes(px, w, h, b, (m - 1) as nat) == head + rest;
        let last = enc::block_bytes(enc::padded(px, w, h, b, m - 1), b);
        assert(enc::blocks_bytes(px, w, h, b, m) =~= head + (rest + last));
    }
}

/// Coding a plane by transformed blocks loses nothing, whatever the side of the blocks, as long as
/// lengths fit their fields.
pub proof fn law_transform_frame_roundtrip(px: Seq<i32>, w: int, h: int, b: int)
    requires
        w >= 0,
        h >= 0,
        1 <= b <= 255,
        px.len() == w * h,
        enc::transform_bytes(px, w, h, b).len() <= u32::MAX,
    ensures
        transform_frame(enc::transform_bytes(px, w, h, b), w, h) == px,
{
    let g = enc::square(w, h, b);
    blocks::lemma_count(g);
    let n = g.count() as nat;
    let data = enc::transform_bytes(px, w, h, b);
    assert(data[0] == b as u8);
    lemma_blocks_back(px, w, h, b, data, n, n);
    let bs = Seq::new(n, |t: int| enc::padded(px, w, h, b, t));
    assert forall|i: int| 0 <= i < px.len() implies covered(bs, w, h, b)[i] == px[i] by {
        blocks::lemma_place(g, i);
        let r = (i / w) % b;
        let c = (i % w) % b;
        assert(0 <= r * b + c < b * b) by (nonlinear_arith)
            requires
                0 <= r < b,
                0 <= c < b,
        ;
        vstd::arithmetic::div_mod::lemma_fundamental_div_mod_converse(r * b + c, b, r, c);
    }
    assert(covered(bs, w, h, b) =~= px);
}

} // verus!

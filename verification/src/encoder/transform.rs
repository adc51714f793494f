//! Blocks transformed, scanned in zigzag order and zero-run coded one by one.

use vstd::prelude::*;
use crate::common::blocks;
use crate::common::blocks::Grid;
use crate::common::error::{CrfError, CrfResult};
use crate::common::le;
use crate::common::le::{put_bytes, put_le32};
use crate::common::transform;
use crate::common::transform::block_forward;
use crate::common::zigzag;
use crate::common::zigzag::zigzag_scan;
use crate::encoder::rle_golomb;
use crate::encoder::rle_golomb::encode_frame_rle_golomb_adaptive;

verus! {

pub open spec fn square(w: int, h: int, b: int) -> blocks::Tiling {
    blocks::Tiling { w, h, bw: b, bh: b }
}

/// Block `t` of a plane, of side `b`; zeros stand for what lies outside the plane.
pub open spec fn padded(px: Seq<i32>, w: int, h: int, b: int, t: int) -> Seq<i32> {
    let g = square(w, h, b);
    Seq::new(
        (b * b) as nat,
        |j: int|
            if g.y0(t) + j / b < h && g.x0(t) + j % b < w {
                px[(g.y0(t) + j / b) * w + g.x0(t) + j % b]
            } else {
                0
            },
    )
}

/// The coefficients of a block in the order in which they are coded.
pub open spec fn scanned(block: Seq<i32>, b: int) -> Seq<i32> {
    zigzag::scan(transform::forward2(block, b, b), b)
}

/// A coded block: parameter, length and code.
pub open spec fn block_bytes(block: Seq<i32>, b: int) -> Seq<u8> {
    let s = scanned(block, b);
    let code = rle_golomb::rle_bytes(s, rle_golomb::best_k(s));
    seq![rle_golomb::best_k(s) as u8] + le::le32(code.len() as u32) + code
}

/// The first `n` coded blocks of a plane.
pub open spec fn blocks_bytes(px: Seq<i32>, w: int, h: int, b: int, n: nat) -> Seq<u8>
    decreases n,
{
    if n == 0 {
        Seq::empty()
    } else {
        blocks_bytes(px, w, h, b, (n - 1) as nat) + block_bytes(padded(px, w, h, b, n - 1), b)
    }
}

/// What [`encode_frame_transform`] returns: the side of the blocks, then the blocks.
pub open spec fn transform_bytes(px: Seq<i32>, w: int, h: int, b: int) -> Seq<u8> {
    seq![b as u8] + blocks_bytes(px, w, h, b, square(w, h, b).count() as nat)
}

fn get_padded(px: &[i32], g: Grid, t: usize) -> (out: Vec<i32>)
    requires
        g.ok(),
        g.bw == g.bh,
        1 <= g.bw <= 255,
        px@.len() == g.w * g.h,
        t < g@.count(),
    ensures
        out@ == padded(px@, g.w as int, g.h as int, g.bw as int, t as int),
        out@.len() == g.bw * g.bw,
{
    let b: usize = g.bw;
    let (x0, y0, tw, th) = g.rect(t);
    proof {
        blocks::lemma_tile_dims(g@, t as int);
        assert(1 <= b * b <= 0xffff) by (nonlinear_arith)
            requires
                1 <= b <= 255,
        ;
    }
    let total: usize = px.len();
    let n: usize = b * b;
    let ghost all = padded(px@, g.w as int, g.h as int, b as int, t as int);
    let mut out: Vec<i32> = Vec::new();
    let mut j: usize = 0;
    while j < n
        invariant
            g.ok(),
            b == g.bw,
            1 <= b <= 255,
            n == b * b,
            total == px@.len(),
            px@.len() == g.w * g.h,
            x0 == g@.x0(t as int),
            y0 == g@.y0(t as int),
            x0 < g.w,
            y0 < g.h,
            g@ == square(g.w as int, g.h as int, b as int),
            all == padded(px@, g.w as int, g.h as int, b as int, t as int),
            all.len() == n,
            j <= n,
            out@ == all.take(j as int),
        decreases n - j,
    {
        let r: usize = j / b;
        let c: usize = j % b;
        if r < g.h - y0 && c < g.w - x0 {
            let y: usize = y0 + r;
            let x: usize = x0 + c;
            proof {
                assert(0 <= y * g.w <= y * g.w + x < g.w * g.h) by (nonlinear_arith)
                    requires
                        0 <= y < g.h,
                        0 <= x < g.w,
                ;
            }
            out.push(px[y * g.w + x]);
        } else {
            out.push(0);
        }
        j = j + 1;
        assert(out@ =~= all.take(j as int));
    }
    assert(out@ =~= all);
    out
}

/// Codes a plane by transformed blocks of the given side.
pub fn encode_frame_transform(
    pixels: &[i32],
    width: usize,
    height: usize,
    block_size: usize,
) -> (r: CrfResult<Vec<u8>>)
    requires
        pixels@.len() == width * height,
    ensures
        r is Ok <==> 1 <= block_size <= 255,
        r is Ok ==> r->Ok_0@ == transform_bytes(
            pixels@,
            width as int,
            height as int,
            block_size as int,
        ),
        r is Err ==> r->Err_0 is InvalidCodingParams,
{
    if block_size == 0 || block_size > 255 {
        return Err(CrfError::InvalidCodingParams("block size".to_string()));
    }
    let total: usize = pixels.len();
    let b: usize = block_size;
    let g = Grid { w: width, h: height, bw: b, bh: b };
    let n: usize = g.count();
    let mut out: Vec<u8> = Vec::new();
    out.push(b as u8);
    let mut t: usize = 0;
    proof {
        assert(1 <= b * b <= 0xffff) by (nonlinear_arith)
            requires
                1 <= b <= 255,
        ;
        assert(out@ =~= seq![b as u8] + blocks_bytes(pixels@, width as int, height as int, b as int, 0));
    }
    while t < n
        invariant
            g.ok(),
            g == (Grid { w: width, h: height, bw: b, bh: b }),
            1 <= b <= 255,
            1 <= b * b <= 0xffff,
            pixels@.len() == width * height,
            n == g@.count(),
            t <= n,
            out@ == seq![b as u8] + blocks_bytes(
                pixels@,
                width as int,
                height as int,
                b as int,
                t as nat,
            ),
        decreases n - t,
    {
        let block: Vec<i32> = get_padded(pixels, g, t);
        let c: Vec<i32> = block_forward(&block, b, b);
        let s: Vec<i32> = zigzag_scan(&c, b);
        match encode_frame_rle_golomb_adaptive(&s) {
            Ok((code, k)) => {
                let ghost before = out@;
                out.push(k);
                put_le32(&mut out, code.len() as u32);
                put_bytes(&mut out, &code);
                assert(out@ =~= before + block_bytes(block@, b as int));
                assert(out@ =~= seq![b as u8] + blocks_bytes(
                    pixels@,
                    width as int,
                    height as int,
                    b as int,
                    (t + 1) as nat,
                ));
            },
            Err(e) => {
                return Err(e);
            },
        }
        t = t + 1;
    }
    Ok(out)
}

} // verus!

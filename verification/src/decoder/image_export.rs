//! Frames as image files.

use vstd::prelude::*;
use crate::common::crc;
use crate::common::crc::crc32;
use crate::common::domain::ImageData;
use crate::common::error::{invalid, CrfResult, Fault};
use crate::common::le;
use crate::common::le::{put_bytes, put_le16, put_le32};
use crate::encoder::frame;

verus! {

/// The four bytes of `x`, high byte first.
pub open spec fn be32(x: u32) -> Seq<u8> {
    seq![
        (x / 0x100_0000) as u8,
        ((x / 0x1_0000) % 256) as u8,
        ((x / 0x100) % 256) as u8,
        (x % 256) as u8,
    ]
}

fn put_be32(out: &mut Vec<u8>, x: u32)
    ensures
        final(out)@ == old(out)@ + be32(x),
{
    let ghost before = out@;
    out.push((x / 0x100_0000) as u8);
    out.push(((x / 0x1_0000) % 256) as u8);
    out.push(((x / 0x100) % 256) as u8);
    out.push((x % 256) as u8);
    assert(out@ =~= before + be32(x));
}

/// A sample between zero and `top`.
pub open spec fn limited(v: i32, top: int) -> int {
    if v < 0 {
        0
    } else if v > top {
        top
    } else {
        v as int
    }
}

/// Largest number of `depth` bits.
pub open spec fn top_of(depth: u8) -> int {
    vstd::arithmetic::power2::pow2(depth as nat) - 1
}

/// A sample in a PNG file: one byte, or two from nine bits on. Samples that are missing are left out.
pub open spec fn png_sample(px: Seq<i32>, i: int, depth: u8) -> Seq<u8> {
    if i >= px.len() {
        Seq::empty()
    } else {
        let v = limited(px[i], top_of(depth)) % 0x1_0000;
        if depth <= 8 {
            seq![(v % 256) as u8]
        } else {
            seq![(v / 256) as u8, (v % 256) as u8]
        }
    }
}

/// The first `n` samples of a row that starts with sample `from`.
pub open spec fn png_row(px: Seq<i32>, from: int, depth: u8, n: nat) -> Seq<u8>
    decreases n,
{
    if n == 0 {
        seq![0u8]
    } else {
        png_row(px, from, depth, (n - 1) as nat) + png_sample(px, from + n - 1, depth)
    }
}

/// The first `n` rows.
pub open spec fn png_rows(px: Seq<i32>, w: int, depth: u8, n: nat) -> Seq<u8>
    decreases n,
{
    if n == 0 {
        Seq::empty()
    } else {
        png_rows(px, w, depth, (n - 1) as nat) + png_row(px, (n - 1) * w, depth, w as nat)
    }
}

/// Bytes in blocks of at most 65535, as they are.
pub open spec fn stored(d: Seq<u8>) -> Seq<u8>
    decreases d.len(),
{
    if d.len() == 0 {
        Seq::empty()
    } else if d.len() <= 65535 {
        block(d, true)
    } else {
        block(d.take(65535), false) + stored(d.skip(65535))
    }
}

/// One block of bytes.
pub open spec fn block(d: Seq<u8>, last: bool) -> Seq<u8> {
    seq![
        if last {
            1u8
        } else {
            0u8
        },
    ] + le::le16(d.len() as u16) + le::le16((65535 - d.len()) as u16) + d
}

/// A chunk of a PNG file.
pub open spec fn chunk(name: Seq<u8>, d: Seq<u8>) -> Seq<u8> {
    be32(d.len() as u32) + name + d + be32(crc::crc32_spec(name + d))
}

/// The size and depth of an image, in a PNG file.
pub open spec fn png_head(w: u16, h: u16, depth: u8) -> Seq<u8> {
    be32(w as u32) + be32(h as u32) + seq![depth, 0u8, 0u8, 0u8, 0u8]
}

/// A PNG file of the first samples of an image, in grey.
pub open spec fn png_bytes(image: &ImageData) -> Seq<u8> {
    seq![137u8, 80u8, 78u8, 71u8, 13u8, 10u8, 26u8, 10u8] + chunk(
        seq![73u8, 72u8, 68u8, 82u8],
        png_head(image.width, image.height, image.bit_depth),
    ) + chunk(
        seq![73u8, 68u8, 65u8, 84u8],
        stored(
            png_rows(
                image.pixels@,
                image.width as int,
                image.bit_depth,
                image.height as nat,
            ),
        ),
    ) + chunk(seq![73u8, 69u8, 78u8, 68u8], Seq::empty())
}

/// Appends a chunk.
fn write_png_chunk(out: &mut Vec<u8>, name: &[u8], data: &[u8])
    ensures
        final(out)@ == old(out)@ + chunk(name@, data@),
{
    let ghost before = out@;
    put_be32(out, #[verifier::truncate] (data.len() as u32));
    put_bytes(out, name);
    put_bytes(out, data);
    let mut all: Vec<u8> = Vec::new();
    put_bytes(&mut all, name);
    put_bytes(&mut all, data);
    assert(all@ =~= name@ + data@);
    put_be32(out, crc32(&all));
    assert(out@ =~= before + chunk(name@, data@));
}

fn limit(v: i32, top: i32) -> (r: i32)
    requires
        top >= 0,
    ensures
        r == limited(v, top as int),
        0 <= r <= top,
{
    if v < 0 {
        0
    } else if v > top {
        top
    } else {
        v
    }
}

fn top_value(depth: u8) -> (t: i32)
    requires
        depth <= 30,
    ensures
        t == top_of(depth),
        t >= 0,
{
    let mut t: i32 = 1;
    let mut k: u8 = 0;
    proof {
        vstd::arithmetic::power2::lemma2_to64();
    }
    while k < depth
        invariant
            k <= depth <= 30,
            t == vstd::arithmetic::power2::pow2(k as nat),
            1 <= t <= 0x4000_0000,
            k < 30 ==> t <= 0x2000_0000,
            vstd::arithmetic::power2::pow2(30) == 0x4000_0000,
        decreases depth - k,
    {
        proof {
            vstd::arithmetic::power2::lemma_pow2_unfold((k + 1) as nat);
            if k + 1 < 30 {
                vstd::arithmetic::power2::lemma_pow2_strictly_increases((k + 1) as nat, 30);
                vstd::arithmetic::power2::lemma_pow2_unfold(30);
                if k + 1 < 29 {
                    vstd::arithmetic::power2::lemma_pow2_strictly_increases((k + 1) as nat, 29);
                }
            }
        }
        t = t * 2;
        k = k + 1;
    }
    t - 1
}

fn put_png_row(out: &mut Vec<u8>, px: &Vec<i32>, from: usize, w: usize, depth: u8, top: i32)
    requires
        top == top_of(depth),
        top >= 0,
        from + w <= 0xffff * 0x1_0000,
    ensures
        final(out)@ == old(out)@ + png_row(px@, from as int, depth, w as nat),
{
    let ghost before = out@;
    out.push(0);
    assert(out@ =~= before + png_row(px@, from as int, depth, 0));
    let mut x: usize = 0;
    while x < w
        invariant
            x <= w,
            top == top_of(depth),
            top >= 0,
            from + w <= 0xffff * 0x1_0000,
            out@ == before + png_row(px@, from as int, depth, x as nat),
        decreases w - x,
    {
        let ghost now = out@;
        let i: usize = from + x;
        if i < px.len() {
            let v: i32 = limit(px[i], top) % 0x1_0000;
            if depth <= 8 {
                out.push((v % 256) as u8);
            } else {
                out.push((v / 256) as u8);
                out.push((v % 256) as u8);
            }
        }
        proof {
            assert(out@ =~= now + png_sample(px@, from + x, depth));
            assert(out@ =~= before + png_row(px@, from as int, depth, (x + 1) as nat));
        }
        x = x + 1;
    }
}

fn put_block(out: &mut Vec<u8>, d: &[u8], last: bool)
    requires
        d@.len() <= 65535,
    ensures
        final(out)@ == old(out)@ + block(d@, last),
{
    let ghost before = out@;
    let n: u16 = d.len() as u16;
    out.push(
        if last {
            1
        } else {
            0
        },
    );
    put_le16(out, n);
    put_le16(out, 65535 - n);
    put_bytes(out, d);
    assert(out@ =~= before + block(d@, last));
}

fn store(d: &[u8]) -> (out: Vec<u8>)
    ensures
        out@ == stored(d@),
{
    let mut out: Vec<u8> = Vec::new();
    let n: usize = d.len();
    let mut i: usize = 0;
    assert(d@.skip(0) =~= d@);
    assert(out@ + stored(d@.skip(0)) =~= stored(d@));
    while i < n
        invariant
            i <= n,
            n == d@.len(),
            out@ + stored(d@.skip(i as int)) == stored(d@),
        decreases n - i,
    {
        let ghost before = out@;
        let ghost rest = d@.skip(i as int);
        let len: usize = if n - i < 65535 {
            n - i
        } else {
            65535
        };
        let end: usize = i + len;
        let part: &[u8] = vstd::slice::slice_subrange(d, i, end);
        put_block(&mut out, part, end >= n);
        proof {
            let next = d@.skip(end as int);
            if rest.len() <= 65535 {
                assert(part@ =~= rest);
                assert(next =~= Seq::<u8>::empty());
                assert(out@ + stored(next) =~= before + stored(rest));
            } else {
                assert(part@ =~= rest.take(65535));
                assert(next =~= rest.skip(65535));
                assert(out@ + stored(next) =~= before + stored(rest));
            }
        }
        i = end;
    }
    assert(d@.skip(n as int) =~= Seq::<u8>::empty());
    assert(out@ =~= stored(d@));
    out
}

/// Makes a PNG file of an image, in grey: of an image with several samples to a pixel, the first
/// samples are taken one by one.
pub fn encode_png(image: &ImageData) -> (r: CrfResult<Vec<u8>>)
    requires
        image.bit_depth <= 30,
    ensures
        r is Ok,
        r->Ok_0@ == png_bytes(image),
{
    let (w, h): (usize, usize) = (image.width as usize, image.height as usize);
    let depth: u8 = image.bit_depth;
    let mut out: Vec<u8> = vec![137, 80, 78, 71, 13, 10, 26, 10];
    assert(out@ =~= seq![137u8, 80u8, 78u8, 71u8, 13u8, 10u8, 26u8, 10u8]);
    let mut head: Vec<u8> = Vec::new();
    put_be32(&mut head, image.width as u32);
    put_be32(&mut head, image.height as u32);
    head.push(depth);
    head.push(0);
    head.push(0);
    head.push(0);
    head.push(0);
    assert(head@ =~= png_head(image.width, image.height, depth));
    let name: Vec<u8> = vec![73, 72, 68, 82];
    assert(name@ =~= seq![73u8, 72u8, 68u8, 82u8]);
    write_png_chunk(&mut out, &name, &head);
    let ghost so_far = out@;
    let top: i32 = top_value(depth);
    let mut raw: Vec<u8> = Vec::new();
    let mut y: usize = 0;
    assert(raw@ =~= png_rows(image.pixels@, w as int, depth, 0));
    while y < h
        invariant
            y <= h <= 0xffff,
            w <= 0xffff,
            top == top_of(depth),
            top >= 0,
            raw@ == png_rows(image.pixels@, w as int, depth, y as nat),
        decreases h - y,
    {
        proof {
            assert(0 <= y * w && y * w + w <= 0xffff * 0x1_0000) by (nonlinear_arith)
                requires
                    0 <= y < 0xffff,
                    0 <= w <= 0xffff,
            ;
        }
        put_png_row(&mut raw, &image.pixels, y * w, w, depth, top);
        y = y + 1;
    }
    let body: Vec<u8> = store(&raw);
    let name2: Vec<u8> = vec![73, 68, 65, 84];
    assert(name2@ =~= seq![73u8, 68u8, 65u8, 84u8]);
    write_png_chunk(&mut out, &name2, &body);
    let name3: Vec<u8> = vec![73, 69, 78, 68];
    assert(name3@ =~= seq![73u8, 69u8, 78u8, 68u8]);
    let nothing: Vec<u8> = Vec::new();
    assert(nothing@ =~= Seq::<u8>::empty());
    write_png_chunk(&mut out, &name3, &nothing);
    assert(out@ =~= png_bytes(image));
    Ok(out)
}

/// Bytes of a row of a BMP file, filled up to a multiple of four, for three bytes to a pixel.
pub open spec fn bmp_stride(w: int) -> int {
    ((w * 3 + 3) / 4) * 4
}

/// A sample in a BMP file, zero where it is missing.
pub open spec fn bmp_sample(px: Seq<i32>, i: int) -> u8 {
    if i < px.len() {
        limited(px[i], 255) as u8
    } else {
        0
    }
}

/// Row `y`.
pub open spec fn bmp_row(px: Seq<i32>, w: int, y: int) -> Seq<u8> {
    Seq::new(w as nat, |x: int| bmp_sample(px, y * w + x)) + Seq::new(
        (bmp_stride(w) - w * 3) as nat,
        |x: int| 0u8,
    )
}

/// The last `n` of `h` rows, from the bottom up.
pub open spec fn bmp_rows(px: Seq<i32>, w: int, h: int, n: nat) -> Seq<u8>
    decreases n,
{
    if n == 0 {
        Seq::empty()
    } else {
        bmp_rows(px, w, h, (n - 1) as nat) + bmp_row(px, w, h - n)
    }
}

/// The headers of a BMP file with a palette of greys.
pub open spec fn bmp_head(w: u16, h: u16) -> Seq<u8> {
    seq![66u8, 77u8] + le::le32((54 + 1024 + bmp_stride(w as int) * h) as u32) + Seq::new(
        4,
        |i: int| 0u8,
    ) + le::le32(1078) + le::le32(40) + le::le32(w as u32) + le::le32(h as u32) + le::le16(1)
        + le::le16(8) + Seq::new(24, |i: int| 0u8)
}

/// The first `n` greys of the palette.
pub open spec fn greys(n: nat) -> Seq<u8>
    decreases n,
{
    if n == 0 {
        Seq::empty()
    } else {
        greys((n - 1) as nat) + seq![(n - 1) as u8, (n - 1) as u8, (n - 1) as u8, 0u8]
    }
}

/// A BMP file of the first samples of an image, in grey.
pub open spec fn bmp_bytes(image: &ImageData) -> Seq<u8> {
    bmp_head(image.width, image.height) + greys(256) + bmp_rows(
        image.pixels@,
        image.width as int,
        image.height as int,
        image.height as nat,
    )
}

fn put_zeros(out: &mut Vec<u8>, n: usize)
    ensures
        final(out)@ == old(out)@ + Seq::new(n as nat, |i: int| 0u8),
{
    let ghost before = out@;
    let mut i: usize = 0;
    assert(out@ =~= before + Seq::new(0nat, |i: int| 0u8));
    while i < n
        invariant
            i <= n,
            out@ == before + Seq::new(i as nat, |i: int| 0u8),
        decreases n - i,
    {
        out.push(0);
        i = i + 1;
        assert(out@ =~= before + Seq::new(i as nat, |i: int| 0u8));
    }
}

fn put_bmp_row(out: &mut Vec<u8>, px: &Vec<i32>, w: usize, y: usize)
    requires
        w <= 0xffff,
        y <= 0xffff,
    ensures
        final(out)@ == old(out)@ + bmp_row(px@, w as int, y as int),
{
    let ghost before = out@;
    proof {
        assert(0 <= y * w <= 0xffff * 0xffff) by (nonlinear_arith)
            requires
                0 <= y <= 0xffff,
                0 <= w <= 0xffff,
        ;
    }
    let from: usize = y * w;
    let ghost all = Seq::new(w as nat, |x: int| bmp_sample(px@, y * w + x));
    let mut x: usize = 0;
    assert(out@ =~= before + all.take(0));
    while x < w
        invariant
            x <= w <= 0xffff,
            from == y * w,
            from <= 0xffff * 0xffff,
            all == Seq::new(w as nat, |x: int| bmp_sample(px@, y * w + x)),
            out@ == before + all.take(x as int),
        decreases w - x,
    {
        let i: usize = from + x;
        let v: u8 = if i < px.len() {
            limit(px[i], 255) as u8
        } else {
            0
        };
        out.push(v);
        assert(out@ =~= before + all.take(x + 1));
        x = x + 1;
    }
    assert(all.take(w as int) =~= all);
    let stride: usize = ((w * 3 + 3) / 4) * 4;
    put_zeros(out, stride - w * 3);
    assert(out@ =~= before + bmp_row(px@, w as int, y as int));
}

fn put_bmp_head(out: &mut Vec<u8>, w: u16, h: u16)
    ensures
        final(out)@ == old(out)@ + bmp_head(w, h),
{
    let ghost before = out@;
    let stride: u64 = ((w as u64 * 3 + 3) / 4) * 4;
    proof {
        assert(0 <= stride * h <= 0x3_0000 * 0xffff) by (nonlinear_arith)
            requires
                0 <= stride <= 0x3_0000,
                0 <= h <= 0xffff,
        ;
    }
    let size: u64 = 54 + 1024 + stride * h as u64;
    out.push(66);
    out.push(77);
    put_le32(out, #[verifier::truncate] (size as u32));
    put_zeros(out, 4);
    put_le32(out, 1078);
    put_le32(out, 40);
    put_le32(out, w as u32);
    put_le32(out, h as u32);
    put_le16(out, 1);
    put_le16(out, 8);
    put_zeros(out, 24);
    assert(out@ =~= before + bmp_head(w, h));
}

/// Makes a BMP file of an image, in grey: of an image with several samples to a pixel, the first
/// samples are taken one by one.
pub fn encode_bmp(image: &ImageData) -> (r: CrfResult<Vec<u8>>)
    ensures
        r is Ok,
        r->Ok_0@ == bmp_bytes(image),
{
    let (w, h): (usize, usize) = (image.width as usize, image.height as usize);
    let mut out: Vec<u8> = Vec::new();
    put_bmp_head(&mut out, image.width, image.height);
    let ghost head = bmp_head(image.width, image.height);
    let mut k: usize = 0;
    assert(out@ =~= head + greys(0));
    while k < 256
        invariant
            k <= 256,
            out@ == head + greys(k as nat),
        decreases 256 - k,
    {
        let ghost now = out@;
        let b: u8 = k as u8;
        out.push(b);
        out.push(b);
        out.push(b);
        out.push(0);
        assert(out@ =~= head + greys((k + 1) as nat));
        k = k + 1;
    }
    let ghost top = head + greys(256);
    let mut n: usize = 0;
    assert(out@ =~= top + bmp_rows(image.pixels@, w as int, h as int, 0));
    while n < h
        invariant
            n <= h <= 0xffff,
            w <= 0xffff,
            out@ == top + bmp_rows(image.pixels@, w as int, h as int, n as nat),
        decreases h - n,
    {
        let ghost now = out@;
        put_bmp_row(&mut out, &image.pixels, w, h - (n + 1));
        assert(out@ =~= top + bmp_rows(image.pixels@, w as int, h as int, (n + 1) as nat));
        n = n + 1;
    }
    assert(out@ =~= bmp_bytes(image));
    Ok(out)
}

/// The image file of the given kind.
pub open spec fn exported(image: &ImageData, kind: Seq<char>) -> Result<Seq<u8>, Fault> {
    if kind == "png"@ {
        Ok(png_bytes(image))
    } else if kind == "bmp"@ {
        Ok(bmp_bytes(image))
    } else {
        Err(Fault::Invalid)
    }
}

/// Makes an image file, of the kind that the name `kind` in small letters stands for.
pub fn encode_image(image: &ImageData, kind: &String) -> (r: CrfResult<Vec<u8>>)
    requires
        kind@ == "png"@ ==> image.bit_depth <= 30,
    ensures
        frame::agrees_bytes(r, exported(image, kind@)),
{
    if *kind == "png".to_owned() {
        encode_png(image)
    } else if *kind == "bmp".to_owned() {
        encode_bmp(image)
    } else {
        Err(invalid("image kind"))
    }
}

/// A sample is kept between zero and the largest there is, and left alone where it is.
pub proof fn law_limited(v: i32, top: int)
    requires
        top >= 0,
    ensures
        0 <= limited(v, top) <= top,
        0 <= v <= top ==> limited(v, top) == v,
        v < 0 ==> limited(v, top) == 0,
        v > top ==> limited(v, top) == top,
{
}

/// Bytes of a sample.
spec fn width_of(depth: u8) -> int {
    if depth <= 8 {
        1
    } else {
        2
    }
}

/// What the bytes at `at` say of a sample.
pub open spec fn sample_at(d: Seq<u8>, at: int, depth: u8) -> int {
    if depth <= 8 {
        d[at] as int
    } else {
        256 * d[at] + d[at + 1]
    }
}

proof fn lemma_top(depth: u8)
    requires
        1 <= depth <= 16,
    ensures
        1 <= top_of(depth) <= 0xffff,
        depth <= 8 ==> top_of(depth) <= 0xff,
{
    vstd::arithmetic::power2::lemma2_to64();
    if depth < 16 {
        vstd::arithmetic::power2::lemma_pow2_strictly_increases(depth as nat, 16);
    }
    if depth < 8 {
        vstd::arithmetic::power2::lemma_pow2_strictly_increases(depth as nat, 8);
    }
    vstd::arithmetic::power2::lemma_pow2_strictly_increases(0, depth as nat);
}

proof fn lemma_png_row(px: Seq<i32>, from: int, depth: u8, n: nat, x: int)
    requires
        1 <= depth <= 16,
        0 <= from,
        from + n <= px.len(),
        0 <= x < n || n == 0,
    ensures
        ({
            let r = png_row(px, from, depth, n);
            let b = width_of(depth);
            &&& r.len() == 1 + b * n
            &&& r[0] == 0
            &&& n > 0 ==> sample_at(r, 1 + b * x, depth) == limited(px[from + x], top_of(depth))
        }),
    decreases n,
{
    let b = width_of(depth);
    if n > 0 {
        let m = (n - 1) as nat;
        lemma_top(depth);
        lemma_png_row(
            px,
            from,
            depth,
            m,
            if x < m {
                x
            } else if m > 0 {
                0
            } else {
                x
            },
        );
        let s = png_sample(px, from + n - 1, depth);
        let v = limited(px[from + n - 1], top_of(depth));
        law_limited(px[from + n - 1], top_of(depth));
        assert(v % 0x1_0000 == v);
        assert(s.len() == b);
        assert(sample_at(s, 0, depth) == v);
        assert(b * n == b * m + b) by (nonlinear_arith)
            requires
                n == m + 1,
        ;
        let r = png_row(px, from, depth, n);
        if x == m {
            assert(sample_at(r, 1 + b * x, depth) == sample_at(s, 0, depth));
        } else {
            assert(b * x + b <= b * m) by (nonlinear_arith)
                requires
                    x < m,
                    b >= 1,
            ;
        }
    }
}

/// In the rows of a PNG file every row of the image has a zero before it, for no filter, and its samples,
/// kept in range, from left to right behind it.
pub proof fn law_png_rows(px: Seq<i32>, w: int, h: nat, depth: u8, x: int, y: int)
    requires
        1 <= depth <= 16,
        1 <= w,
        w * h <= px.len(),
        0 <= x < w,
        0 <= y < h,
    ensures
        ({
            let r = png_rows(px, w, depth, h);
            let b = if depth <= 8 {
                1int
            } else {
                2
            };
            let at = y * (1 + b * w);
            &&& r.len() == h * (1 + b * w)
            &&& r[at] == 0
            &&& sample_at(r, at + 1 + b * x, depth) == limited(px[y * w + x], top_of(depth))
        }),
{
    lemma_png_rows(px, w, h, depth, x, y);
}

proof fn lemma_png_rows(px: Seq<i32>, w: int, n: nat, depth: u8, x: int, y: int)
    requires
        1 <= depth <= 16,
        1 <= w,
        w * n <= px.len(),
        0 <= x < w,
    ensures
        ({
            let r = png_rows(px, w, depth, n);
            let b = width_of(depth);
            let l = 1 + b * w;
            &&& r.len() == n * l
            &&& 0 <= y < n ==> r[y * l] == 0 && sample_at(r, y * l + 1 + b * x, depth) == limited(
                px[y * w + x],
                top_of(depth),
            )
        }),
    decreases n,
{
    let b = width_of(depth);
    let l = 1 + b * w;
    if n > 0 {
        let m = (n - 1) as nat;
        assert(w * n == w * m + w && m * w == w * m && n * l == m * l + l && w * m >= 0)
            by (nonlinear_arith)
            requires
                n == m + 1,
                w >= 1,
        ;
        lemma_png_rows(px, w, m, depth, x, y);
        lemma_png_row(px, m * w, depth, w as nat, x);
        let row = png_row(px, m * w, depth, w as nat);
        let r = png_rows(px, w, depth, n);
        assert(b * x + b <= b * w && b * x >= 0) by (nonlinear_arith)
            requires
                0 <= x < w,
                b >= 1,
        ;
        if y == m {
            assert(r[y * l] == row[0]);
            assert(sample_at(r, y * l + 1 + b * x, depth) == sample_at(row, 1 + b * x, depth));
        } else if 0 <= y < m {
            assert(y * l + l <= m * l && y * l >= 0) by (nonlinear_arith)
                requires
                    0 <= y < m,
                    l >= 1,
            ;
        }
    } else {
        assert(n * l == 0) by (nonlinear_arith)
            requires
                n == 0,
        ;
    }
}

/// A BMP file holds the rows of the image from the last one up, samples kept in range, and each row as
/// long as the others.
pub proof fn law_bmp_rows(px: Seq<i32>, w: int, h: nat, x: int, y: int)
    requires
        1 <= w,
        w * h <= px.len(),
        0 <= x < w,
        0 <= y < h,
    ensures
        ({
            let r = bmp_rows(px, w, h as int, h);
            let l = w + bmp_stride(w) - 3 * w;
            &&& 3 * w <= bmp_stride(w) < 3 * w + 4
            &&& bmp_stride(w) % 4 == 0
            &&& r.len() == h * l
            &&& r[(h - 1 - y) * l + x] == limited(px[y * w + x], 255)
        }),
{
    lemma_bmp_rows(px, w, h as int, h, x, h - 1 - y);
}

proof fn lemma_bmp_rows(px: Seq<i32>, w: int, h: int, n: nat, x: int, k: int)
    requires
        1 <= w,
        w * h <= px.len(),
        0 <= x < w,
        n <= h,
    ensures
        ({
            let r = bmp_rows(px, w, h, n);
            let l = w + bmp_stride(w) - 3 * w;
            &&& r.len() == n * l
            &&& 0 <= k < n ==> r[k * l + x] == limited(px[(h - 1 - k) * w + x], 255)
        }),
    decreases n,
{
    let l = w + bmp_stride(w) - 3 * w;
    if n > 0 {
        let m = (n - 1) as nat;
        lemma_bmp_rows(px, w, h, m, x, k);
        assert(n * l == m * l + l) by (nonlinear_arith)
            requires
                n == m + 1,
        ;
        let row = bmp_row(px, w, h - n);
        assert(row.len() == l);
        let r = bmp_rows(px, w, h, n);
        if k == m {
            let y = h - n;
            assert(0 <= y * w + x < px.len()) by (nonlinear_arith)
                requires
                    0 <= y < h,
                    0 <= x < w,
                    w * h <= px.len(),
            ;
            law_limited(px[y * w + x], 255);
            assert(r[k * l + x] == row[x]);
        } else if 0 <= k < m {
            assert(k * l + l <= m * l && k * l >= 0) by (nonlinear_arith)
                requires
                    0 <= k < m,
                    l >= 1,
            ;
        }
    } else {
        assert(n * l == 0) by (nonlinear_arith)
            requires
                n == 0,
        ;
    }
}

/// Colour `i` of the palette is the grey of that brightness.
pub proof fn law_greys(n: nat, i: int)
    requires
        0 <= i < n <= 256,
    ensures
        greys(n).len() == 4 * n,
        greys(n)[4 * i] == i,
        greys(n)[4 * i + 1] == i,
        greys(n)[4 * i + 2] == i,
        greys(n)[4 * i + 3] == 0,
    decreases n,
{
    let m = (n - 1) as nat;
    lemma_greys_len(m);
    if i < m {
        law_greys(m, i);
    }
}

proof fn lemma_greys_len(n: nat)
    ensures
        greys(n).len() == 4 * n,
    decreases n,
{
    if n > 0 {
        lemma_greys_len((n - 1) as nat);
    }
}

/// Stored data are the bytes themselves, with five bytes before every 65535 of them; the first of these
/// tells the last part.
pub proof fn law_stored(d: Seq<u8>, i: int)
    requires
        0 <= i < d.len(),
    ensures
        ({
            let s = stored(d);
            let b = i / 65535;
            let n = d.len() as int;
            &&& s.len() == n + 5 * ((n + 65534) / 65535)
            &&& s[i + 5 * (b + 1)] == d[i]
            &&& s[65540 * b] == (if n <= 65535 * (b + 1) {
                1u8
            } else {
                0u8
            })
            &&& s[65540 * b + 1] + 256 * s[65540 * b + 2] == (if n <= 65535 * (b + 1) {
                n - 65535 * b
            } else {
                65535
            })
        }),
    decreases d.len(),
{
    let n = d.len() as int;
    let s = stored(d);
    if n <= 65535 {
        let p = block(d, true);
        assert(p[i + 5] == d[i]);
    } else {
        let rest = d.skip(65535);
        let p = block(d.take(65535), false);
        assert(p.len() == 65540);
        assert(s == p + stored(rest));
        if i < 65535 {
            law_stored(rest, 0);
            assert(p[i + 5] == d[i]);
            assert(s[i + 5] == p[i + 5]);
        } else {
            law_stored(rest, i - 65535);
            let b = i / 65535;
            assert((i - 65535) / 65535 == b - 1);
            assert(rest[i - 65535] == d[i]);
            assert(s[i + 5 * (b + 1)] == stored(rest)[i - 65535 + 5 * b]);
            assert(s[65540 * b] == stored(rest)[65540 * (b - 1)]);
            assert(s[65540 * b + 1] == stored(rest)[65540 * (b - 1) + 1]);
            assert(s[65540 * b + 2] == stored(rest)[65540 * (b - 1) + 2]);
        }
        assert((n - 65535 + 65534) / 65535 + 1 == (n + 65534) / 65535);
    }
}

} // verus!

//! Decoder of frames cut into bands.

use vstd::prelude::*;
use crate::common::bits;
use crate::common::blocks;
use crate::common::bounds;
use crate::common::domain::PredictionMode;
use crate::common::error;
use crate::common::error::{short, CrfResult, Fault};
use crate::common::framing;
use crate::common::framing::get_part;
use crate::common::le;
use crate::common::le::get_le16;
use crate::common::predict;
use crate::common::predict::undo_prediction_onto;
use crate::decoder::golomb;
use crate::decoder::golomb::fit_len;
use crate::decoder::rle_golomb;
use crate::decoder::rle_golomb::decode_frame_rle_golomb;
use crate::encoder::banded as enc;
use crate::encoder::lengths;
use crate::encoder::ranking;

verus! {

/// The samples of the first `n` bands and the offset behind them.
pub open spec fn bands_at(data: Seq<u8>, w: int, h: int, c: int, bh: int, n: nat) -> Result<
    (Seq<i32>, int),
    Fault,
>
    decreases n,
{
    if n == 0 {
        Ok((Seq::empty(), 2))
    } else {
        match bands_at(data, w, h, c, bh, (n - 1) as nat) {
            Err(f) => Err(f),
            Ok((known, off)) => {
                if off + 6 > data.len() {
                    Err(
                        Fault::Short {
                            expected: error::word(off + 6),
                            actual: data.len() as int,
                        },
                    )
                } else {
                    match framing::part_at(data, off + 2) {
                        Err(f) => Err(f),
                        Ok((code, next)) => {
                            let rows = enc::band_start(n as int, bh, h) - enc::band_start(
                                n - 1,
                                bh,
                                h,
                            );
                            let res = rle_golomb::rle_frame(
                                code,
                                data[off + 1] as nat,
                                (rows * (w * c)) as nat,
                            );
                            let mode = PredictionMode::of_code(data[off]);
                            Ok((predict::undo_from(known, res, w, c, mode), next))
                        },
                    }
                }
            },
        }
    }
}

/// How many of the bands that the data announce lie in the frame.
pub open spec fn bands_used(data: Seq<u8>, h: int, bh: int) -> nat {
    let n = le::le16_at(data, 0);
    let m = blocks::tiles_along(h, bh) as nat;
    if n < m {
        n
    } else {
        m
    }
}

/// The frame that a payload stands for; rows that no band covers are zero.
pub open spec fn banded_result(data: Seq<u8>, w: int, h: int, c: int, bh: int) -> Result<
    Seq<i32>,
    Fault,
> {
    if data.len() < 2 {
        Err(Fault::Short { expected: 2, actual: data.len() as int })
    } else {
        match bands_at(data, w, h, c, bh, bands_used(data, h, bh)) {
            Err(f) => Err(f),
            Ok((known, off)) => Ok(golomb::fitted(known, (h * (w * c)) as nat)),
        }
    }
}

/// Decodes a frame of bands of `band_height` rows.
pub fn decode_banded_with_undo(
    data: &[u8],
    width: usize,
    height: usize,
    components: usize,
    band_height: usize,
) -> (r: CrfResult<Vec<i32>>)
    requires
        predict::geometry_ok(width as int, components as int),
        height <= 0xffff,
        1 <= band_height <= 0xffff,
        height * (width * components) <= usize::MAX,
    ensures
        error::agrees(
            r,
            banded_result(
                data@,
                width as int,
                height as int,
                components as int,
                band_height as int,
            ),
        ),
        r is Ok ==> r->Ok_0@.len() == height * (width * components),
{
    let len: usize = data.len();
    if len < 2 {
        return Err(short(2, 0, len));
    }
    let ghost w = width as int;
    let ghost h = height as int;
    let ghost c = components as int;
    let ghost bh = band_height as int;
    let announced: usize = get_le16(data, 0) as usize;
    let cover: usize = blocks::div_up(height, band_height);
    let n: usize = if announced < cover {
        announced
    } else {
        cover
    };
    proof {
        assert(1 <= w * c <= 0xffff * 4) by (nonlinear_arith)
            requires
                1 <= w <= 0xffff,
                1 <= c <= 4,
        ;
        assert(0 <= h * (w * c)) by (nonlinear_arith)
            requires
                h >= 0,
                w * c >= 0,
        ;
    }
    let stride: usize = width * components;
    let mut known: Vec<i32> = Vec::new();
    let mut off: usize = 2;
    let mut b: usize = 0;
    assert(enc::band_start(0, bh, h) * (w * c) == 0) by {
        assert(0 * bh == 0);
        assert(0 * (w * c) == 0);
    }
    while b < n
        invariant
            predict::geometry_ok(w, c),
            w == width,
            h == height,
            c == components,
            bh == band_height,
            height <= 0xffff,
            1 <= band_height <= 0xffff,
            stride == w * c,
            h * (w * c) <= usize::MAX,
            len == data@.len(),
            len >= 2,
            n == bands_used(data@, h, bh),
            n <= blocks::tiles_along(h, bh),
            b <= n,
            2 <= off <= len,
            known@.len() == enc::band_start(b as int, bh, h) * (w * c),
            bands_at(data@, w, h, c, bh, b as nat) == Ok::<(Seq<i32>, int), Fault>(
                (known@, off as int),
            ),
        decreases n - b,
    {
        proof {
            enc::lemma_band_rows(b as int, bh, h);
            enc::lemma_band_rows((b + 1) as int, bh, h);
            blocks::lemma_tiles_along(h, bh, b as int);
            let y0 = enc::band_start(b as int, bh, h);
            let y1 = enc::band_start(b + 1, bh, h);
            assert(0 <= (y1 - y0) * (w * c) && y0 * (w * c) + (y1 - y0) * (w * c) == y1 * (w * c)
                && y1 * (w * c) <= h * (w * c)) by (nonlinear_arith)
                requires
                    0 <= y0 <= y1 <= h,
                    w * c >= 0,
            ;
        }
        if len - off < 6 {
            proof {
                lemma_error_stays(data@, w, h, c, bh, (b + 1) as nat, n as nat);
            }
            return Err(short(off, 6, len));
        }
        let mode: PredictionMode = PredictionMode::from_u8(data[off]);
        let k: u8 = data[off + 1];
        match get_part(data, off + 2) {
            Err(e) => {
                proof {
                    lemma_error_stays(data@, w, h, c, bh, (b + 1) as nat, n as nat);
                }
                return Err(e);
            },
            Ok((a, z)) => {
                let code: &[u8] = vstd::slice::slice_subrange(data, a, z);
                let y0: usize = b * band_height;
                let y1: usize = if height - y0 < band_height {
                    height
                } else {
                    y0 + band_height
                };
                let count: usize = (y1 - y0) * stride;
                let res: Vec<i32> = decode_frame_rle_golomb(code, k, count);
                proof {
                    rle_golomb::lemma_rle_len(bits::bits_of(code@), 0, k as nat, count as nat);
                    predict::lemma_undo_len(known@, res@, w, c, mode);
                }
                undo_prediction_onto(&mut known, &res, width, components, mode);
                off = z;
            },
        }
        b = b + 1;
    }
    let out: Vec<i32> = fit_len(&known, height * stride);
    Ok(out)
}

/// A fault in a band is a fault of the payload.
proof fn lemma_error_stays(data: Seq<u8>, w: int, h: int, c: int, bh: int, m: nat, n: nat)
    requires
        m <= n,
        bands_at(data, w, h, c, bh, m) is Err,
    ensures
        bands_at(data, w, h, c, bh, n) == bands_at(data, w, h, c, bh, m),
    decreases n,
{
    if m < n {
        lemma_error_stays(data, w, h, c, bh, m, (n - 1) as nat);
    }
}

proof fn lemma_bands_prefix(px: Seq<i32>, w: int, h: int, c: int, bh: int, n: nat, m: nat)
    requires
        n <= m,
    ensures
        exists|rest: Seq<u8>|
            enc::bands_bytes(px, w, h, c, bh, m) == enc::bands_bytes(px, w, h, c, bh, n) + rest,
    decreases m,
{
    let head = enc::bands_bytes(px, w, h, c, bh, n);
    if n == m {
        assert(enc::bands_bytes(px, w, h, c, bh, m) =~= head + Seq::<u8>::empty());
    } else {
        lemma_bands_prefix(px, w, h, c, bh, n, (m - 1) as nat);
        let rest = choose|rest: Seq<u8>|
            enc::bands_bytes(px, w, h, c, bh, (m - 1) as nat) == head + rest;
        let last = enc::nth_band(px, w, h, c, bh, m - 1);
        assert(enc::bands_bytes(px, w, h, c, bh, m) =~= head + (rest + last));
    }
}

/// Reading a band gives its mode and its residuals.
proof fn lemma_band_read(
    px: Seq<i32>,
    w: int,
    c: int,
    lo: int,
    hi: int,
    data: Seq<u8>,
    off: int,
)
    requires
        0 <= lo <= hi <= px.len(),
        px.len() < u32::MAX,
        0 <= off,
        off + enc::band_bytes(px, w, c, lo, hi).len() <= data.len(),
        enc::band_bytes(px, w, c, lo, hi).len() <= u32::MAX,
        data.subrange(off, off + enc::band_bytes(px, w, c, lo, hi).len()) == enc::band_bytes(
            px,
            w,
            c,
            lo,
            hi,
        ),
    ensures
        ({
            let i = enc::stretch_mode(px, w, c, lo, hi);
            let res = enc::stretch(px, w, c, lo, hi, i);
            let band = enc::band_bytes(px, w, c, lo, hi);
            &&& band.len() >= 6
            &&& PredictionMode::of_code(data[off]) == ranking::candidate(i)
            &&& framing::part_at(data, off + 2) == Ok::<(Seq<u8>, int), Fault>(
                (enc::coded(res), off + band.len()),
            )
            &&& rle_golomb::rle_frame(
                enc::coded(res),
                data[off + 1] as nat,
                (hi - lo) as nat,
            ) == res
        }),
{
    let i = enc::stretch_mode(px, w, c, lo, hi);
    let res = enc::stretch(px, w, c, lo, hi, i);
    let band = enc::band_bytes(px, w, c, lo, hi);
    let code = enc::coded(res);
    let k = crate::encoder::rle_golomb::best_k(res);
    crate::common::choose_k::lemma_best_k(crate::common::codes::zigzags(res));
    let sub = data.subrange(off, off + band.len());
    assert(band.len() == 6 + code.len());
    assert(sub[0] == data[off] && sub[1] == data[off + 1]);
    assert(data.subrange(off + 2, off + 6 + code.len()) =~= framing::part(code)) by {
        assert(band.subrange(2, band.len() as int) =~= framing::part(code));
        assert(data.subrange(off + 2, off + 6 + code.len()) =~= sub.subrange(
            2,
            band.len() as int,
        ));
    }
    framing::lemma_part(data, off + 2, code);
    rle_golomb::law_rle_golomb_roundtrip(res, k);
}

/// Each band fits its length field.
pub open spec fn bands_fit(px: Seq<i32>, w: int, h: int, c: int, bh: int) -> bool {
    forall|b: int|
        0 <= b < blocks::tiles_along(h, bh) ==> (#[trigger] enc::nth_band(
            px,
            w,
            h,
            c,
            bh,
            b,
        )).len() <= u32::MAX
}

proof fn lemma_band_len(px: Seq<i32>, w: int, h: int, c: int, bh: int, b: int, n: nat)
    requires
        0 <= b < n,
    ensures
        enc::nth_band(px, w, h, c, bh, b).len() <= enc::bands_bytes(px, w, h, c, bh, n).len(),
    decreases n,
{
    if b < n - 1 {
        lemma_band_len(px, w, h, c, bh, b, (n - 1) as nat);
    }
}

/// Each band fits its length field if they all together do.
pub proof fn lemma_bands_fit(px: Seq<i32>, w: int, h: int, c: int, bh: int)
    requires
        enc::banded_payload(px, w, h, c, bh).len() <= u32::MAX,
    ensures
        bands_fit(px, w, h, c, bh),
{
    let n = blocks::tiles_along(h, bh);
    assert forall|b: int| 0 <= b < n implies (#[trigger] enc::nth_band(
        px,
        w,
        h,
        c,
        bh,
        b,
    )).len() <= u32::MAX by {
        lemma_band_len(px, w, h, c, bh, b, n as nat);
    }
}

proof fn lemma_within(start: Seq<u8>, head: Seq<u8>, band: Seq<u8>, rest: Seq<u8>)
    ensures
        (start + (head + band + rest)).subrange(
            (start.len() + head.len()) as int,
            (start.len() + head.len() + band.len()) as int,
        ) == band,
{
    assert((start + (head + band + rest)).subrange(
        (start.len() + head.len()) as int,
        (start.len() + head.len() + band.len()) as int,
    ) =~= band);
}

#[verifier::spinoff_prover]
proof fn lemma_bands_back(
    px: Seq<i32>,
    w: int,
    h: int,
    c: int,
    bh: int,
    data: Seq<u8>,
    n: nat,
)
    requires
        predict::geometry_ok(w, c),
        0 <= h <= 0xffff,
        1 <= bh,
        px.len() == h * (w * c),
        px.len() < u32::MAX,
        n <= blocks::tiles_along(h, bh),
        data == enc::banded_payload(px, w, h, c, bh),
        bands_fit(px, w, h, c, bh),
    ensures
        bands_at(data, w, h, c, bh, n) == Ok::<(Seq<i32>, int), Fault>(
            (
                px.take(enc::band_start(n as int, bh, h) * (w * c)),
                (2 + enc::bands_bytes(px, w, h, c, bh, n).len()) as int,
            ),
        ),
        0 <= enc::band_start(n as int, bh, h) * (w * c) <= px.len(),
    decreases n,
{
    let all = blocks::tiles_along(h, bh) as nat;
    let st = w * c;
    assert(1 <= st) by (nonlinear_arith)
        requires
            1 <= w,
            1 <= c,
            st == w * c,
    ;
    if n == 0 {
        enc::lemma_band_rows(0, bh, h);
        assert(0 * bh == 0);
        assert(enc::band_start(0, bh, h) == 0);
        assert(0 * st == 0);
        assert(px.take(0) =~= Seq::<i32>::empty());
        assert(0 <= px.len());
    } else {
        let b = n - 1;
        lemma_bands_back(px, w, h, c, bh, data, b as nat);
        enc::lemma_band_rows(b, bh, h);
        enc::lemma_band_rows(n as int, bh, h);
        let y0 = enc::band_start(b, bh, h);
        let y1 = enc::band_start(n as int, bh, h);
        assert(0 <= y0 * st <= y1 * st <= h * st && (y1 - y0) * st == y1 * st - y0 * st)
            by (nonlinear_arith)
            requires
                0 <= y0 <= y1 <= h,
                st >= 0,
        ;
        let lo = y0 * st;
        let hi = y1 * st;
        lemma_bands_prefix(px, w, h, c, bh, n, all);
        let head = enc::bands_bytes(px, w, h, c, bh, b as nat);
        let band = enc::nth_band(px, w, h, c, bh, b);
        let rest = choose|rest: Seq<u8>|
            enc::bands_bytes(px, w, h, c, bh, all) == enc::bands_bytes(px, w, h, c, bh, n) + rest;
        let off = (2 + head.len()) as int;
        assert(band.len() <= u32::MAX);
        assert(enc::bands_bytes(px, w, h, c, bh, n) == head + band);
        lemma_within(le::le16(all as u16), head, band, rest);
        assert(data.subrange(off, off + band.len()) == band);
        lemma_band_read(px, w, c, lo, hi, data, off);
        let mode = ranking::candidate(enc::stretch_mode(px, w, c, lo, hi));
        predict::lemma_undo_residuals(px, w, c, mode, lo, hi);
    }
}

/// Coding a frame by bands loses nothing, whatever the height of the bands, as long as lengths fit
/// their fields.
pub proof fn law_banded_roundtrip(px: Seq<i32>, w: int, h: int, c: int, bh: int)
    requires
        predict::geometry_ok(w, c),
        0 <= h <= 0xffff,
        1 <= bh,
        px.len() == h * (w * c),
        px.len() < u32::MAX,
        bands_fit(px, w, h, c, bh),
    ensures
        banded_result(enc::banded_payload(px, w, h, c, bh), w, h, c, bh) == Ok::<Seq<i32>, Fault>(
            px,
        ),
{
    let data = enc::banded_payload(px, w, h, c, bh);
    let n = blocks::tiles_along(h, bh) as nat;
    blocks::lemma_tiles_along(h, bh, 0);
    assert(data.subrange(0, 2) =~= le::le16(n as u16));
    le::lemma_le16(data, 0, n as u16);
    lemma_bands_back(px, w, h, c, bh, data, n);
    enc::lemma_band_rows(n as int, bh, h);
    assert(px.take(px.len() as int) =~= px);
    assert(golomb::fitted(px, px.len()) =~= px);
}

/// A band of small samples is not long.
proof fn lemma_small_band(px: Seq<i32>, w: int, c: int, lo: int, hi: int, size: int, m: int)
    requires
        predict::geometry_ok(w, c),
        0 <= lo <= hi <= px.len(),
        hi - lo <= size,
        bounds::small(px, m),
        0 <= m <= 0x10_0000,
        size * (m / 16 + 11) <= 0x7_ffff_ff00,
    ensures
        enc::band_bytes(px, w, c, lo, hi).len() <= u32::MAX,
{
    let i = enc::stretch_mode(px, w, c, lo, hi);
    let res = enc::stretch(px, w, c, lo, hi, i);
    bounds::lemma_residuals_small(px, w, c, ranking::candidate(i), lo, hi, m);
    lengths::lemma_rle_bytes(res, 2 * m);
    assert(enc::band_bytes(px, w, c, lo, hi).len() == 6 + enc::coded(res).len());
    assert((hi - lo) * ((4 * m) / 64 + 11) <= size * (m / 16 + 11)) by (nonlinear_arith)
        requires
            0 <= hi - lo <= size,
            0 <= (4 * m) / 64 + 11 <= m / 16 + 11,
    ;
}

/// Coding a frame by bands loses nothing if its samples are small for the size of a band: lengths fit
/// their fields then.
pub proof fn law_small_banded_roundtrip(px: Seq<i32>, w: int, h: int, c: int, bh: int, m: int)
    requires
        predict::geometry_ok(w, c),
        0 <= h <= 0xffff,
        1 <= bh,
        px.len() == h * (w * c),
        px.len() < u32::MAX,
        bounds::small(px, m),
        0 <= m <= 0x10_0000,
        bh * (w * c) * (m / 16 + 11) <= 0x7_ffff_ff00,
    ensures
        bands_fit(px, w, h, c, bh),
        banded_result(enc::banded_payload(px, w, h, c, bh), w, h, c, bh) == Ok::<Seq<i32>, Fault>(
            px,
        ),
{
    let st = w * c;
    assert(st >= 0) by (nonlinear_arith)
        requires
            1 <= w,
            1 <= c,
            st == w * c,
    ;
    assert forall|b: int| 0 <= b < blocks::tiles_along(h, bh) implies (#[trigger] enc::nth_band(
        px,
        w,
        h,
        c,
        bh,
        b,
    )).len() <= u32::MAX by {
        enc::lemma_band_rows(b, bh, h);
        enc::lemma_band_rows(b + 1, bh, h);
        let (y0, y1) = (enc::band_start(b, bh, h), enc::band_start(b + 1, bh, h));
        assert((b + 1) * bh == b * bh + bh) by (nonlinear_arith);
        let (lo, hi) = (y0 * st, y1 * st);
        assert(0 <= lo <= hi <= h * st && hi - lo <= bh * st) by (nonlinear_arith)
            requires
                lo == y0 * st,
                hi == y1 * st,
                0 <= y0 <= y1 <= h,
                y1 - y0 <= bh,
                st >= 0,
        ;
        lemma_small_band(px, w, c, lo, hi, bh * st, m);
    }
    law_banded_roundtrip(px, w, h, c, bh);
}

} // verus!

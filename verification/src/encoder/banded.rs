//! Frames cut into bands of rows, each with its own prediction mode.

use vstd::prelude::*;
use crate::common::blocks;
use crate::common::blocks::div_up;
use crate::common::domain::{ImageData, PredictionMode};
use crate::common::error::{invalid, CrfResult};
use crate::common::framing;
use crate::common::framing::put_part;
use crate::common::le;
use crate::common::le::{put_bytes, put_le16};
use crate::common::par::par_map;
use crate::common::predict;
use crate::common::predict::{apply_prediction_range, predict_at};
use crate::encoder::ranking;
use crate::encoder::ranking::{candidate_mode, sum_mag_exec, top2_exec, CANDIDATES};
use crate::encoder::rle_golomb;
use crate::encoder::rle_golomb::encode_frame_rle_golomb_adaptive;

verus! {

/// Zero-run code of residuals with its best parameter.
pub open spec fn coded(res: Seq<i32>) -> Seq<u8> {
    rle_golomb::rle_bytes(res, rle_golomb::best_k(res))
}

/// Residuals of the samples `lo..hi` in mode number `i`.
pub open spec fn stretch(px: Seq<i32>, w: int, c: int, lo: int, hi: int, i: int) -> Seq<i32> {
    predict::residuals(px, w, c, ranking::candidate(i), lo, hi)
}

/// The cost of each mode.
pub open spec fn stretch_costs(px: Seq<i32>, w: int, c: int, lo: int, hi: int) -> Seq<int> {
    Seq::new(CANDIDATES as nat, |i: int| ranking::sum_mag(stretch(px, w, c, lo, hi, i)))
}

/// The mode that codes the samples `lo..hi`: of the two with the least residuals the one with the
/// shorter code.
pub open spec fn stretch_mode(px: Seq<i32>, w: int, c: int, lo: int, hi: int) -> int {
    let (a, b) = ranking::top2(stretch_costs(px, w, c, lo, hi));
    if coded(stretch(px, w, c, lo, hi, b)).len() < coded(stretch(px, w, c, lo, hi, a)).len() {
        b
    } else {
        a
    }
}

/// The coded band: mode, parameter, length and code.
pub open spec fn band_bytes(px: Seq<i32>, w: int, c: int, lo: int, hi: int) -> Seq<u8> {
    let i = stretch_mode(px, w, c, lo, hi);
    let res = stretch(px, w, c, lo, hi, i);
    seq![ranking::candidate(i).code(), rle_golomb::best_k(res) as u8] + framing::part(coded(res))
}

/// The row at which band `b` starts.
pub open spec fn band_start(b: int, bh: int, h: int) -> int {
    if b * bh < h {
        b * bh
    } else {
        h
    }
}

/// Band `b` of a frame.
pub open spec fn nth_band(px: Seq<i32>, w: int, h: int, c: int, bh: int, b: int) -> Seq<u8> {
    band_bytes(
        px,
        w,
        c,
        band_start(b, bh, h) * (w * c),
        band_start(b + 1, bh, h) * (w * c),
    )
}

/// The first `n` bands.
pub open spec fn bands_bytes(px: Seq<i32>, w: int, h: int, c: int, bh: int, n: nat) -> Seq<u8>
    decreases n,
{
    if n == 0 {
        Seq::empty()
    } else {
        bands_bytes(px, w, h, c, bh, (n - 1) as nat) + nth_band(px, w, h, c, bh, n - 1)
    }
}

/// What [`encode_banded_payload`] returns: the number of bands, then the bands.
pub open spec fn banded_payload(px: Seq<i32>, w: int, h: int, c: int, bh: int) -> Seq<u8> {
    let n = blocks::tiles_along(h, bh) as nat;
    le::le16(n as u16) + bands_bytes(px, w, h, c, bh, n)
}

/// What coding a stretch of samples needs.
pub open spec fn stretch_ready(px: Seq<i32>, w: usize, c: usize, lo: usize, hi: usize) -> bool {
    &&& predict::geometry_ok(w as int, c as int)
    &&& lo <= hi <= px.len()
    &&& px.len() < u32::MAX
}

pub open spec fn stretch_done(
    px: Seq<i32>,
    w: usize,
    c: usize,
    lo: usize,
    hi: usize,
    r: CrfResult<Vec<u8>>,
) -> bool {
    r is Ok && r->Ok_0@ == band_bytes(px, w as int, c as int, lo as int, hi as int)
}

/// Codes the samples `lo..hi`.
fn encode_one_band(pixels: &[i32], width: usize, components: usize, lo: usize, hi: usize) -> (r:
    CrfResult<Vec<u8>>)
    requires
        stretch_ready(pixels@, width, components, lo, hi),
    ensures
        stretch_done(pixels@, width, components, lo, hi, r),
{
    let ghost w = width as int;
    let ghost c = components as int;
    let ghost want = stretch_costs(pixels@, w, c, lo as int, hi as int);
    let mut all: Vec<Vec<i32>> = Vec::new();
    let mut costs: Vec<u128> = Vec::new();
    let mut i: usize = 0;
    while i < CANDIDATES
        invariant
            stretch_ready(pixels@, width, components, lo, hi),
            w == width,
            c == components,
            want == stretch_costs(pixels@, w, c, lo as int, hi as int),
            i <= CANDIDATES,
            all@.len() == i,
            costs@.len() == i,
            forall|j: int|
                0 <= j < i ==> (#[trigger] all@[j])@ == stretch(
                    pixels@,
                    w,
                    c,
                    lo as int,
                    hi as int,
                    j,
                ),
            ranking::as_ints(costs@) == want.take(i as int),
        decreases CANDIDATES - i,
    {
        let res: Vec<i32> = apply_prediction_range(
            pixels,
            width,
            components,
            candidate_mode(i),
            lo,
            hi,
        );
        let s: u64 = sum_mag_exec(&res);
        let ghost before = ranking::as_ints(costs@);
        costs.push(s as u128);
        all.push(res);
        i = i + 1;
        assert(ranking::as_ints(costs@) =~= before.push(s as int));
        assert(ranking::as_ints(costs@) =~= want.take(i as int));
    }
    assert(ranking::as_ints(costs@) =~= want);
    let (a, b) = top2_exec(&costs);
    match (encode_frame_rle_golomb_adaptive(&all[a]), encode_frame_rle_golomb_adaptive(&all[b])) {
        (Ok((da, ka)), Ok((db, kb))) => {
            let mut out: Vec<u8> = Vec::new();
            if db.len() < da.len() {
                out.push(candidate_mode(b).to_u8());
                out.push(kb);
                put_part(&mut out, &db);
            } else {
                out.push(candidate_mode(a).to_u8());
                out.push(ka);
                put_part(&mut out, &da);
            }
            assert(out@ =~= band_bytes(pixels@, w, c, lo as int, hi as int));
            Ok(out)
        },
        _ => Err(invalid("no banded candidate")),
    }
}

pub proof fn lemma_band_rows(b: int, bh: int, h: int)
    requires
        0 <= b,
        bh >= 1,
        h >= 0,
    ensures
        0 <= band_start(b, bh, h) <= band_start(b + 1, bh, h) <= h,
        b < blocks::tiles_along(h, bh) ==> band_start(b, bh, h) == b * bh,
        b * bh < h ==> band_start(b + 1, bh, h) == if h - b * bh < bh {
            h
        } else {
            b * bh + bh
        },
        b >= blocks::tiles_along(h, bh) ==> band_start(b, bh, h) == h,
{
    assert(b * bh >= 0) by (nonlinear_arith)
        requires
            b >= 0,
            bh >= 1,
    ;
    assert((b + 1) * bh == b * bh + bh) by (nonlinear_arith);
    blocks::lemma_tiles_along(h, bh, b);
}

/// Codes an image by bands of `band_height` rows.
pub fn encode_banded_payload(image: &ImageData, band_height: usize) -> (r: CrfResult<Vec<u8>>)
    requires
        image.wf(),
        image.width >= 1,
        1 <= band_height <= 0xffff,
    ensures
        r is Ok,
        r->Ok_0@ == banded_payload(
            image.pixels@,
            image.width as int,
            image.height as int,
            image.color_format.spec_count() as int,
            band_height as int,
        ),
{
    let width: usize = image.width as usize;
    let height: usize = image.height as usize;
    let components: usize = image.color_format.component_count();
    let pixels: &Vec<i32> = &image.pixels;
    let ghost w = width as int;
    let ghost h = height as int;
    let ghost c = components as int;
    let ghost bh = band_height as int;
    let n: usize = div_up(height, band_height);
    proof {
        assert(w * h * c == h * (w * c)) by (nonlinear_arith);
        assert(1 <= w * c <= 0xffff * 4) by (nonlinear_arith)
            requires
                1 <= w <= 0xffff,
                1 <= c <= 4,
        ;
    }
    let stride: usize = width * components;
    let total: usize = pixels.len();
    let mut jobs: Vec<(usize, usize)> = Vec::new();
    let mut b: usize = 0;
    while b < n
        invariant
            1 <= band_height <= 0xffff,
            height <= 0xffff,
            bh == band_height,
            h == height,
            stride == w * c,
            total == h * (w * c),
            n == blocks::tiles_along(h, bh),
            b <= n,
            jobs@.len() == b,
            forall|j: int|
                0 <= j < b ==> ({
                    let job = #[trigger] jobs@[j];
                    &&& job.0 == band_start(j, bh, h) * (w * c)
                    &&& job.1 == band_start(j + 1, bh, h) * (w * c)
                    &&& job.0 <= job.1 <= total
                }),
        decreases n - b,
    {
        proof {
            lemma_band_rows(b as int, bh, h);
            lemma_band_rows((b + 1) as int, bh, h);
            blocks::lemma_tiles_along(h, bh, b as int);
            let y0 = band_start(b as int, bh, h);
            let y1 = band_start(b + 1, bh, h);
            assert(0 <= y0 * (w * c) <= y1 * (w * c) <= h * (w * c)) by (nonlinear_arith)
                requires
                    0 <= y0 <= y1 <= h,
                    w * c >= 0,
            ;
        }
        let y0: usize = b * band_height;
        let y1: usize = if height - y0 < band_height {
            height
        } else {
            y0 + band_height
        };
        jobs.push((y0 * stride, y1 * stride));
        b = b + 1;
    }
    let code = |job: &(usize, usize)| -> (r: CrfResult<Vec<u8>>)
        requires
            stretch_ready(pixels@, width, components, job.0, job.1),
        ensures
            stretch_done(pixels@, width, components, job.0, job.1, r),
        {
            encode_one_band(pixels, width, components, job.0, job.1)
        };
    let coded: Vec<CrfResult<Vec<u8>>> = par_map(&jobs, code);
    let mut out: Vec<u8> = Vec::new();
    put_le16(&mut out, n as u16);
    let ghost head = out@;
    let mut i: usize = 0;
    assert(head =~= le::le16(n as u16));
    assert(out@ =~= head + bands_bytes(pixels@, w, h, c, bh, 0));
    while i < n
        invariant
            i <= n,
            coded@.len() == n,
            jobs@.len() == n,
            w == width,
            c == components,
            forall|j: int|
                0 <= j < n ==> ({
                    let job = #[trigger] jobs@[j];
                    &&& job.0 == band_start(j, bh, h) * (w * c)
                    &&& job.1 == band_start(j + 1, bh, h) * (w * c)
                }),
            forall|j: int|
                0 <= j < n ==> stretch_done(
                    pixels@,
                    width,
                    components,
                    jobs@[j].0,
                    jobs@[j].1,
                    #[trigger] coded@[j],
                ),
            out@ == head + bands_bytes(pixels@, w, h, c, bh, i as nat),
        decreases n - i,
    {
        assert(jobs@[i as int].0 == band_start(i as int, bh, h) * (w * c));
        match &coded[i] {
            Ok(p) => {
                put_bytes(&mut out, p);
                assert(out@ =~= head + bands_bytes(pixels@, w, h, c, bh, (i + 1) as nat));
            },
            Err(_) => {
                return Err(invalid("band"));
            },
        }
        i = i + 1;
    }
    Ok(out)
}

/// What cutting the bands of a frame in two would save.
pub struct BandSplitProbe {
    /// Bytes of the bands as they are.
    pub full_bytes: usize,
    /// Bytes of the bands with each cut in two.
    pub split_bytes: usize,
    /// Number of bands that get shorter.
    pub bands_won: usize,
    /// Number of bands.
    pub band_count: usize,
}

/// The place in the image of sample `j` of a region that starts at column `x0`, row `y0` and is
/// `rw` samples wide.
pub open spec fn region_pos(j: int, stride: int, y0: int, x0c: int, rw: int) -> int {
    (y0 + j / rw) * stride + x0c + j % rw
}

/// Residuals of the region of rows `y0..y1` and columns `x0..x1`; predictions may reach out of it.
pub open spec fn region(
    px: Seq<i32>,
    w: int,
    c: int,
    y0: int,
    y1: int,
    x0: int,
    x1: int,
    i: int,
) -> Seq<i32> {
    let rw = (x1 - x0) * c;
    Seq::new(
        ((y1 - y0) * rw) as nat,
        |j: int|
            {
                let p = region_pos(j, w * c, y0, x0 * c, rw);
                px[p].wrapping_sub(predict::predict_spec(px, p, w, c, ranking::candidate(i)))
            },
    )
}

/// Bytes of the coded region: mode, parameter, length, and the shorter code of the two modes with
/// the least residuals.
pub open spec fn region_cost(
    px: Seq<i32>,
    w: int,
    c: int,
    y0: int,
    y1: int,
    x0: int,
    x1: int,
) -> int {
    let costs = Seq::new(
        CANDIDATES as nat,
        |i: int| ranking::sum_mag(region(px, w, c, y0, y1, x0, x1, i)),
    );
    let (a, b) = ranking::top2(costs);
    let la = coded(region(px, w, c, y0, y1, x0, x1, a)).len() as int;
    let lb = coded(region(px, w, c, y0, y1, x0, x1, b)).len() as int;
    predict::min2(la, lb) + 6
}

fn region_exec(
    pixels: &Vec<i32>,
    width: usize,
    components: usize,
    y0: usize,
    y1: usize,
    x0: usize,
    x1: usize,
    i: usize,
) -> (res: Vec<i32>)
    requires
        predict::geometry_ok(width as int, components as int),
        y0 <= y1 <= 0xffff,
        x0 < x1 <= width,
        y1 * (width * components) <= pixels@.len(),
    ensures
        res@ == region(
            pixels@,
            width as int,
            components as int,
            y0 as int,
            y1 as int,
            x0 as int,
            x1 as int,
            i as int,
        ),
        res@.len() <= pixels@.len(),
{
    let ghost w = width as int;
    let ghost c = components as int;
    let ghost all = region(pixels@, w, c, y0 as int, y1 as int, x0 as int, x1 as int, i as int);
    proof {
        lemma_region(w, c, y0 as int, y1 as int, x0 as int, x1 as int);
    }
    let stride: usize = width * components;
    let rw: usize = (x1 - x0) * components;
    let total: usize = pixels.len();
    let n: usize = (y1 - y0) * rw;
    let mode: PredictionMode = candidate_mode(i);
    let mut res: Vec<i32> = Vec::new();
    let mut j: usize = 0;
    while j < n
        invariant
            predict::geometry_ok(w, c),
            w == width,
            c == components,
            y0 <= y1 <= 0xffff,
            x0 < x1 <= width,
            stride == w * c,
            rw == (x1 - x0) * c,
            1 <= rw <= stride <= 0xffff * 4,
            n == (y1 - y0) * rw,
            total == pixels@.len(),
            y1 * (w * c) <= total,
            x0 * c + rw <= stride,
            0 <= x0 * c,
            mode == ranking::candidate(i as int),
            all == region(
                pixels@,
                w,
                c,
                y0 as int,
                y1 as int,
                x0 as int,
                x1 as int,
                i as int,
            ),
            all.len() == n,
            j <= n,
            res@ == all.take(j as int),
        decreases n - j,
    {
        proof {
            lemma_region_pos(j as int, w, c, y0 as int, y1 as int, x0 as int, x1 as int);
        }
        let p: usize = (y0 + j / rw) * stride + (x0 * components + j % rw);
        let x: usize = x0 + (j % rw) / components;
        let g: i32 = predict_at(pixels, p, x, components, width, mode);
        res.push(pixels[p].wrapping_sub(g));
        j = j + 1;
        assert(res@ =~= all.take(j as int));
    }
    assert(res@ =~= all);
    proof {
        assert((y1 - y0) * rw <= y1 * (w * c)) by (nonlinear_arith)
            requires
                0 <= y0 <= y1,
                0 <= rw <= w * c,
        ;
    }
    res
}

proof fn lemma_region(w: int, c: int, y0: int, y1: int, x0: int, x1: int)
    requires
        predict::geometry_ok(w, c),
        0 <= y0 <= y1 <= 0xffff,
        0 <= x0 < x1 <= w,
    ensures
        1 <= (x1 - x0) * c <= w * c <= 0xffff * 4,
        0 <= x0 * c,
        x0 * c + (x1 - x0) * c <= w * c,
        0 <= (y1 - y0) * ((x1 - x0) * c) <= y1 * (w * c),
{
    assert(1 <= (x1 - x0) * c <= w * c <= 0xffff * 4) by (nonlinear_arith)
        requires
            1 <= x1 - x0 <= w,
            w <= 0xffff,
            1 <= c <= 4,
    ;
    assert(0 <= x0 * c && x0 * c + (x1 - x0) * c <= w * c) by (nonlinear_arith)
        requires
            0 <= x0 < x1 <= w,
            1 <= c,
    ;
    let rw = (x1 - x0) * c;
    assert(0 <= (y1 - y0) * rw <= y1 * (w * c)) by (nonlinear_arith)
        requires
            0 <= y0 <= y1,
            0 <= rw <= w * c,
    ;
}

proof fn lemma_region_pos(j: int, w: int, c: int, y0: int, y1: int, x0: int, x1: int)
    requires
        predict::geometry_ok(w, c),
        0 <= y0 <= y1 <= 0xffff,
        0 <= x0 < x1 <= w,
        0 <= j < (y1 - y0) * ((x1 - x0) * c),
    ensures
        ({
            let rw = (x1 - x0) * c;
            let p = region_pos(j, w * c, y0, x0 * c, rw);
            &&& 0 <= j / rw < y1 - y0
            &&& 0 <= j % rw < rw
            &&& 0 <= (y0 + j / rw) * (w * c) <= p < y1 * (w * c)
            &&& (p / c) % w == x0 + (j % rw) / c
        }),
{
    lemma_region(w, c, y0, y1, x0, x1);
    let rw = (x1 - x0) * c;
    let st = w * c;
    vstd::arithmetic::div_mod::lemma_fundamental_div_mod(j, rw);
    vstd::arithmetic::div_mod::lemma_div_pos_is_pos(j, rw);
    let r = j / rw;
    let k = j % rw;
    assert(r < y1 - y0) by (nonlinear_arith)
        requires
            j == rw * r + k,
            0 <= k,
            j < (y1 - y0) * rw,
            rw >= 1,
    ;
    let y = y0 + r;
    let p = y * st + x0 * c + k;
    assert(0 <= y * st <= p < y1 * st) by (nonlinear_arith)
        requires
            p == y * st + x0 * c + k,
            0 <= y < y1,
            0 <= x0 * c,
            0 <= k,
            x0 * c + k < st,
    ;
    vstd::arithmetic::div_mod::lemma_fundamental_div_mod(k, c);
    vstd::arithmetic::div_mod::lemma_div_pos_is_pos(k, c);
    let kx = k / c;
    let kc = k % c;
    assert(p == (y * w + x0 + kx) * c + kc) by (nonlinear_arith)
        requires
            p == y * (w * c) + x0 * c + k,
            k == c * kx + kc,
    ;
    vstd::arithmetic::div_mod::lemma_fundamental_div_mod_converse(p, c, y * w + x0 + kx, kc);
    assert(kx < x1 - x0) by (nonlinear_arith)
        requires
            k == c * kx + kc,
            0 <= kc,
            k < (x1 - x0) * c,
            c >= 1,
    ;
    vstd::arithmetic::div_mod::lemma_fundamental_div_mod_converse(
        y * w + x0 + kx,
        w,
        y,
        x0 + kx,
    );
}

/// Bytes that a region takes. `None` if they cannot be counted.
fn probe_region_cost(
    pixels: &Vec<i32>,
    width: usize,
    components: usize,
    y0: usize,
    y1: usize,
    x0: usize,
    x1: usize,
) -> (r: Option<usize>)
    requires
        predict::geometry_ok(width as int, components as int),
        y0 <= y1 <= 0xffff,
        x0 < x1 <= width,
        y1 * (width * components) <= pixels@.len(),
        pixels@.len() < u32::MAX,
    ensures
        ({
            let n = region_cost(
                pixels@,
                width as int,
                components as int,
                y0 as int,
                y1 as int,
                x0 as int,
                x1 as int,
            );
            if n <= usize::MAX {
                r == Some(n as usize)
            } else {
                r is None
            }
        }),
{
    let ghost w = width as int;
    let ghost c = components as int;
    let ghost want = Seq::new(
        CANDIDATES as nat,
        |i: int|
            ranking::sum_mag(
                region(pixels@, w, c, y0 as int, y1 as int, x0 as int, x1 as int, i),
            ),
    );
    let mut all: Vec<Vec<i32>> = Vec::new();
    let mut costs: Vec<u128> = Vec::new();
    let mut i: usize = 0;
    while i < CANDIDATES
        invariant
            predict::geometry_ok(w, c),
            w == width,
            c == components,
            y0 <= y1 <= 0xffff,
            x0 < x1 <= width,
            y1 * (width * components) <= pixels@.len(),
            pixels@.len() < u32::MAX,
            want == Seq::new(
                CANDIDATES as nat,
                |i: int|
                    ranking::sum_mag(
                        region(pixels@, w, c, y0 as int, y1 as int, x0 as int, x1 as int, i),
                    ),
            ),
            i <= CANDIDATES,
            all@.len() == i,
            costs@.len() == i,
            forall|j: int|
                0 <= j < i ==> (#[trigger] all@[j])@ == region(
                    pixels@,
                    w,
                    c,
                    y0 as int,
                    y1 as int,
                    x0 as int,
                    x1 as int,
                    j,
                ) && all@[j]@.len() < u32::MAX,
            ranking::as_ints(costs@) == want.take(i as int),
        decreases CANDIDATES - i,
    {
        let res: Vec<i32> = region_exec(pixels, width, components, y0, y1, x0, x1, i);
        let s: u64 = sum_mag_exec(&res);
        let ghost before = ranking::as_ints(costs@);
        costs.push(s as u128);
        all.push(res);
        i = i + 1;
        assert(ranking::as_ints(costs@) =~= before.push(s as int));
        assert(ranking::as_ints(costs@) =~= want.take(i as int));
    }
    assert(ranking::as_ints(costs@) =~= want);
    let (a, b) = top2_exec(&costs);
    match (encode_frame_rle_golomb_adaptive(&all[a]), encode_frame_rle_golomb_adaptive(&all[b])) {
        (Ok((da, ka)), Ok((db, kb))) => {
            let n: usize = if da.len() < db.len() {
                da.len()
            } else {
                db.len()
            };
            if n > usize::MAX - 6 {
                None
            } else {
                Some(n + 6)
            }
        },
        _ => Some(0),
    }
}

/// The figures of [`probe_band_split_savings`] over the first `n` bands.
pub open spec fn split_probe(px: Seq<i32>, w: int, h: int, c: int, bh: int, n: nat) -> (
    int,
    int,
    int,
)
    decreases n,
{
    if n == 0 {
        (0, 0, 0)
    } else {
        let (f, s, won) = split_probe(px, w, h, c, bh, (n - 1) as nat);
        let y0 = band_start(n - 1, bh, h);
        let y1 = band_start(n as int, bh, h);
        let mid = w / 2;
        let full = region_cost(px, w, c, y0, y1, 0, w);
        if mid == 0 {
            (f + full, s + full, won)
        } else {
            let split = region_cost(px, w, c, y0, y1, 0, mid) + region_cost(
                px,
                w,
                c,
                y0,
                y1,
                mid,
                w,
            );
            (
                f + full,
                s + split,
                won + if split < full {
                    1int
                } else {
                    0
                },
            )
        }
    }
}

fn checked_sum(a: Option<usize>, b: Option<usize>) -> (r: Option<usize>)
    ensures
        r == match (a, b) {
            (Some(x), Some(y)) => if x + y <= usize::MAX {
                Some((x + y) as usize)
            } else {
                None
            },
            _ => None,
        },
{
    match (a, b) {
        (Some(x), Some(y)) => x.checked_add(y),
        _ => None,
    }
}

/// Measures what cutting each band of a frame into a left and a right half would save. Fails where
/// the bytes cannot be counted.
pub fn probe_band_split_savings(image: &ImageData, band_height: usize) -> (r: CrfResult<
    BandSplitProbe,
>)
    requires
        image.wf(),
        image.width >= 1,
        1 <= band_height <= 0xffff,
    ensures
        ({
            let n = blocks::tiles_along(image.height as int, band_height as int) as nat;
            let (f, s, won) = split_probe(
                image.pixels@,
                image.width as int,
                image.height as int,
                image.color_format.spec_count() as int,
                band_height as int,
                n,
            );
            &&& r is Ok ==> r->Ok_0.full_bytes == f && r->Ok_0.split_bytes == s
                && r->Ok_0.bands_won == won && r->Ok_0.band_count == n
            &&& r is Ok <==> f <= usize::MAX && s <= usize::MAX
            &&& r is Err ==> r->Err_0 is InvalidCodingParams
        }),
{
    let width: usize = image.width as usize;
    let height: usize = image.height as usize;
    let components: usize = image.color_format.component_count();
    let pixels: &Vec<i32> = &image.pixels;
    let ghost w = width as int;
    let ghost h = height as int;
    let ghost c = components as int;
    let ghost bh = band_height as int;
    let n: usize = div_up(height, band_height);
    let mid: usize = width / 2;
    proof {
        assert(w * h * c == h * (w * c)) by (nonlinear_arith);
        assert(1 <= w * c <= 0xffff * 4) by (nonlinear_arith)
            requires
                1 <= w <= 0xffff,
                1 <= c <= 4,
        ;
        blocks::lemma_tiles_along(h, bh, 0);
    }
    let mut full: Option<usize> = Some(0);
    let mut split: Option<usize> = Some(0);
    let mut won: usize = 0;
    let mut b: usize = 0;
    while b < n
        invariant
            predict::geometry_ok(w, c),
            w == width,
            h == height,
            c == components,
            bh == band_height,
            1 <= band_height <= 0xffff,
            height <= 0xffff,
            pixels@.len() == h * (w * c),
            pixels@.len() < u32::MAX,
            n == blocks::tiles_along(h, bh),
            n <= height,
            mid == w / 2,
            b <= n,
            won <= b,
            ({
                let (f, s, k) = split_probe(pixels@, w, h, c, bh, b as nat);
                &&& f >= 0
                &&& s >= 0
                &&& full is Some ==> full->0 == f
                &&& split is Some ==> split->0 == s
                &&& full is None ==> f > usize::MAX
                &&& split is None ==> s > usize::MAX || f > usize::MAX
                &&& full is Some && split is Some ==> won == k
            }),
        decreases n - b,
    {
        proof {
            lemma_band_rows(b as int, bh, h);
            lemma_band_rows((b + 1) as int, bh, h);
            blocks::lemma_tiles_along(h, bh, b as int);
            let y1 = band_start(b + 1, bh, h);
            assert(y1 * (w * c) <= h * (w * c)) by (nonlinear_arith)
                requires
                    y1 <= h,
                    w * c >= 0,
            ;
        }
        let y0: usize = b * band_height;
        let y1: usize = if height - y0 < band_height {
            height
        } else {
            y0 + band_height
        };
        let cf: Option<usize> = probe_region_cost(pixels, width, components, y0, y1, 0, width);
        let cs: Option<usize> = if mid == 0 {
            cf
        } else {
            let l: Option<usize> = probe_region_cost(pixels, width, components, y0, y1, 0, mid);
            let r: Option<usize> = probe_region_cost(
                pixels,
                width,
                components,
                y0,
                y1,
                mid,
                width,
            );
            checked_sum(l, r)
        };
        if mid != 0 {
            if let (Some(f), Some(s)) = (cf, cs) {
                if s < f {
                    won = won + 1;
                }
            }
        }
        full = checked_sum(full, cf);
        split = checked_sum(split, cs);
        b = b + 1;
    }
    match (full, split) {
        (Some(f), Some(s)) => Ok(
            BandSplitProbe { full_bytes: f, split_bytes: s, bands_won: won, band_count: n },
        ),
        _ => Err(invalid("band probe")),
    }
}

/// A stretch of rows is coded no longer than with the prediction whose residuals are least.
pub proof fn law_stretch_mode(px: Seq<i32>, w: int, c: int, lo: int, hi: int, i: int)
    requires
        0 <= i < CANDIDATES,
    ensures
        ({
            let m = stretch_mode(px, w, c, lo, hi);
            let costs = stretch_costs(px, w, c, lo, hi);
            &&& 0 <= m < CANDIDATES
            &&& (forall|j: int| 0 <= j < CANDIDATES && j != i ==> costs[i] < #[trigger] costs[j])
                ==> coded(stretch(px, w, c, lo, hi, m)).len() <= coded(
                stretch(px, w, c, lo, hi, i),
            ).len()
        }),
{
    let costs = stretch_costs(px, w, c, lo, hi);
    let (a, b) = ranking::top2(costs);
    ranking::law_top2(costs, i);
    if forall|j: int| 0 <= j < CANDIDATES && j != i ==> costs[i] < #[trigger] costs[j] {
        if a != i {
            assert(costs[i] < costs[a]);
            ranking::law_least(costs, -1, i);
        }
    }
}

/// Splitting pays in all if it pays in every band, and not if it pays in none.
pub proof fn law_split_probe(px: Seq<i32>, w: int, h: int, c: int, bh: int, n: nat)
    ensures
        ({
            let (f, s, won) = split_probe(px, w, h, c, bh, n);
            &&& 0 <= won <= n
            &&& won == n && n > 0 ==> s < f
            &&& won == 0 ==> f <= s
        }),
    decreases n,
{
    if n > 0 {
        law_split_probe(px, w, h, c, bh, (n - 1) as nat);
    }
}

} // verus!

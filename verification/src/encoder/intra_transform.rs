//! Planes coded by predicted and transformed blocks of eight by eight.

use vstd::prelude::*;
use vstd::arithmetic::div_mod::*;
use crate::common::blocks;
use crate::common::blocks::Grid;
use crate::common::coeff_syntax as cs;
use crate::common::domain::{CompressionType, ImageData};
use crate::common::error::{invalid, CrfError, CrfResult};
use crate::common::intra8;
use crate::common::intra8::{block_samples_exec, predict_block, put_block_exec, BLK, BLK_AREA, MODE_DC};
use crate::common::le;
use crate::common::framing;
use crate::common::framing::put_part;
use crate::common::le::{put_bytes, put_le32};
use crate::common::par::par_map;
use crate::common::plane;
use crate::common::plane::take_component;
use crate::common::predict;
use crate::common::quant;
use crate::common::quant::quant_level_exec;
use crate::common::transform;
use crate::common::transform::block_forward;
use crate::common::zigzag;
use crate::common::zigzag::zigzag_scan;
use crate::encoder::coeff_cabac::CoeffCABAC;
use crate::encoder::rle_cabac;
use crate::encoder::rle_cabac::encode_frame_rle_cabac_adaptive;

verus! {

/// The first byte of a payload: both steps follow.
pub const STEP_FLAGS: u8 = 6;

/// How far the first `n` samples of block `t` are from the prediction `p`, summed up.
pub open spec fn sad(px: Seq<i32>, g: blocks::Tiling, t: int, p: Seq<i32>, n: nat) -> int
    decreases n,
{
    if n == 0 {
        0
    } else {
        let j = n - 1;
        sad(px, g, t, p, j as nat) + predict::abs(
            px[g.pos(t, j)] - p[(j / g.tw(t)) * 8 + j % g.tw(t)],
        )
    }
}

pub open spec fn mode_sad(px: Seq<i32>, r: Seq<i32>, w: int, h: int, t: int, mode: i32) -> int {
    let g = intra8::grid8(w, h);
    sad(
        px,
        g,
        t,
        intra8::guesses(r, w, h, g.x0(t), g.y0(t), mode),
        g.area(t) as nat,
    )
}

/// The mode up to `m` whose prediction of block `t` is nearest, the first of equals.
pub open spec fn best_mode(px: Seq<i32>, r: Seq<i32>, w: int, h: int, t: int, m: nat) -> i32
    decreases m,
{
    if m == 0 {
        MODE_DC
    } else {
        let b = best_mode(px, r, w, h, t, (m - 1) as nat);
        if mode_sad(px, r, w, h, t, m as i32) < mode_sad(px, r, w, h, t, b) {
            m as i32
        } else {
            b
        }
    }
}

/// The residuals of block `t`; zero outside the plane.
pub open spec fn residual(px: Seq<i32>, g: blocks::Tiling, t: int, p: Seq<i32>) -> Seq<i32> {
    Seq::new(
        BLK_AREA as nat,
        |j: int|
            if j / 8 < g.th(t) && j % 8 < g.tw(t) {
                px[(g.y0(t) + j / 8) * g.w + g.x0(t) + j % 8].wrapping_sub(p[j])
            } else {
                0
            },
    )
}

/// The levels of a block in zigzag order.
pub open spec fn levels(res: Seq<i32>, mode: i32, q: int, bias: int) -> Seq<i32> {
    let f = if mode == MODE_DC {
        res
    } else {
        transform::forward2(res, 8, 8)
    };
    zigzag::scan(Seq::new(BLK_AREA as nat, |j: int| quant::quant_level(f[j], q, bias)), 8)
}

/// The modes and levels of the first `n` blocks. Each block is predicted from what the decoder
/// rebuilds of those before it.
pub open spec fn choices(px: Seq<i32>, w: int, h: int, q: int, bias: int, n: nat) -> (
    Seq<i32>,
    Seq<Seq<i32>>,
)
    decreases n,
{
    if n == 0 {
        (Seq::empty(), Seq::empty())
    } else {
        let t = n - 1;
        let (modes, zs) = choices(px, w, h, q, bias, t as nat);
        let r = intra8::rebuilt(modes, zs, q, w, h, t as nat);
        let g = intra8::grid8(w, h);
        let mode = best_mode(px, r, w, h, t, 3);
        let p = intra8::guesses(r, w, h, g.x0(t), g.y0(t), mode);
        (modes.push(mode), zs.push(levels(residual(px, g, t, p), mode, q, bias)))
    }
}

/// The coded form of a plane: length of the coded modes, parameter, modes, levels.
#[verifier::opaque]
pub open spec fn plane_payload(px: Seq<i32>, w: int, h: int, q: int, bias: int) -> Seq<u8> {
    let n = intra8::grid8(w, h).count() as nat;
    let (modes, zs) = choices(px, w, h, q, bias, n);
    let stride = Some((w / 8) as usize);
    let body = rle_cabac::cabac_body(modes, stride);
    le::le32((1 + body.len()) as u32) + seq![rle_cabac::cabac_k(modes) as u8] + body
        + cs::coeff_bytes(zs)
}

pub proof fn lemma_choices_len(px: Seq<i32>, w: int, h: int, q: int, bias: int, n: nat)
    ensures
        choices(px, w, h, q, bias, n).0.len() == n,
        choices(px, w, h, q, bias, n).1.len() == n,
        forall|t: int|
            0 <= t < n ==> (#[trigger] choices(px, w, h, q, bias, n).1[t]).len() == BLK_AREA,
    decreases n,
{
    if n > 0 {
        lemma_choices_len(px, w, h, q, bias, (n - 1) as nat);
        let zs = choices(px, w, h, q, bias, (n - 1) as nat).1;
        assert forall|t: int| 0 <= t < n implies (#[trigger] choices(px, w, h, q, bias, n).1[t]).len()
            == BLK_AREA by {
            if t < n - 1 {
                assert(choices(px, w, h, q, bias, n).1[t] == zs[t]);
            }
        }
    }
}

fn sad_exec(px: &Vec<i32>, g: Grid, t: usize, p: &Vec<i32>) -> (s: u64)
    requires
        g.ok(),
        g.bw == BLK,
        g.bh == BLK,
        px@.len() == g.w * g.h,
        t < g@.count(),
        p@.len() == BLK_AREA,
    ensures
        s == sad(px@, g@, t as int, p@, g@.area(t as int) as nat),
{
    let total: usize = px.len();
    let (x0, y0, tw, th) = g.rect(t);
    proof {
        blocks::lemma_tile_dims(g@, t as int);
        assert(th * tw <= 64) by (nonlinear_arith)
            requires
                0 <= th <= 8,
                0 <= tw <= 8,
        ;
    }
    let n: usize = th * tw;
    let mut s: u64 = 0;
    let mut j: usize = 0;
    while j < n
        invariant
            g.ok(),
            g.bw == BLK,
            g.bh == BLK,
            t < g@.count(),
            p@.len() == BLK_AREA,
            total == g.w * g.h,
            px@.len() == total,
            x0 == g@.x0(t as int),
            y0 == g@.y0(t as int),
            tw == g@.tw(t as int),
            th == g@.th(t as int),
            1 <= tw <= 8,
            1 <= th <= 8,
            x0 + tw <= g.w,
            y0 + th <= g.h,
            n == g@.area(t as int),
            n <= 64,
            j <= n,
            s == sad(px@, g@, t as int, p@, j as nat),
            s <= j * 0x1_0000_0000,
        decreases n - j,
    {
        proof {
            blocks::lemma_pos(g@, t as int, j as int);
            let y = y0 + j as int / tw as int;
            let x = x0 + j as int % tw as int;
            assert(0 <= y * g.w && y * g.w + x < g.w * g.h) by (nonlinear_arith)
                requires
                    0 <= y < g.h,
                    0 <= x < g.w,
            ;
        }
        let at: usize = (y0 + j / tw) * g.w + (x0 + j % tw);
        assert(at == g@.pos(t as int, j as int));
        let d: i64 = px[at] as i64 - p[(j / tw) * 8 + j % tw] as i64;
        let a: i64 = if d < 0 {
            -d
        } else {
            d
        };
        s = s + a as u64;
        j = j + 1;
    }
    s
}

fn residual_exec(px: &Vec<i32>, g: Grid, t: usize, p: &Vec<i32>) -> (out: Vec<i32>)
    requires
        g.ok(),
        g.bw == BLK,
        g.bh == BLK,
        px@.len() == g.w * g.h,
        t < g@.count(),
        p@.len() == BLK_AREA,
    ensures
        out@ == residual(px@, g@, t as int, p@),
        out@.len() == BLK_AREA,
{
    let total: usize = px.len();
    let (x0, y0, tw, th) = g.rect(t);
    proof {
        blocks::lemma_tile_dims(g@, t as int);
    }
    let ghost all = residual(px@, g@, t as int, p@);
    let mut out: Vec<i32> = Vec::new();
    let mut j: usize = 0;
    while j < BLK_AREA
        invariant
            g.ok(),
            p@.len() == BLK_AREA,
            total == g.w * g.h,
            px@.len() == total,
            x0 == g@.x0(t as int),
            y0 == g@.y0(t as int),
            tw == g@.tw(t as int),
            th == g@.th(t as int),
            x0 + tw <= g.w,
            y0 + th <= g.h,
            all == residual(px@, g@, t as int, p@),
            j <= BLK_AREA,
            out@ == all.take(j as int),
        decreases BLK_AREA - j,
    {
        if j / 8 < th && j % 8 < tw {
            proof {
                let y = y0 + j as int / 8;
                let x = x0 + j as int % 8;
                assert(0 <= y * g.w && y * g.w + x < g.w * g.h) by (nonlinear_arith)
                    requires
                        0 <= y < g.h,
                        0 <= x < g.w,
                ;
            }
            out.push(px[(y0 + j / 8) * g.w + (x0 + j % 8)].wrapping_sub(p[j]));
        } else {
            out.push(0);
        }
        j = j + 1;
        assert(out@ =~= all.take(j as int));
    }
    assert(out@ =~= all);
    out
}

fn levels_exec(res: Vec<i32>, mode: i32, q: u8, bias: i8) -> (out: Vec<i32>)
    requires
        res@.len() == BLK_AREA,
        q >= 1,
    ensures
        out@ == levels(res@, mode, q as int, bias as int),
        out@.len() == BLK_AREA,
{
    let f: Vec<i32> = if mode == MODE_DC {
        res
    } else {
        block_forward(&res, 8, 8)
    };
    let ghost ls = Seq::new(BLK_AREA as nat, |j: int| quant::quant_level(f@[j], q as int, bias as int));
    let mut l: Vec<i32> = Vec::new();
    let mut j: usize = 0;
    while j < BLK_AREA
        invariant
            q >= 1,
            f@.len() == BLK_AREA,
            ls == Seq::new(
                BLK_AREA as nat,
                |j: int| quant::quant_level(f@[j], q as int, bias as int),
            ),
            j <= BLK_AREA,
            l@ == ls.take(j as int),
        decreases BLK_AREA - j,
    {
        l.push(quant_level_exec(f[j], q, bias));
        j = j + 1;
        assert(l@ =~= ls.take(j as int));
    }
    assert(l@ =~= ls);
    zigzag_scan(&l, 8)
}

/// The mode whose prediction is nearest, and that prediction.
fn pick_mode(px: &Vec<i32>, recon: &Vec<i32>, g: Grid, t: usize) -> (r: (i32, Vec<i32>))
    requires
        g.ok(),
        g.bw == BLK,
        g.bh == BLK,
        g.w <= 0xffff,
        g.h <= 0xffff,
        px@.len() == g.w * g.h,
        recon@.len() == g.w * g.h,
        t < g@.count(),
    ensures
        r.0 == best_mode(px@, recon@, g.w as int, g.h as int, t as int, 3),
        r.1@ == intra8::guesses(
            recon@,
            g.w as int,
            g.h as int,
            g@.x0(t as int),
            g@.y0(t as int),
            r.0,
        ),
        r.1@.len() == BLK_AREA,
        0 <= r.0 <= 3,
{
    let (x0, y0, tw, th) = g.rect(t);
    proof {
        blocks::lemma_tile_dims(g@, t as int);
    }
    let mut best: i32 = MODE_DC;
    let mut guess: Vec<i32> = predict_block(recon, g.w, g.h, x0, y0, MODE_DC);
    let mut least: u64 = sad_exec(px, g, t, &guess);
    let mut m: i32 = 1;
    while m <= 3
        invariant
            g.ok(),
            g.bw == BLK,
            g.bh == BLK,
            g.w <= 0xffff,
            g.h <= 0xffff,
            px@.len() == g.w * g.h,
            recon@.len() == g.w * g.h,
            t < g@.count(),
            x0 == g@.x0(t as int),
            y0 == g@.y0(t as int),
            x0 < g.w,
            y0 < g.h,
            1 <= m <= 4,
            0 <= best <= 3,
            best == best_mode(
                px@,
                recon@,
                g.w as int,
                g.h as int,
                t as int,
                (m - 1) as nat,
            ),
            guess@ == intra8::guesses(
                recon@,
                g.w as int,
                g.h as int,
                x0 as int,
                y0 as int,
                best,
            ),
            guess@.len() == BLK_AREA,
            least == mode_sad(px@, recon@, g.w as int, g.h as int, t as int, best),
        decreases 4 - m,
    {
        let p: Vec<i32> = predict_block(recon, g.w, g.h, x0, y0, m);
        let s: u64 = sad_exec(px, g, t, &p);
        if s < least {
            least = s;
            best = m;
            guess = p;
        }
        m = m + 1;
    }
    (best, guess)
}

/// What the coded blocks of a plane are made of.
pub struct CodedBlocks {
    pub modes: Vec<i32>,
    pub stream: Vec<u8>,
    pub recon: Vec<i32>,
}

/// Chooses modes and levels for a plane, codes the levels, and rebuilds the plane.
pub fn encode_blocks(plane: &Vec<i32>, width: usize, height: usize, q: u8, deadzone: i8) -> (r:
    CodedBlocks)
    requires
        width <= 0xffff,
        height <= 0xffff,
        plane@.len() == width * height,
        q >= 1,
    ensures
        ({
            let n = intra8::grid8(width as int, height as int).count() as nat;
            let (modes, zs) = choices(
                plane@,
                width as int,
                height as int,
                q as int,
                deadzone as int,
                n,
            );
            &&& r.modes@ == modes
            &&& r.stream@ == cs::coeff_bytes(zs)
            &&& r.recon@ == intra8::rebuilt(
                modes,
                zs,
                q as int,
                width as int,
                height as int,
                n,
            )
        }),
        forall|i: int| 0 <= i < r.modes@.len() ==> 0 <= #[trigger] r.modes@[i] <= 3,
{
    let total: usize = plane.len();
    let g = Grid { w: width, h: height, bw: BLK, bh: BLK };
    proof {
        blocks::lemma_count(g@);
    }
    let n: usize = g.count();
    let mut recon: Vec<i32> = Vec::new();
    crate::decoder::rle_cabac::push_zeros(&mut recon, total);
    let mut e = CoeffCABAC::new();
    let mut modes: Vec<i32> = Vec::new();
    let mut t: usize = 0;
    let ghost w = width as int;
    let ghost h = height as int;
    proof {
        let c = choices(plane@, w, h, q as int, deadzone as int, 0);
        assert(recon@ =~= intra8::rebuilt(c.0, c.1, q as int, w, h, 0));
    }
    while t < n
        invariant
            g.ok(),
            g == (Grid { w: width, h: height, bw: BLK, bh: BLK }),
            g@ == intra8::grid8(w, h),
            w == width,
            h == height,
            width <= 0xffff,
            height <= 0xffff,
            plane@.len() == width * height,
            q >= 1,
            n == g@.count(),
            t <= n,
            recon@.len() == width * height,
            e.wf(),
            ({
                let c = choices(plane@, w, h, q as int, deadzone as int, t as nat);
                &&& modes@ == c.0
                &&& e@ == cs::blocks_ops(c.1)
                &&& recon@ == intra8::rebuilt(c.0, c.1, q as int, w, h, t as nat)
            }),
            forall|i: int| 0 <= i < modes@.len() ==> 0 <= #[trigger] modes@[i] <= 3,
        decreases n - t,
    {
        let ghost c0 = choices(plane@, w, h, q as int, deadzone as int, t as nat);
        let (mode, guess) = pick_mode(plane, &recon, g, t);
        let res: Vec<i32> = residual_exec(plane, g, t, &guess);
        let z: Vec<i32> = levels_exec(res, mode, q, deadzone);
        e.encode_block(&z);
        let b: Vec<i32> = block_samples_exec(&z, q, mode, &guess);
        let ghost r0 = recon@;
        put_block_exec(&mut recon, g, t, &b);
        modes.push(mode);
        proof {
            let c1 = choices(plane@, w, h, q as int, deadzone as int, (t + 1) as nat);
            lemma_choices_len(plane@, w, h, q as int, deadzone as int, t as nat);
            assert(c1.0 == c0.0.push(mode));
            assert(c1.1 == c0.1.push(z@));
            assert(c1.1.drop_last() =~= c0.1);
            intra8::lemma_rebuilt_prefix(c0.0, c0.1, c1.0, c1.1, q as int, w, h, t as nat);
            assert(intra8::mode_at(c1.0, t as int) == mode);
            assert(c1.1[t as int] == z@);
            let want = intra8::block_samples(
                r0,
                w,
                h,
                g@.x0(t as int),
                g@.y0(t as int),
                mode,
                z@,
                q as int,
            );
            assert(b@ =~= want);
        }
        t = t + 1;
    }
    CodedBlocks { modes, stream: e.finish(), recon }
}

/// Codes a plane.
fn encode_plane(plane: &Vec<i32>, width: usize, height: usize, q: u8, deadzone: i8) -> (r: CrfResult<
    Vec<u8>,
>)
    requires
        width <= 0xffff,
        height <= 0xffff,
        plane@.len() == width * height,
        plane@.len() < u32::MAX,
        q >= 1,
    ensures
        r is Ok,
        r->Ok_0@ == plane_payload(
            plane@,
            width as int,
            height as int,
            q as int,
            deadzone as int,
        ),
{
    let total: usize = plane.len();
    let c: CodedBlocks = encode_blocks(plane, width, height, q, deadzone);
    proof {
        let g = intra8::grid8(width as int, height as int);
        blocks::lemma_count(g);
        lemma_choices_len(
            plane@,
            width as int,
            height as int,
            q as int,
            deadzone as int,
            g.count() as nat,
        );
    }
    match encode_frame_rle_cabac_adaptive(&c.modes, Some(width / 8)) {
        Ok((body, k)) => {
            let mut out: Vec<u8> = Vec::new();
            let n: usize = body.len();
            put_le32(&mut out, (n as u128 + 1) as u32);
            out.push(k);
            put_bytes(&mut out, &body);
            put_bytes(&mut out, &c.stream);
            proof {
                reveal(plane_payload);
            }
            assert(out@ =~= plane_payload(
                plane@,
                width as int,
                height as int,
                q as int,
                deadzone as int,
            ));
            Ok(out)
        },
        Err(e) => Err(e),
    }
}

/// A step as it is used: at least one.
pub fn at_least_one(q: u8) -> (r: u8)
    ensures
        r == quant::at_least_one(q),
        r >= 1,
{
    if q == 0 {
        1
    } else {
        q
    }
}

/// Step and shift for component `k`.
pub open spec fn component_step(k: int, q: u8, deadzone: i8, chroma: u8, chroma_bias: i8) -> (
    int,
    int,
) {
    if k == 0 {
        (quant::at_least_one(q), deadzone as int)
    } else {
        (quant::at_least_one(chroma), chroma_bias as int)
    }
}

/// The three coded components.
pub open spec fn coded_components(
    px: Seq<i32>,
    w: int,
    h: int,
    q: u8,
    deadzone: i8,
    chroma: u8,
    chroma_bias: i8,
) -> Seq<Seq<u8>> {
    Seq::new(
        3,
        |k: int|
            {
                let (s, b) = component_step(k, q, deadzone, chroma, chroma_bias);
                plane_payload(plane::component(px, 3, k), w, h, s, b)
            },
    )
}

/// What [`encode_intra_transform_payload`] returns: flags, both steps, three components.
pub open spec fn intra_payload(
    px: Seq<i32>,
    w: int,
    h: int,
    q: u8,
    deadzone: i8,
    chroma: u8,
    chroma_bias: i8,
) -> Seq<u8> {
    seq![STEP_FLAGS, quant::at_least_one(q) as u8, quant::at_least_one(chroma) as u8]
        + framing::framed(coded_components(px, w, h, q, deadzone, chroma, chroma_bias))
}

/// Codes the three components of an image, by predicted and transformed blocks.
pub fn encode_intra_transform_payload(
    image: &ImageData,
    compression_type: CompressionType,
    q_step: u8,
    deadzone: i8,
    chroma_step: u8,
    chroma_bias: i8,
) -> (r: CrfResult<Vec<u8>>)
    requires
        image.wf(),
    ensures
        r is Ok <==> compression_type == CompressionType::GolombRice
            && image.color_format.spec_count() == 3,
        r is Ok ==> r->Ok_0@ == intra_payload(
            image.pixels@,
            image.width as int,
            image.height as int,
            q_step,
            deadzone,
            chroma_step,
            chroma_bias,
        ),
        r is Err ==> r->Err_0 is InvalidCodingParams,
{
    if compression_type != CompressionType::GolombRice {
        return Err(CrfError::InvalidCodingParams("needs Golomb-Rice".to_string()));
    }
    if image.color_format.component_count() != 3 {
        return Err(CrfError::InvalidCodingParams("needs three components".to_string()));
    }
    let w: usize = image.width as usize;
    let h: usize = image.height as usize;
    let ghost px = image.pixels@;
    proof {
        assert(w * h >= 0) by (nonlinear_arith)
            requires
                w >= 0,
                h >= 0,
        ;
        plane::lemma_interleave(px, 3, (w * h) as nat);
    }
    let luma: u8 = at_least_one(q_step);
    let chroma: u8 = at_least_one(chroma_step);
    let p0: Vec<i32> = take_component(&image.pixels, 3, 0);
    let p1: Vec<i32> = take_component(&image.pixels, 3, 1);
    let p2: Vec<i32> = take_component(&image.pixels, 3, 2);
    let jobs: Vec<(Vec<i32>, u8, i8)> = vec![
        (p0, luma, deadzone),
        (p1, chroma, chroma_bias),
        (p2, chroma, chroma_bias),
    ];
    let code = |job: &(Vec<i32>, u8, i8)| -> (r: CrfResult<Vec<u8>>)
        requires
            job_ready(job.0@, job.1, w, h),
        ensures
            job_done(job.0@, job.1, job.2, w, h, r),
        {
            encode_plane(&job.0, w, h, job.1, job.2)
        };
    let coded: Vec<CrfResult<Vec<u8>>> = par_map(&jobs, code);
    let mut out: Vec<u8> = Vec::new();
    out.push(STEP_FLAGS);
    out.push(luma);
    out.push(chroma);
    let ghost head = out@;
    let ghost want = coded_components(
        px,
        w as int,
        h as int,
        q_step,
        deadzone,
        chroma_step,
        chroma_bias,
    );
    proof {
        assert forall|k: int| 0 <= k < 3 implies coded@[k] is Ok && (#[trigger] coded@[k])->Ok_0@
            == want[k] by {
            assert(job_done(jobs@[k].0@, jobs@[k].1, jobs@[k].2, w, h, coded@[k]));
        }
        assert(want.take(0) =~= Seq::<Seq<u8>>::empty());
        assert(head + framing::framed(want.take(0)) =~= head);
    }
    let mut k: usize = 0;
    while k < 3
        invariant
            k <= 3,
            coded@.len() == 3,
            want.len() == 3,
            forall|k: int|
                0 <= k < 3 ==> coded@[k] is Ok && (#[trigger] coded@[k])->Ok_0@ == want[k],
            out@ == head + framing::framed(want.take(k as int)),
        decreases 3 - k,
    {
        match &coded[k] {
            Ok(p) => {
                put_part(&mut out, p);
                proof {
                    framing::lemma_framed_push(want.take(k as int), want[k as int]);
                    assert(want.take(k as int).push(want[k as int]) =~= want.take(k + 1));
                    assert(out@ =~= head + framing::framed(want.take(k + 1)));
                }
            },
            Err(_) => {
                return Err(invalid("component"));
            },
        }
        k = k + 1;
    }
    assert(want.take(3) =~= want);
    Ok(out)
}

spec fn job_ready(px: Seq<i32>, q: u8, w: usize, h: usize) -> bool {
    &&& w <= 0xffff
    &&& h <= 0xffff
    &&& px.len() == w * h
    &&& px.len() < u32::MAX
    &&& q >= 1
}

spec fn job_done(px: Seq<i32>, q: u8, b: i8, w: usize, h: usize, r: CrfResult<Vec<u8>>) -> bool {
    r is Ok && r->Ok_0@ == plane_payload(px, w as int, h as int, q as int, b as int)
}

/// The prediction of a block is the one of the four that fits best, the first of those that fit equally
/// well.
pub proof fn law_best_mode(px: Seq<i32>, r: Seq<i32>, w: int, h: int, t: int, m: i32)
    requires
        0 <= m <= 3,
    ensures
        ({
            let b = best_mode(px, r, w, h, t, 3);
            &&& 0 <= b <= 3
            &&& mode_sad(px, r, w, h, t, b) <= mode_sad(px, r, w, h, t, m)
            &&& m < b ==> mode_sad(px, r, w, h, t, b) < mode_sad(px, r, w, h, t, m)
        }),
{
    reveal_with_fuel(best_mode, 5);
}

/// How badly a prediction fits a block: samples that are all off by at least `lo` and at most `hi` are
/// so on average.
pub proof fn law_sad(
    px: Seq<i32>,
    g: blocks::Tiling,
    t: int,
    p: Seq<i32>,
    n: nat,
    lo: int,
    hi: int,
)
    requires
        lo >= 0,
        forall|j: int|
            0 <= j < n ==> ({
                let d = px[#[trigger] g.pos(t, j)] - p[(j / g.tw(t)) * 8 + j % g.tw(t)];
                lo <= d <= hi || lo <= -d <= hi
            }),
    ensures
        lo * n <= sad(px, g, t, p, n) <= hi * n,
    decreases n,
{
    let k = n as int;
    if n > 0 {
        law_sad(px, g, t, p, (n - 1) as nat, lo, hi);
        let j = k - 1;
        let d = px[g.pos(t, j)] - p[(j / g.tw(t)) * 8 + j % g.tw(t)];
        assert(lo <= d <= hi || lo <= -d <= hi);
        assert(lo * k == lo * (k - 1) + lo && hi * k == hi * (k - 1) + hi) by (nonlinear_arith);
    } else {
        assert(lo * k == 0 && hi * k == 0) by (nonlinear_arith)
            requires
                k == 0,
        ;
    }
}

} // verus!

//! Decoder of planes of predicted and transformed blocks.

use vstd::prelude::*;
use crate::common::blocks;
use crate::common::blocks::Grid;
use crate::common::bounds;
use crate::common::cabac_syntax as syn;
use crate::common::cabac_syntax::MAX_QUOTIENT;
use crate::common::close;
use crate::common::coeff_syntax as cs;
use crate::common::error;
use crate::common::error::{invalid, short, CrfResult, Fault};
use crate::common::framing;
use crate::common::framing::get_part;
use crate::common::intra8;
use crate::common::intra8::{block_samples_exec, predict_block, put_block_exec, BLK, BLK_AREA, MODE_DC};
use crate::common::plane;
use crate::common::plane::interleave;
use crate::common::predict;
use crate::common::quant;
use crate::common::transform;
use crate::common::zigzag;
use crate::decoder::coeff_cabac::CoeffCABACDecoder;
use crate::decoder::rle_cabac;
use crate::decoder::rle_cabac::{check_body, decode_frame_rle_cabac, push_zeros};
use crate::encoder::intra_transform as enc;
use crate::encoder::intra_transform::at_least_one;
use crate::encoder::rle_cabac as rlc;

verus! {

/// The plane that `data` stand for, with steps of `q`.
#[verifier::opaque]
pub open spec fn plane_result(data: Seq<u8>, w: int, h: int, q: int) -> Result<Seq<i32>, Fault> {
    match framing::part_at(data, 0) {
        Err(f) => Err(f),
        Ok((head, end)) => {
            if head.len() == 0 || !rle_cabac::body_ok(head.skip(1)) {
                Err(Fault::Invalid)
            } else {
                let n = intra8::grid8(w, h).count() as nat;
                let modes = rle_cabac::cabac_frame(
                    head.skip(1),
                    head[0] as nat,
                    n,
                    Some((w / 8) as usize),
                );
                let zs = cs::blocks_at(data.skip(end), n).0;
                Ok(intra8::rebuilt(modes, zs, q, w, h, n))
            }
        },
    }
}

/// The step of component `k`.
pub open spec fn step_of(data: Seq<u8>, k: int) -> int {
    quant::at_least_one(
        if k == 0 {
            data[1]
        } else {
            data[2]
        },
    )
}

/// The first `n` components and the offset behind them.
pub open spec fn planes_at(data: Seq<u8>, w: int, h: int, n: nat) -> Result<
    (Seq<Seq<i32>>, int),
    Fault,
>
    decreases n,
{
    if n == 0 {
        Ok((Seq::empty(), 3))
    } else {
        match planes_at(data, w, h, (n - 1) as nat) {
            Err(f) => Err(f),
            Ok((ps, off)) => match framing::part_at(data, off) {
                Err(f) => Err(f),
                Ok((sub, next)) => match plane_result(sub, w, h, step_of(data, n - 1)) {
                    Err(f) => Err(f),
                    Ok(p) => Ok((ps.push(p), next)),
                },
            },
        }
    }
}

/// The image that a payload stands for.
pub open spec fn intra_result(data: Seq<u8>, w: int, h: int, c: int) -> Result<Seq<i32>, Fault> {
    if c != 3 || data.len() == 0 {
        Err(Fault::Invalid)
    } else if data.len() < 3 {
        Err(Fault::Short { expected: 3, actual: data.len() as int })
    } else if (data[0] / 2) % 4 != 3 {
        Err(Fault::Invalid)
    } else {
        match planes_at(data, w, h, 3) {
            Err(f) => Err(f),
            Ok((ps, off)) => Ok(plane::interleaved(ps, (w * h) as nat)),
        }
    }
}

proof fn lemma_blocks_at(data: Seq<u8>, n: nat)
    ensures
        cs::blocks_at(data, n).0.len() == n,
    decreases n,
{
    if n > 0 {
        lemma_blocks_at(data, (n - 1) as nat);
    }
}

fn rebuild(modes: &Vec<i32>, stream: &[u8], width: usize, height: usize, q: u8) -> (r: Vec<i32>)
    requires
        width <= 0xffff,
        height <= 0xffff,
        width * height <= usize::MAX,
        modes@.len() == intra8::grid8(width as int, height as int).count(),
    ensures
        r@ == intra8::rebuilt(
            modes@,
            cs::blocks_at(stream@, modes@.len()).0,
            q as int,
            width as int,
            height as int,
            modes@.len(),
        ),
        r@.len() == width * height,
{
    let g = Grid { w: width, h: height, bw: BLK, bh: BLK };
    let ghost w = width as int;
    let ghost h = height as int;
    proof {
        blocks::lemma_count(g@);
    }
    let n: usize = g.count();
    let mut recon: Vec<i32> = Vec::new();
    push_zeros(&mut recon, width * height);
    let mut d = CoeffCABACDecoder::new(stream);
    let mut t: usize = 0;
    assert(recon@ =~= intra8::rebuilt(modes@, cs::blocks_at(stream@, 0).0, q as int, w, h, 0));
    while t < n
        invariant
            g.ok(),
            g == (Grid { w: width, h: height, bw: BLK, bh: BLK }),
            g@ == intra8::grid8(w, h),
            w == width,
            h == height,
            width <= 0xffff,
            height <= 0xffff,
            n == g@.count(),
            modes@.len() == n,
            t <= n,
            d.wf(),
            d.data() == stream@,
            d@ == cs::blocks_at(stream@, t as nat).1,
            recon@.len() == width * height,
            recon@ == intra8::rebuilt(
                modes@,
                cs::blocks_at(stream@, t as nat).0,
                q as int,
                w,
                h,
                t as nat,
            ),
        decreases n - t,
    {
        let z: Vec<i32> = d.decode_block();
        let (x0, y0, tw, th) = g.rect(t);
        proof {
            blocks::lemma_tile_dims(g@, t as int);
        }
        let mode: i32 = modes[t];
        let guess: Vec<i32> = predict_block(&recon, width, height, x0, y0, mode);
        let b: Vec<i32> = block_samples_exec(&z, q, mode, &guess);
        let ghost r0 = recon@;
        put_block_exec(&mut recon, g, t, &b);
        proof {
            let z0 = cs::blocks_at(stream@, t as nat).0;
            let z1 = cs::blocks_at(stream@, (t + 1) as nat).0;
            lemma_blocks_at(stream@, t as nat);
            assert(z1 == z0.push(z@));
            intra8::lemma_rebuilt_prefix(modes@, z0, modes@, z1, q as int, w, h, t as nat);
            assert(z1[t as int] == z@);
            let want = intra8::block_samples(
                r0,
                w,
                h,
                g@.x0(t as int),
                g@.y0(t as int),
                mode,
                z@,
                q as int,
            );
            assert(b@ =~= want);
        }
        t = t + 1;
    }
    recon
}

fn decode_plane(data: &[u8], width: usize, height: usize, q: u8) -> (r: CrfResult<Vec<i32>>)
    requires
        width <= 0xffff,
        height <= 0xffff,
        width * height <= usize::MAX,
    ensures
        error::agrees(r, plane_result(data@, width as int, height as int, q as int)),
        r is Ok ==> r->Ok_0@.len() == width * height,
{
    proof {
        reveal(plane_result);
    }
    match get_part(data, 0) {
        Err(e) => Err(e),
        Ok((a, b)) => {
            if a == b {
                return Err(invalid("no block modes"));
            }
            let k: u8 = data[a];
            let body: &[u8] = vstd::slice::slice_subrange(data, a + 1, b);
            let stream: &[u8] = vstd::slice::slice_subrange(data, b, data.len());
            proof {
                let head = data@.subrange(a as int, b as int);
                assert(head.skip(1) =~= body@);
                assert(head[0] == k);
                assert(stream@ =~= data@.skip(b as int));
            }
            if !check_body(body) {
                return Err(invalid("block modes"));
            }
            let g = Grid { w: width, h: height, bw: BLK, bh: BLK };
            let n: usize = g.count();
            let modes: Vec<i32> = decode_frame_rle_cabac(body, k, n, Some(width / 8));
            proof {
                rle_cabac::lemma_cabac_len(body@, k as nat, n as nat, Some((width / 8) as usize));
            }
            Ok(rebuild(&modes, stream, width, height, q))
        },
    }
}

/// Decodes an image of three components.
pub fn decode_intra_transform(data: &[u8], width: usize, height: usize, components: usize) -> (r:
    CrfResult<Vec<i32>>)
    requires
        width <= 0xffff,
        height <= 0xffff,
        width * height * 3 <= usize::MAX,
    ensures
        error::agrees(
            r,
            intra_result(data@, width as int, height as int, components as int),
        ),
        r is Ok ==> r->Ok_0@.len() == width * height * 3,
{
    let len: usize = data.len();
    if components != 3 || len == 0 {
        return Err(invalid("three components"));
    }
    if len < 3 {
        return Err(short(3, 0, len));
    }
    if (data[0] / 2) % 4 != 3 {
        return Err(invalid("steps"));
    }
    proof {
        assert(0 <= width * height) by (nonlinear_arith)
            requires
                width >= 0,
                height >= 0,
        ;
    }
    let mut planes: Vec<Vec<i32>> = Vec::new();
    let mut off: usize = 3;
    let mut k: usize = 0;
    assert(blocks::views(planes@) =~= Seq::<Seq<i32>>::empty());
    while k < 3
        invariant
            width <= 0xffff,
            height <= 0xffff,
            0 <= width * height,
            width * height * 3 <= usize::MAX,
            len == data@.len(),
            len >= 3,
            components == 3,
            (data@[0] / 2) % 4 == 3,
            k <= 3,
            off <= len,
            planes@.len() == k,
            forall|i: int| 0 <= i < k ==> (#[trigger] planes@[i])@.len() == width * height,
            planes_at(data@, width as int, height as int, k as nat) == Ok::<
                (Seq<Seq<i32>>, int),
                Fault,
            >((blocks::views(planes@), off as int)),
        decreases 3 - k,
    {
        let q: u8 = at_least_one(
            if k == 0 {
                data[1]
            } else {
                data[2]
            },
        );
        proof {
            reveal_with_fuel(planes_at, 4);
        }
        match get_part(data, off) {
            Err(e) => {
                return Err(e);
            },
            Ok((a, b)) => {
                let sub: &[u8] = vstd::slice::slice_subrange(data, a, b);
                match decode_plane(sub, width, height, q) {
                    Err(e) => {
                        return Err(e);
                    },
                    Ok(p) => {
                        let ghost before = blocks::views(planes@);
                        planes.push(p);
                        assert(blocks::views(planes@) =~= before.push(p@));
                        off = b;
                    },
                }
            },
        }
        k = k + 1;
    }
    let out: Vec<i32> = interleave(&planes, width * height);
    Ok(out)
}

/// Levels that the entropy coder can carry.
pub open spec fn levels_ok(px: Seq<i32>, w: int, h: int, q: int, bias: int) -> bool {
    cs::coeffs_ok(enc::choices(px, w, h, q, bias, intra8::grid8(w, h).count() as nat).1)
}

/// What the decoder makes of a coded plane.
#[verifier::opaque]
pub open spec fn plane_recon(px: Seq<i32>, w: int, h: int, q: int, bias: int) -> Seq<i32> {
    let n = intra8::grid8(w, h).count() as nat;
    let (modes, zs) = enc::choices(px, w, h, q, bias, n);
    intra8::rebuilt(modes, zs, q, w, h, n)
}

proof fn lemma_modes_small(px: Seq<i32>, w: int, h: int, q: int, bias: int, n: nat)
    ensures
        forall|i: int|
            0 <= i < n ==> 0 <= #[trigger] enc::choices(px, w, h, q, bias, n).0[i] <= 3,
    decreases n,
{
    if n > 0 {
        let t = n - 1;
        lemma_modes_small(px, w, h, q, bias, t as nat);
        enc::lemma_choices_len(px, w, h, q, bias, t as nat);
        let (modes, zs) = enc::choices(px, w, h, q, bias, t as nat);
        let r = intra8::rebuilt(modes, zs, q, w, h, t as nat);
        reveal_with_fuel(enc::best_mode, 4);
        let m = enc::best_mode(px, r, w, h, t, 3);
        assert(0 <= m <= 3);
        let all = enc::choices(px, w, h, q, bias, n).0;
        assert(all == modes.push(m));
        assert forall|i: int| 0 <= i < n implies 0 <= #[trigger] all[i] <= 3 by {
            if i < t {
                assert(all[i] == modes[i]);
            }
        }
    }
}

/// The decoder rebuilds exactly the plane that the encoder predicted from.
pub proof fn law_plane_closed_loop(px: Seq<i32>, w: int, h: int, q: int, bias: int)
    requires
        0 <= w <= 0xffff,
        0 <= h <= 0xffff,
        px.len() == w * h,
        px.len() < u32::MAX,
        levels_ok(px, w, h, q, bias),
        enc::plane_payload(px, w, h, q, bias).len() <= u32::MAX,
    ensures
        plane_result(enc::plane_payload(px, w, h, q, bias), w, h, q) == Ok::<Seq<i32>, Fault>(
            plane_recon(px, w, h, q, bias),
        ),
{
    reveal(plane_result);
    reveal(plane_recon);
    reveal(enc::plane_payload);
    let g = intra8::grid8(w, h);
    blocks::lemma_count(g);
    let n = g.count() as nat;
    let (modes, zs) = enc::choices(px, w, h, q, bias, n);
    enc::lemma_choices_len(px, w, h, q, bias, n);
    let stride = Some((w / 8) as usize);
    let body = rlc::cabac_body(modes, stride);
    let k = rlc::cabac_k(modes);
    let data = enc::plane_payload(px, w, h, q, bias);
    let head = seq![k as u8] + body;
    crate::common::choose_k::lemma_best_k(rlc::mags(modes));
    lemma_modes_small(px, w, h, q, bias, n);
    rle_cabac::law_cabac_roundtrip(modes, stride);
    assert(data =~= framing::part(head) + cs::coeff_bytes(zs));
    assert(data.subrange(0, 4 + head.len() as int) =~= framing::part(head));
    framing::lemma_part(data, 0, head);
    assert(head.skip(1) =~= body);
    assert(data.skip(4 + head.len() as int) =~= cs::coeff_bytes(zs));
    cs::law_coeff_roundtrip(zs, n);
    assert(zs.take(n as int) =~= zs);
}

/// What the decoder makes of a coded image.
pub open spec fn intra_recon(
    px: Seq<i32>,
    w: int,
    h: int,
    q: u8,
    deadzone: i8,
    chroma: u8,
    chroma_bias: i8,
) -> Seq<i32> {
    plane::interleaved(
        Seq::new(
            3,
            |k: int|
                {
                    let (s, b) = enc::component_step(k, q, deadzone, chroma, chroma_bias);
                    plane_recon(plane::component(px, 3, k), w, h, s, b)
                },
        ),
        (w * h) as nat,
    )
}

/// The decoder rebuilds exactly the image that the encoder predicted from.
pub proof fn law_intra_closed_loop(
    px: Seq<i32>,
    w: int,
    h: int,
    q: u8,
    deadzone: i8,
    chroma: u8,
    chroma_bias: i8,
)
    requires
        0 <= w <= 0xffff,
        0 <= h <= 0xffff,
        px.len() == w * h * 3,
        px.len() < u32::MAX,
        forall|k: int|
            0 <= k < 3 ==> ({
                let (s, b) = enc::component_step(k, q, deadzone, chroma, chroma_bias);
                levels_ok(#[trigger] plane::component(px, 3, k), w, h, s, b)
            }),
        enc::intra_payload(px, w, h, q, deadzone, chroma, chroma_bias).len() <= u32::MAX,
    ensures
        intra_result(
            enc::intra_payload(px, w, h, q, deadzone, chroma, chroma_bias),
            w,
            h,
            3,
        ) == Ok::<Seq<i32>, Fault>(
            intra_recon(px, w, h, q, deadzone, chroma, chroma_bias),
        ),
{
    let data = enc::intra_payload(px, w, h, q, deadzone, chroma, chroma_bias);
    let ps = enc::coded_components(px, w, h, q, deadzone, chroma, chroma_bias);
    let head = seq![
        enc::STEP_FLAGS,
        quant::at_least_one(q) as u8,
        quant::at_least_one(chroma) as u8,
    ];
    assert(w * h >= 0) by (nonlinear_arith)
        requires
            w >= 0,
            h >= 0,
    ;
    plane::lemma_interleave(px, 3, (w * h) as nat);
    assert(data =~= head + framing::framed(ps) + Seq::<u8>::empty());
    assert(data[0] == enc::STEP_FLAGS && data[1] == quant::at_least_one(q) && data[2]
        == quant::at_least_one(chroma));
    let rs = Seq::new(
        3,
        |k: int|
            {
                let (s, b) = enc::component_step(k, q, deadzone, chroma, chroma_bias);
                plane_recon(plane::component(px, 3, k), w, h, s, b)
            },
    );
    assert forall|k: int| 0 <= k < 3 implies plane_result(#[trigger] ps[k], w, h, step_of(data, k))
        == Ok::<Seq<i32>, Fault>(rs[k]) by {
        framing::lemma_framed_len(ps, k);
        lemma_component(px, w, h, q, deadzone, chroma, chroma_bias, k);
    }
    lemma_planes(data, w, h, head, ps, rs, 3);
    assert(rs.take(3) =~= rs);
}

proof fn lemma_component(
    px: Seq<i32>,
    w: int,
    h: int,
    q: u8,
    deadzone: i8,
    chroma: u8,
    chroma_bias: i8,
    k: int,
)
    requires
        0 <= w <= 0xffff,
        0 <= h <= 0xffff,
        0 <= k < 3,
        px.len() as int / 3 == w * h,
        px.len() < u32::MAX,
        ({
            let (s, b) = enc::component_step(k, q, deadzone, chroma, chroma_bias);
            levels_ok(plane::component(px, 3, k), w, h, s, b)
        }),
        enc::coded_components(px, w, h, q, deadzone, chroma, chroma_bias)[k].len() <= u32::MAX,
    ensures
        ({
            let (s, b) = enc::component_step(k, q, deadzone, chroma, chroma_bias);
            let p = enc::coded_components(px, w, h, q, deadzone, chroma, chroma_bias)[k];
            plane_result(p, w, h, s) == Ok::<Seq<i32>, Fault>(
                plane_recon(plane::component(px, 3, k), w, h, s, b),
            )
        }),
{
    let (s, b) = enc::component_step(k, q, deadzone, chroma, chroma_bias);
    law_plane_closed_loop(plane::component(px, 3, k), w, h, s, b);
}

proof fn lemma_planes(
    data: Seq<u8>,
    w: int,
    h: int,
    head: Seq<u8>,
    ps: Seq<Seq<u8>>,
    rs: Seq<Seq<i32>>,
    n: nat,
)
    requires
        n <= 3,
        ps.len() == 3,
        rs.len() == 3,
        head.len() == 3,
        data == head + framing::framed(ps),
        data.len() <= u32::MAX,
        forall|k: int|
            0 <= k < 3 ==> plane_result(#[trigger] ps[k], w, h, step_of(data, k)) == Ok::<
                Seq<i32>,
                Fault,
            >(rs[k]),
    ensures
        planes_at(data, w, h, n) == Ok::<(Seq<Seq<i32>>, int), Fault>(
            (rs.take(n as int), (3 + framing::framed(ps.take(n as int)).len()) as int),
        ),
    decreases n,
{
    if n == 0 {
        assert(ps.take(0) =~= Seq::<Seq<u8>>::empty());
        assert(rs.take(0) =~= Seq::<Seq<i32>>::empty());
    } else {
        let k = n - 1;
        lemma_planes(data, w, h, head, ps, rs, k as nat);
        assert(data =~= head + framing::framed(ps) + Seq::<u8>::empty());
        framing::lemma_framed(head, ps, Seq::empty(), k);
        assert(rs.take(k).push(rs[k]) =~= rs.take(n as int));
        assert(plane_result(ps[k], w, h, step_of(data, k)) is Ok);
    }
}

/// With a step of one, the first `n` blocks are rebuilt as they were.
proof fn lemma_lossless_blocks(px: Seq<i32>, w: int, h: int, n: nat, m: int)
    requires
        0 <= w <= 0xffff,
        0 <= h <= 0xffff,
        px.len() == w * h,
        n <= intra8::grid8(w, h).count(),
        bounds::small(px, m),
        0 <= m <= 0x20_0000,
    ensures
        ({
            let g = intra8::grid8(w, h);
            let (modes, zs) = enc::choices(px, w, h, 1, 0, n);
            let r = intra8::rebuilt(modes, zs, 1, w, h, n);
            &&& r.len() == px.len()
            &&& forall|i: int| 0 <= i < px.len() && g.tile_of(i) < n ==> #[trigger] r[i] == px[i]
            &&& bounds::small(r, m)
            &&& cs::coeffs_ok(zs)
        }),
    decreases n,
{
    let g = intra8::grid8(w, h);
    let (modes, zs) = enc::choices(px, w, h, 1, 0, n);
    let r = intra8::rebuilt(modes, zs, 1, w, h, n);
    intra8::lemma_rebuilt_len(modes, zs, 1, w, h, n);
    if n == 0 {
        assert forall|i: int| 0 <= i < px.len() && g.tile_of(i) < n implies r[i] == px[i] by {
            blocks::lemma_place(g, i);
        }
    } else {
        let t = n - 1;
        lemma_lossless_blocks(px, w, h, t as nat, m);
        enc::lemma_choices_len(px, w, h, 1, 0, t as nat);
        let (m0, z0) = enc::choices(px, w, h, 1, 0, t as nat);
        let r0 = intra8::rebuilt(m0, z0, 1, w, h, t as nat);
        let mode = enc::best_mode(px, r0, w, h, t, 3);
        blocks::lemma_tile_dims(g, t);
        let x0 = g.x0(t);
        let y0 = g.y0(t);
        let p = intra8::guesses(r0, w, h, x0, y0, mode);
        let res = enc::residual(px, g, t, p);
        let z = enc::levels(res, mode, 1, 0);
        assert(modes == m0.push(mode));
        assert(zs == z0.push(z));
        intra8::lemma_rebuilt_prefix(m0, z0, modes, zs, 1, w, h, t as nat);
        bounds::lemma_guesses_small(r0, w, h, x0, y0, mode, m);
        lemma_block_lossless(px, w, h, t, p, mode, m);
        let b = intra8::block_samples(r0, w, h, x0, y0, mode, z, 1);
        assert(intra8::mode_at(modes, t) == mode);
        assert(zs[t] == z);
        assert(r == intra8::put_block(r0, g, t, b));
        assert forall|i: int| 0 <= i < px.len() && g.tile_of(i) < n implies #[trigger] r[i]
            == px[i] by {
            blocks::lemma_place(g, i);
            if g.tile_of(i) == t {
                let j = g.within(i);
                blocks::lemma_pos(g, t, j);
                let jr = j / g.tw(t);
                let jc = j % g.tw(t);
                let k = jr * 8 + jc;
                assert(k / 8 == jr && k % 8 == jc);
                assert(res[k] == px[(y0 + jr) * w + x0 + jc].wrapping_sub(p[k]));
                predict::lemma_wrapping_cancel(px[i], p[k]);
                assert(b[k] == res[k].wrapping_add(p[k]));
            } else {
                assert(r0[i] == px[i]);
            }
        }
        assert forall|i: int| 0 <= i < r.len() implies -m <= #[trigger] r[i] <= m by {
            if g.tile_of(i) == t {
                assert(r[i] == px[i]);
                assert(-m <= px[i] <= m);
            } else {
                assert(r[i] == r0[i]);
            }
        }
        assert forall|u: int| 0 <= u < zs.len() implies (#[trigger] zs[u]).len() == 64 && forall|
            j: int,
        |
            0 <= j < 64 ==> syn::mag(#[trigger] zs[u][j]) <= MAX_QUOTIENT by {
            if u < t {
                assert(zs[u] == z0[u]);
            }
        }
    }
}

/// With a step of one the levels of a block give back its residuals, and are not too large.
proof fn lemma_block_lossless(
    px: Seq<i32>,
    w: int,
    h: int,
    t: int,
    p: Seq<i32>,
    mode: i32,
    m: int,
)
    requires
        0 <= w <= 0xffff,
        0 <= h <= 0xffff,
        px.len() == w * h,
        0 <= t < intra8::grid8(w, h).count(),
        p.len() == BLK_AREA,
        bounds::small(px, m),
        bounds::small(p, m),
        0 <= m <= 0x20_0000,
    ensures
        ({
            let res = enc::residual(px, intra8::grid8(w, h), t, p);
            let z = enc::levels(res, mode, 1, 0);
            &&& intra8::residual_block(z, 1, mode) == res
            &&& z.len() == 64
            &&& forall|j: int| 0 <= j < 64 ==> syn::mag(#[trigger] z[j]) <= MAX_QUOTIENT
        }),
{
    let g = intra8::grid8(w, h);
    let res = enc::residual(px, g, t, p);
    blocks::lemma_tile_dims(g, t);
    assert(bounds::small(res, 2 * m)) by {
        assert forall|j: int| 0 <= j < res.len() implies -2 * m <= #[trigger] res[j] <= 2 * m by {
            if j / 8 < g.th(t) && j % 8 < g.tw(t) {
                let y = g.y0(t) + j / 8;
                let x = g.x0(t) + j % 8;
                assert(0 <= y * w + x < w * h) by (nonlinear_arith)
                    requires
                        0 <= y < h,
                        0 <= x < w,
                ;
                assert(-m <= px[y * w + x] <= m);
                assert(-m <= p[j] <= m);
            }
        }
    }
    let f = if mode == MODE_DC {
        res
    } else {
        transform::forward2(res, 8, 8)
    };
    transform::law_transform_roundtrip(res, 8, 8);
    bounds::lemma_forward_small(res, 8, 8, 2 * m);
    assert(bounds::small(f, 18 * m));
    let ls = Seq::new(64, |j: int| quant::quant_level(f[j], 1, 0));
    assert forall|j: int| 0 <= j < 64 implies ls[j] == f[j] by {
        quant::lemma_quant_one(f[j]);
    }
    assert(ls =~= f);
    let z = zigzag::scan(f, 8);
    assert(enc::levels(res, mode, 1, 0) == z);
    zigzag::law_zigzag_roundtrip(f, 8);
    let d = Seq::new(64, |j: int| quant::dequant(f[j], 1));
    assert(d =~= f);
    assert forall|j: int| 0 <= j < 64 implies syn::mag(#[trigger] z[j]) <= MAX_QUOTIENT by {
        zigzag::lemma_place_inside(8, j as nat);
        let (r, c) = zigzag::place(8, j as nat);
        assert(z[j] == f[r * 8 + c]);
        assert(-18 * m <= f[r * 8 + c] <= 18 * m);
    }
}

/// With steps of one the coded image is the image, for samples of up to 22 bits.
pub proof fn law_intra_lossless(px: Seq<i32>, w: int, h: int, q: u8, chroma: u8)
    requires
        0 <= w <= 0xffff,
        0 <= h <= 0xffff,
        px.len() == w * h * 3,
        px.len() < u32::MAX,
        bounds::small(px, 0x20_0000),
        q <= 1,
        chroma <= 1,
        enc::intra_payload(px, w, h, q, 0, chroma, 0).len() <= u32::MAX,
    ensures
        intra_result(enc::intra_payload(px, w, h, q, 0, chroma, 0), w, h, 3) == Ok::<
            Seq<i32>,
            Fault,
        >(px),
{
    assert(w * h >= 0) by (nonlinear_arith)
        requires
            w >= 0,
            h >= 0,
    ;
    plane::lemma_interleave(px, 3, (w * h) as nat);
    let g = intra8::grid8(w, h);
    blocks::lemma_count(g);
    let n = g.count() as nat;
    assert forall|k: int| 0 <= k < 3 implies ({
        let (s, b) = enc::component_step(k, q, 0, chroma, 0);
        let c = #[trigger] plane::component(px, 3, k);
        levels_ok(c, w, h, s, b) && plane_recon(c, w, h, s, b) == c
    }) by {
        let c = plane::component(px, 3, k);
        assert(bounds::small(c, 0x20_0000)) by {
            assert forall|i: int| 0 <= i < c.len() implies -0x20_0000 <= #[trigger] c[i]
                <= 0x20_0000 by {
                assert(c[i] == px[i * 3 + k]);
            }
        }
        lemma_lossless_blocks(c, w, h, n, 0x20_0000);
        reveal(plane_recon);
        let r = plane_recon(c, w, h, 1, 0);
        assert forall|i: int| 0 <= i < c.len() implies r[i] == c[i] by {
            blocks::lemma_place(g, i);
        }
        assert(r =~= c);
    }
    law_intra_closed_loop(px, w, h, q, 0, chroma, 0);
    let rs = Seq::new(
        3,
        |k: int|
            {
                let (s, b) = enc::component_step(k, q, 0, chroma, 0);
                plane_recon(plane::component(px, 3, k), w, h, s, b)
            },
    );
    assert forall|k: int| 0 <= k < 3 implies rs[k] == plane::components(px, 3)[k] by {
        let c = plane::component(px, 3, k);
        assert(c == plane::components(px, 3)[k]);
    }
    assert(rs =~= plane::components(px, 3));
}

/// What was coded of a plane can be decoded, however far from zero samples are.
proof fn lemma_plane_reads(px: Seq<i32>, w: int, h: int, q: int, bias: int)
    requires
        enc::plane_payload(px, w, h, q, bias).len() <= u32::MAX,
    ensures
        plane_result(enc::plane_payload(px, w, h, q, bias), w, h, q) is Ok,
{
    reveal(plane_result);
    reveal(enc::plane_payload);
    let n = intra8::grid8(w, h).count() as nat;
    let (modes, zs) = enc::choices(px, w, h, q, bias, n);
    let stride = Some((w / 8) as usize);
    let body = rlc::cabac_body(modes, stride);
    let data = enc::plane_payload(px, w, h, q, bias);
    let head = seq![rlc::cabac_k(modes) as u8] + body;
    rle_cabac::lemma_body_ok(modes, stride);
    assert(data =~= framing::part(head) + cs::coeff_bytes(zs));
    assert(data.subrange(0, 4 + head.len() as int) =~= framing::part(head));
    framing::lemma_part(data, 0, head);
    assert(head.skip(1) =~= body);
}

/// What was coded of an image can be decoded, however far from zero samples are.
pub proof fn lemma_intra_reads(
    px: Seq<i32>,
    w: int,
    h: int,
    q: u8,
    deadzone: i8,
    chroma: u8,
    chroma_bias: i8,
)
    requires
        enc::intra_payload(px, w, h, q, deadzone, chroma, chroma_bias).len() <= u32::MAX,
    ensures
        intra_result(
            enc::intra_payload(px, w, h, q, deadzone, chroma, chroma_bias),
            w,
            h,
            3,
        ) is Ok,
{
    let data = enc::intra_payload(px, w, h, q, deadzone, chroma, chroma_bias);
    let ps = enc::coded_components(px, w, h, q, deadzone, chroma, chroma_bias);
    let head = seq![
        enc::STEP_FLAGS,
        quant::at_least_one(q) as u8,
        quant::at_least_one(chroma) as u8,
    ];
    assert(data =~= head + framing::framed(ps));
    assert(data[0] == enc::STEP_FLAGS && data[1] == quant::at_least_one(q) && data[2]
        == quant::at_least_one(chroma));
    let rs = Seq::new(3, |k: int| plane_result(ps[k], w, h, step_of(data, k))->Ok_0);
    assert forall|k: int| 0 <= k < 3 implies plane_result(#[trigger] ps[k], w, h, step_of(data, k))
        == Ok::<Seq<i32>, Fault>(rs[k]) by {
        framing::lemma_framed_len(ps, k);
        let (s, b) = enc::component_step(k, q, deadzone, chroma, chroma_bias);
        lemma_plane_reads(plane::component(px, 3, k), w, h, s, b);
    }
    lemma_planes(data, w, h, head, ps, rs, 3);
}

proof fn lemma_planes_count(data: Seq<u8>, w: int, h: int, n: nat)
    ensures
        planes_at(data, w, h, n) is Ok ==> planes_at(data, w, h, n)->Ok_0.0.len() == n,
    decreases n,
{
    if n > 0 {
        lemma_planes_count(data, w, h, (n - 1) as nat);
    }
}

/// A payload gives as many samples as the image has.
pub proof fn lemma_intra_len(data: Seq<u8>, w: int, h: int, c: int)
    requires
        w * h >= 0,
    ensures
        ({
            let r = intra_result(data, w, h, c);
            r is Ok ==> c == 3 && r->Ok_0.len() == w * h * 3
        }),
{
    lemma_planes_count(data, w, h, 3);
}

/// Levels in steps of `q` give back the residuals of a block to a bound that goes with the step, and are
/// not too large.
proof fn lemma_block_close(
    px: Seq<i32>,
    w: int,
    h: int,
    t: int,
    p: Seq<i32>,
    mode: i32,
    q: int,
    bias: int,
    m: int,
    k: int,
)
    requires
        0 <= w <= 0xffff,
        0 <= h <= 0xffff,
        px.len() == w * h,
        0 <= t < intra8::grid8(w, h).count(),
        p.len() == BLK_AREA,
        bounds::small(px, m),
        bounds::small(p, k),
        0 <= m <= 0x1000,
        0 <= k <= 0x2000,
        1 <= q <= 255,
        -128 <= bias <= 128,
    ensures
        ({
            let res = enc::residual(px, intra8::grid8(w, h), t, p);
            let z = enc::levels(res, mode, q, bias);
            &&& close::close(intra8::residual_block(z, q, mode), res, 8 * q + 52)
            &&& bounds::small(res, m + k)
            &&& z.len() == 64
            &&& forall|j: int| 0 <= j < 64 ==> syn::mag(#[trigger] z[j]) <= MAX_QUOTIENT
        }),
{
    let g = intra8::grid8(w, h);
    let res = enc::residual(px, g, t, p);
    blocks::lemma_tile_dims(g, t);
    assert(bounds::small(res, m + k)) by {
        assert forall|j: int| 0 <= j < res.len() implies -(m + k) <= #[trigger] res[j] <= m
            + k by {
            if j / 8 < g.th(t) && j % 8 < g.tw(t) {
                let y = g.y0(t) + j / 8;
                let x = g.x0(t) + j % 8;
                assert(0 <= y * w + x < w * h) by (nonlinear_arith)
                    requires
                        0 <= y < h,
                        0 <= x < w,
                ;
                assert(-m <= px[y * w + x] <= m);
                assert(-k <= p[j] <= k);
            }
        }
    }
    let f = if mode == MODE_DC {
        res
    } else {
        transform::forward2(res, 8, 8)
    };
    transform::law_transform_roundtrip(res, 8, 8);
    bounds::lemma_forward_small(res, 8, 8, m + k);
    let b = 9 * (m + k);
    assert(bounds::small(f, b));
    let ls = Seq::new(64, |j: int| quant::quant_level(f[j], q, bias));
    let d = Seq::new(64, |j: int| quant::dequant(ls[j], q));
    let e = q / 2 + 2;
    assert forall|j: int| 0 <= j < 64 implies -e <= #[trigger] d[j] - f[j] <= e && syn::mag(ls[j])
        <= MAX_QUOTIENT by {
        assert(-b <= f[j] <= b);
        quant::law_quant_error(f[j], q, bias, 128);
        quant::law_dequant(ls[j], q);
        let l = ls[j] as int;
        assert(-0x10_0000 <= l <= 0x10_0000) by (nonlinear_arith)
            requires
                -0x8_0000 <= l * q <= 0x8_0000,
                q >= 1,
        ;
    }
    let z = zigzag::scan(ls, 8);
    assert(enc::levels(res, mode, q, bias) == z);
    zigzag::law_zigzag_roundtrip(ls, 8);
    assert(close::close(d, f, e));
    if mode == MODE_DC {
        close::lemma_close_wider(d, f, e, 8 * q + 52);
    } else {
        close::lemma_close_small(d, f, e, b);
        bounds::lemma_small_wider(d, b + e, 0x4_0000);
        bounds::lemma_small_wider(f, b, 0x4_0000);
        close::law_inverse_close(d, f, 8, 8, e);
        close::lemma_close_wider(
            transform::inverse2(d, 8, 8),
            transform::inverse2(f, 8, 8),
            16 * e + 20,
            8 * q + 52,
        );
    }
    assert forall|j: int| 0 <= j < 64 implies syn::mag(#[trigger] z[j]) <= MAX_QUOTIENT by {
        zigzag::lemma_place_inside(8, j as nat);
        let (r, c) = zigzag::place(8, j as nat);
        assert(z[j] == ls[r * 8 + c]);
        assert(-e <= d[r * 8 + c] - f[r * 8 + c] <= e);
    }
}

/// The first `n` blocks are rebuilt to a bound that goes with the step.
proof fn lemma_close_blocks(px: Seq<i32>, w: int, h: int, q: int, bias: int, n: nat, m: int)
    requires
        0 <= w <= 0xffff,
        0 <= h <= 0xffff,
        px.len() == w * h,
        n <= intra8::grid8(w, h).count(),
        bounds::small(px, m),
        0 <= m <= 0x1000,
        1 <= q <= 255,
        -128 <= bias <= 128,
    ensures
        ({
            let g = intra8::grid8(w, h);
            let e = 8 * q + 52;
            let (modes, zs) = enc::choices(px, w, h, q, bias, n);
            let r = intra8::rebuilt(modes, zs, q, w, h, n);
            &&& r.len() == px.len()
            &&& forall|i: int|
                0 <= i < px.len() && g.tile_of(i) < n ==> -e <= #[trigger] r[i] - px[i] <= e
            &&& bounds::small(r, m + e)
            &&& cs::coeffs_ok(zs)
        }),
    decreases n,
{
    let g = intra8::grid8(w, h);
    let e = 8 * q + 52;
    let (modes, zs) = enc::choices(px, w, h, q, bias, n);
    let r = intra8::rebuilt(modes, zs, q, w, h, n);
    intra8::lemma_rebuilt_len(modes, zs, q, w, h, n);
    if n == 0 {
        assert forall|i: int| 0 <= i < px.len() && g.tile_of(i) < n implies -e <= #[trigger] r[i]
            - px[i] <= e by {
            blocks::lemma_place(g, i);
        }
    } else {
        let t = n - 1;
        lemma_close_blocks(px, w, h, q, bias, t as nat, m);
        enc::lemma_choices_len(px, w, h, q, bias, t as nat);
        let (m0, z0) = enc::choices(px, w, h, q, bias, t as nat);
        let r0 = intra8::rebuilt(m0, z0, q, w, h, t as nat);
        let mode = enc::best_mode(px, r0, w, h, t, 3);
        blocks::lemma_tile_dims(g, t);
        let x0 = g.x0(t);
        let y0 = g.y0(t);
        let p = intra8::guesses(r0, w, h, x0, y0, mode);
        let res = enc::residual(px, g, t, p);
        let z = enc::levels(res, mode, q, bias);
        assert(modes == m0.push(mode));
        assert(zs == z0.push(z));
        intra8::lemma_rebuilt_prefix(m0, z0, modes, zs, q, w, h, t as nat);
        bounds::lemma_guesses_small(r0, w, h, x0, y0, mode, m + e);
        lemma_block_close(px, w, h, t, p, mode, q, bias, m, m + e);
        let back = intra8::residual_block(z, q, mode);
        let b = intra8::block_samples(r0, w, h, x0, y0, mode, z, q);
        assert(intra8::mode_at(modes, t) == mode);
        assert(zs[t] == z);
        assert(r == intra8::put_block(r0, g, t, b));
        assert forall|i: int| 0 <= i < px.len() && g.tile_of(i) < n implies -e <= #[trigger] r[i]
            - px[i] <= e by {
            blocks::lemma_place(g, i);
            if g.tile_of(i) == t {
                let j = g.within(i);
                blocks::lemma_pos(g, t, j);
                let jr = j / g.tw(t);
                let jc = j % g.tw(t);
                let k = jr * 8 + jc;
                assert(k / 8 == jr && k % 8 == jc);
                assert(res[k] == px[(y0 + jr) * w + x0 + jc].wrapping_sub(p[k]));
                assert(b[k] == back[k].wrapping_add(p[k]));
                assert(-e <= back[k] - res[k] <= e);
                assert(-(m + e) <= p[k] <= m + e);
                assert(-m <= px[i] <= m);
                assert(-(m + m + e) <= res[k] <= m + m + e);
            } else {
                assert(r[i] == r0[i]);
                assert(-e <= r0[i] - px[i] <= e);
            }
        }
        assert forall|i: int| 0 <= i < r.len() implies -(m + e) <= #[trigger] r[i] <= m + e by {
            if g.tile_of(i) == t {
                assert(-e <= r[i] - px[i] <= e);
                assert(-m <= px[i] <= m);
            } else {
                assert(r[i] == r0[i]);
            }
        }
        assert forall|u: int| 0 <= u < zs.len() implies (#[trigger] zs[u]).len() == 64 && forall|
            j: int,
        |
            0 <= j < 64 ==> syn::mag(#[trigger] zs[u][j]) <= MAX_QUOTIENT by {
            if u < t {
                assert(zs[u] == z0[u]);
            }
        }
    }
}

/// An image of predicted and transformed blocks decodes to within a bound that goes with the step,
/// whatever the shift of the rounding.
pub proof fn law_intra_close(
    px: Seq<i32>,
    w: int,
    h: int,
    q: u8,
    deadzone: i8,
    chroma: u8,
    chroma_bias: i8,
    s: int,
    m: int,
)
    requires
        0 <= w <= 0xffff,
        0 <= h <= 0xffff,
        px.len() == w * h * 3,
        px.len() < u32::MAX,
        bounds::small(px, m),
        0 <= m <= 0x1000,
        1 <= s <= 255,
        q <= s,
        chroma <= s,
        enc::intra_payload(px, w, h, q, deadzone, chroma, chroma_bias).len() <= u32::MAX,
    ensures
        ({
            let r = intra_result(
                enc::intra_payload(px, w, h, q, deadzone, chroma, chroma_bias),
                w,
                h,
                3,
            );
            r is Ok && close::close(r->Ok_0, px, 8 * s + 52)
        }),
{
    assert(w * h >= 0) by (nonlinear_arith)
        requires
            w >= 0,
            h >= 0,
    ;
    let area = (w * h) as nat;
    plane::lemma_interleave(px, 3, area);
    let g = intra8::grid8(w, h);
    blocks::lemma_count(g);
    let n = g.count() as nat;
    assert forall|k: int| 0 <= k < 3 implies ({
        let (q0, b) = enc::component_step(k, q, deadzone, chroma, chroma_bias);
        let c = #[trigger] plane::component(px, 3, k);
        levels_ok(c, w, h, q0, b) && close::close(plane_recon(c, w, h, q0, b), c, 8 * s + 52)
    }) by {
        let (q0, b) = enc::component_step(k, q, deadzone, chroma, chroma_bias);
        let c = plane::component(px, 3, k);
        assert(bounds::small(c, m)) by {
            assert forall|i: int| 0 <= i < c.len() implies -m <= #[trigger] c[i] <= m by {
                assert(c[i] == px[i * 3 + k]);
            }
        }
        lemma_close_blocks(c, w, h, q0, b, n, m);
        reveal(plane_recon);
        let r = plane_recon(c, w, h, q0, b);
        assert forall|i: int| 0 <= i < r.len() implies -(8 * s + 52) <= #[trigger] r[i] - c[i] <= 8
            * s + 52 by {
            blocks::lemma_place(g, i);
        }
    }
    law_intra_closed_loop(px, w, h, q, deadzone, chroma, chroma_bias);
    let rs = Seq::new(
        3,
        |k: int|
            {
                let (q0, b) = enc::component_step(k, q, deadzone, chroma, chroma_bias);
                plane_recon(plane::component(px, 3, k), w, h, q0, b)
            },
    );
    let cs = plane::components(px, 3);
    assert forall|k: int| 0 <= k < 3 implies close::close(#[trigger] rs[k], cs[k], 8 * s + 52)
        && rs[k].len() == area by {
        let c = plane::component(px, 3, k);
        assert(c == cs[k]);
    }
    close::lemma_interleaved_close(rs, cs, area, 8 * s + 52);
}

} // verus!

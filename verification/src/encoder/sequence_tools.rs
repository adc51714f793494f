//! Tools that work on whole frames of a sequence: what changed, what moved, how steps are shared out.

use vstd::prelude::*;
use crate::common::blocks;
use crate::common::blocks::div_up;
use crate::common::predict;

verus! {

/// The tile side that is used: at least one.
pub open spec fn side(tile_size: usize) -> int {
    if tile_size == 0 {
        1
    } else {
        tile_size as int
    }
}

/// The tile, row by row, that sample `i` lies in.
pub open spec fn tile_of(i: int, w: int, c: int, ts: int) -> int {
    ((i / c) / w / ts) * blocks::tiles_along(w, ts) + ((i / c) % w) / ts
}

/// Whether sample `i` differs by more than `threshold`.
pub open spec fn differs(cur: Seq<i32>, reference: Seq<i32>, threshold: i32, i: int) -> bool {
    predict::abs(cur[i] - reference[i]) > threshold
}

/// Whether one of the first `n` samples that differs lies in tile `t`.
pub open spec fn tile_changed(
    cur: Seq<i32>,
    reference: Seq<i32>,
    w: int,
    c: int,
    ts: int,
    threshold: i32,
    n: int,
    t: int,
) -> bool {
    exists|i: int|
        0 <= i < n && #[trigger] differs(cur, reference, threshold, i) && tile_of(i, w, c, ts) == t
}

/// Which tiles of an image hold a sample that differs from the reference by more than `threshold`.
pub open spec fn mask_spec(
    cur: Seq<i32>,
    reference: Seq<i32>,
    w: int,
    h: int,
    c: int,
    ts: int,
    threshold: i32,
) -> Seq<bool> {
    Seq::new(
        (blocks::tiles_along(w, ts) * blocks::tiles_along(h, ts)) as nat,
        |t: int| tile_changed(cur, reference, w, c, ts, threshold, w * h * c, t),
    )
}

proof fn lemma_tile_of(i: int, w: int, h: int, c: int, ts: int)
    requires
        w >= 1,
        h >= 1,
        c >= 1,
        ts >= 1,
        0 <= i < w * h * c,
    ensures
        0 <= i / c < w * h,
        0 <= (i / c) / w < h,
        0 <= (i / c) % w < w,
        0 <= ((i / c) / w / ts) * blocks::tiles_along(w, ts) <= tile_of(i, w, c, ts),
        tile_of(i, w, c, ts) < blocks::tiles_along(w, ts) * blocks::tiles_along(h, ts),
        blocks::tiles_along(w, ts) <= w,
        blocks::tiles_along(h, ts) <= h,
        0 <= blocks::tiles_along(w, ts) * blocks::tiles_along(h, ts) <= w * h,
{
    let p = i / c;
    vstd::arithmetic::div_mod::lemma_fundamental_div_mod(i, c);
    vstd::arithmetic::div_mod::lemma_div_pos_is_pos(i, c);
    assert(p < w * h) by (nonlinear_arith)
        requires
            i == c * p + i % c,
            0 <= i % c,
            i < w * h * c,
            c >= 1,
    ;
    let y = p / w;
    vstd::arithmetic::div_mod::lemma_fundamental_div_mod(p, w);
    vstd::arithmetic::div_mod::lemma_div_pos_is_pos(p, w);
    assert(y < h) by (nonlinear_arith)
        requires
            p == w * y + p % w,
            0 <= p % w,
            p < w * h,
            w >= 1,
    ;
    let x = p % w;
    let (a, b) = (y / ts, x / ts);
    vstd::arithmetic::div_mod::lemma_fundamental_div_mod(y, ts);
    vstd::arithmetic::div_mod::lemma_fundamental_div_mod(x, ts);
    vstd::arithmetic::div_mod::lemma_div_pos_is_pos(y, ts);
    vstd::arithmetic::div_mod::lemma_div_pos_is_pos(x, ts);
    let (tx, ty) = (blocks::tiles_along(w, ts), blocks::tiles_along(h, ts));
    vstd::arithmetic::mul::lemma_mul_is_commutative(a, ts);
    vstd::arithmetic::mul::lemma_mul_is_commutative(b, ts);
    blocks::lemma_tiles_along(h, ts, a);
    blocks::lemma_tiles_along(w, ts, b);
    assert(0 <= a * tx && a * tx + b < tx * ty && 0 <= tx * ty <= w * h) by (nonlinear_arith)
        requires
            0 <= a < ty,
            0 <= b < tx,
            tx <= w,
            ty <= h,
    ;
}

fn tile_number(i: usize, width: usize, components: usize, ts: usize, tx: usize, Ghost(h): Ghost<int>) -> (t:
    usize)
    requires
        width >= 1,
        h >= 1,
        components >= 1,
        ts >= 1,
        tx == blocks::tiles_along(width as int, ts as int),
        i < width * h * components,
        width * h * components <= usize::MAX,
    ensures
        t == tile_of(i as int, width as int, components as int, ts as int),
        t < tx * blocks::tiles_along(h, ts as int),
{
    proof {
        lemma_tile_of(i as int, width as int, h, components as int, ts as int);
        assert(width * h <= width * h * components) by (nonlinear_arith)
            requires
                width * h >= 0,
                components >= 1,
        ;
    }
    let p: usize = i / components;
    (p / width / ts) * tx + (p % width) / ts
}

/// Which tiles hold a sample that differs from the reference by more than `threshold`; no tile at
/// all for images without samples or of different size.
pub fn change_mask(
    current: &[i32],
    reference: &[i32],
    width: usize,
    height: usize,
    components: usize,
    tile_size: usize,
    threshold: i32,
) -> (mask: Vec<bool>)
    requires
        current@.len() == reference@.len() ==> width * height * components <= current@.len(),
    ensures
        mask@ == if width == 0 || height == 0 || components == 0 || current@.len()
            != reference@.len() {
            Seq::empty()
        } else {
            mask_spec(
                current@,
                reference@,
                width as int,
                height as int,
                components as int,
                side(tile_size),
                threshold,
            )
        },
{
    if width == 0 || height == 0 || components == 0 || current.len() != reference.len() {
        return Vec::new();
    }
    let len: usize = current.len();
    let ts: usize = if tile_size == 0 {
        1
    } else {
        tile_size
    };
    let ghost (w, h, c) = (width as int, height as int, components as int);
    proof {
        assert(w * h * c >= 1 && w * h <= w * h * c && w <= w * h && h <= w * h) by (nonlinear_arith)
            requires
                w >= 1,
                h >= 1,
                c >= 1,
        ;
        lemma_tile_of(0, w, h, c, ts as int);
    }
    let tx: usize = div_up(width, ts);
    let ty: usize = div_up(height, ts);
    let n: usize = width * height * components;
    let count: usize = tx * ty;
    let mut out: Vec<bool> = Vec::new();
    let mut k: usize = 0;
    while k < count
        invariant
            k <= count,
            out@.len() == k,
            forall|t: int| 0 <= t < k ==> !#[trigger] out@[t],
        decreases count - k,
    {
        out.push(false);
        k = k + 1;
    }
    let mut i: usize = 0;
    while i < n
        invariant
            w == width,
            h == height,
            c == components,
            w >= 1,
            h >= 1,
            c >= 1,
            ts >= 1,
            tx == blocks::tiles_along(w, ts as int),
            count == tx * blocks::tiles_along(h, ts as int),
            n == w * h * c,
            n <= len,
            len == current@.len(),
            len == reference@.len(),
            i <= n,
            out@.len() == count,
            forall|t: int|
                0 <= t < count ==> #[trigger] out@[t] == tile_changed(
                    current@,
                    reference@,
                    w,
                    c,
                    ts as int,
                    threshold,
                    i as int,
                    t,
                ),
        decreases n - i,
    {
        let d: i64 = current[i] as i64 - reference[i] as i64;
        let a: i64 = if d < 0 {
            -d
        } else {
            d
        };
        let ghost before = out@;
        let t: usize = tile_number(i, width, components, ts, tx, Ghost(h));
        if a > threshold as i64 {
            assert(differs(current@, reference@, threshold, i as int));
            out.set(t, true);
        }
        proof {
            assert forall|u: int| 0 <= u < count implies #[trigger] out@[u] == tile_changed(
                current@,
                reference@,
                w,
                c,
                ts as int,
                threshold,
                i + 1,
                u,
            ) by {
                assert(before[u] == tile_changed(
                    current@,
                    reference@,
                    w,
                    c,
                    ts as int,
                    threshold,
                    i as int,
                    u,
                ));
            }
        }
        i = i + 1;
    }
    assert(out@ =~= mask_spec(current@, reference@, w, h, c, ts as int, threshold));
    out
}

/// The samples with those of tiles that did not change set to zero.
pub open spec fn masked(
    px: Seq<i32>,
    mask: Seq<bool>,
    w: int,
    h: int,
    c: int,
    ts: int,
) -> Seq<i32> {
    Seq::new(
        px.len(),
        |i: int|
            if i < w * h * c && (i / c + 1) * c <= px.len() && tile_of(i, w, c, ts) < mask.len()
                && !mask[tile_of(i, w, c, ts)] {
                0
            } else {
                px[i]
            },
    )
}

/// Sets the samples of tiles that did not change to zero.
pub fn apply_change_mask(
    residual: &mut Vec<i32>,
    mask: &[bool],
    width: usize,
    height: usize,
    components: usize,
    tile_size: usize,
)
    requires
        width * height * components <= usize::MAX,
    ensures
        final(residual)@ == masked(
            old(residual)@,
            mask@,
            width as int,
            height as int,
            components as int,
            side(tile_size),
        ),
{
    let ts: usize = if tile_size == 0 {
        1
    } else {
        tile_size
    };
    let len: usize = residual.len();
    let ghost px = residual@;
    let ghost (w, h, c) = (width as int, height as int, components as int);
    if width == 0 || height == 0 || components == 0 {
        proof {
            assert(w * h * c == 0) by (nonlinear_arith)
                requires
                    w == 0 || h == 0 || c == 0,
            ;
            assert(px =~= masked(px, mask@, w, h, c, ts as int));
        }
        return ;
    }
    proof {
        assert(w * h * c >= 1 && w * h <= w * h * c && w <= w * h && h <= w * h) by (nonlinear_arith)
            requires
                w >= 1,
                h >= 1,
                c >= 1,
        ;
    }
    let tx: usize = div_up(width, ts);
    let all: usize = width * height * components;
    let n: usize = if all < len {
        all
    } else {
        len
    };
    let mut i: usize = 0;
    while i < n
        invariant
            w == width,
            h == height,
            c == components,
            w >= 1,
            h >= 1,
            c >= 1,
            ts >= 1,
            tx == blocks::tiles_along(w, ts as int),
            all == w * h * c,
            n <= all,
            n <= len,
            i <= n,
            px.len() == len,
            residual@.len() == len,
            forall|j: int|
                0 <= j < i ==> #[trigger] residual@[j] == masked(px, mask@, w, h, c, ts as int)[j],
            forall|j: int| i <= j < len ==> #[trigger] residual@[j] == px[j],
        decreases n - i,
    {
        let t: usize = tile_number(i, width, components, ts, tx, Ghost(h));
        let q: usize = i / components;
        proof {
            vstd::arithmetic::div_mod::lemma_fundamental_div_mod(i as int, c);
            assert(q * c == c * q && (q + 1) * c == q * c + c) by (nonlinear_arith);
        }
        let whole: bool = components <= len - q * components;
        if whole && t < mask.len() && !mask[t] {
            residual.set(i, 0);
        }
        i = i + 1;
    }
    assert(residual@ =~= masked(px, mask@, w, h, c, ts as int));
}

/// What sample `i` costs if the image has moved by `dx` and `dy`: its difference to the sample it
/// came from, or its magnitude where that would lie outside.
pub open spec fn move_cost(
    cur: Seq<i32>,
    reference: Seq<i32>,
    w: int,
    h: int,
    c: int,
    dx: int,
    dy: int,
    i: int,
) -> int {
    let x = (i / c) % w + dx;
    let y = (i / c) / w + dy;
    if x < 0 || y < 0 || x >= w || y >= h {
        predict::abs(cur[i] as int)
    } else {
        predict::abs(cur[i] - reference[(y * w + x) * c + i % c])
    }
}

/// What the first `n` samples cost.
pub open spec fn move_sum(
    cur: Seq<i32>,
    reference: Seq<i32>,
    w: int,
    h: int,
    c: int,
    dx: int,
    dy: int,
    n: nat,
) -> int
    decreases n,
{
    if n == 0 {
        0
    } else {
        move_sum(cur, reference, w, h, c, dx, dy, (n - 1) as nat) + move_cost(
            cur,
            reference,
            w,
            h,
            c,
            dx,
            dy,
            n - 1,
        )
    }
}

/// A number as far as 64 bits hold it.
pub open spec fn capped(n: int) -> u64 {
    if n > u64::MAX {
        u64::MAX
    } else {
        n as u64
    }
}

/// Move number `k` of those within `r`, row by row.
pub open spec fn nth_move(k: int, r: int) -> (int, int) {
    (k % (2 * r + 1) - r, k / (2 * r + 1) - r)
}

/// The best of the first `k` moves: the first of those that cost least, and no move if all cost as
/// much as 64 bits hold.
pub open spec fn best_move(
    cur: Seq<i32>,
    reference: Seq<i32>,
    w: int,
    h: int,
    c: int,
    r: int,
    k: nat,
) -> (int, int, u64)
    decreases k,
{
    if k == 0 {
        (0, 0, u64::MAX)
    } else {
        let b = best_move(cur, reference, w, h, c, r, (k - 1) as nat);
        let (dx, dy) = nth_move(k - 1, r);
        let s = capped(move_sum(cur, reference, w, h, c, dx, dy, (w * h * c) as nat));
        if s < b.2 {
            (dx, dy, s)
        } else {
            b
        }
    }
}

proof fn lemma_moved(i: int, w: int, h: int, c: int, dx: int, dy: int)
    requires
        w >= 1,
        h >= 1,
        c >= 1,
        0 <= i < w * h * c,
    ensures
        0 <= (i / c) % w < w,
        0 <= (i / c) / w < h,
        0 <= i % c < c,
        ({
            let x = (i / c) % w + dx;
            let y = (i / c) / w + dy;
            0 <= x < w && 0 <= y < h ==> 0 <= y * w + x < w * h && 0 <= (y * w + x) * c && (y * w
                + x) * c + i % c < w * h * c && 0 <= y * w
        }),
{
    lemma_tile_of(i, w, h, c, 1);
    let x = (i / c) % w + dx;
    let y = (i / c) / w + dy;
    let m = i % c;
    if 0 <= x < w && 0 <= y < h {
        assert(0 <= y * w && y * w + x < w * h) by (nonlinear_arith)
            requires
                0 <= x < w,
                0 <= y < h,
        ;
        let p = y * w + x;
        assert(0 <= p * c && p * c + m < w * h * c) by (nonlinear_arith)
            requires
                0 <= p < w * h,
                0 <= m < c,
        ;
    }
}

fn move_sad(
    current: &[i32],
    reference: &[i32],
    width: usize,
    height: usize,
    components: usize,
    dx: i64,
    dy: i64,
) -> (s: u64)
    requires
        width * height * components <= current@.len(),
        width * height * components <= reference@.len(),
        width <= 0x7fff_ffff,
        height <= 0x7fff_ffff,
        -255 <= dx <= 255,
        -255 <= dy <= 255,
    ensures
        s == capped(
            move_sum(
                current@,
                reference@,
                width as int,
                height as int,
                components as int,
                dx as int,
                dy as int,
                (width * height * components) as nat,
            ),
        ),
{
    let len: usize = current.len();
    let rlen: usize = reference.len();
    let ghost (w, h, c) = (width as int, height as int, components as int);
    if width == 0 || height == 0 || components == 0 {
        assert(w * h * c == 0) by (nonlinear_arith)
            requires
                w == 0 || h == 0 || c == 0,
        ;
        return 0;
    }
    proof {
        assert(w * h * c >= 1 && w * h <= w * h * c) by (nonlinear_arith)
            requires
                w >= 1,
                h >= 1,
                c >= 1,
        ;
    }
    let n: usize = width * height * components;
    let mut sad: u64 = 0;
    let mut i: usize = 0;
    while i < n
        invariant
            w == width,
            h == height,
            c == components,
            1 <= w <= 0x7fff_ffff,
            1 <= h <= 0x7fff_ffff,
            c >= 1,
            -255 <= dx <= 255,
            -255 <= dy <= 255,
            w * h <= w * h * c,
            n == w * h * c,
            n <= len,
            n <= rlen,
            len == current@.len(),
            rlen == reference@.len(),
            i <= n,
            move_sum(current@, reference@, w, h, c, dx as int, dy as int, i as nat) >= 0,
            sad == capped(
                move_sum(current@, reference@, w, h, c, dx as int, dy as int, i as nat),
            ),
        decreases n - i,
    {
        proof {
            lemma_moved(i as int, w, h, c, dx as int, dy as int);
        }
        let p: usize = i / components;
        let x: i64 = (p % width) as i64 + dx;
        let y: i64 = (p / width) as i64 + dy;
        let d: i64 = if x < 0 || y < 0 || x >= width as i64 || y >= height as i64 {
            current[i] as i64
        } else {
            current[i] as i64 - reference[(y as usize * width + x as usize) * components + i
                % components] as i64
        };
        let a: u64 = if d < 0 {
            (-d) as u64
        } else {
            d as u64
        };
        assert(a == move_cost(current@, reference@, w, h, c, dx as int, dy as int, i as int));
        sad = if a > u64::MAX - sad {
            u64::MAX
        } else {
            sad + a
        };
        i = i + 1;
    }
    sad
}

/// Finds by how much an image has moved, at most `range` in each direction, and what that move
/// costs. Of moves that cost the same the first one counts, in the order of rows.
pub fn search_integer_motion(
    current: &[i32],
    reference: &[i32],
    width: usize,
    height: usize,
    components: usize,
    range: u8,
) -> (r: (i32, i32, u64))
    requires
        width * height * components <= current@.len(),
        width * height * components <= reference@.len(),
        width <= 0x7fff_ffff,
        height <= 0x7fff_ffff,
    ensures
        (r.0 as int, r.1 as int, r.2) == best_move(
            current@,
            reference@,
            width as int,
            height as int,
            components as int,
            range as int,
            ((2 * range + 1) * (2 * range + 1)) as nat,
        ),
{
    let m: i64 = 2 * range as i64 + 1;
    let ghost (w, h, c) = (width as int, height as int, components as int);
    proof {
        assert(1 <= m * m <= 511 * 511) by (nonlinear_arith)
            requires
                1 <= m <= 511,
        ;
    }
    let total: i64 = m * m;
    let mut best: (i32, i32, u64) = (0, 0, u64::MAX);
    let mut k: i64 = 0;
    while k < total
        invariant
            w == width,
            h == height,
            c == components,
            width <= 0x7fff_ffff,
            height <= 0x7fff_ffff,
            width * height * components <= current@.len(),
            width * height * components <= reference@.len(),
            m == 2 * range + 1,
            total == m * m,
            total <= 511 * 511,
            0 <= k <= total,
            (best.0 as int, best.1 as int, best.2) == best_move(
                current@,
                reference@,
                w,
                h,
                c,
                range as int,
                k as nat,
            ),
        decreases total - k,
    {
        proof {
            vstd::arithmetic::div_mod::lemma_fundamental_div_mod(k as int, m as int);
            vstd::arithmetic::div_mod::lemma_div_pos_is_pos(k as int, m as int);
            let q = k as int / m as int;
            assert(q < m) by (nonlinear_arith)
                requires
                    k == m * q + k as int % m as int,
                    0 <= k as int % m as int,
                    k < m * m,
                    m >= 1,
            ;
        }
        let dx: i64 = k % m - range as i64;
        let dy: i64 = k / m - range as i64;
        let s: u64 = move_sad(current, reference, width, height, components, dx, dy);
        if s < best.2 {
            best = (dx as i32, dy as i32, s);
        }
        k = k + 1;
    }
    best
}

/// A sample as it is kept: zero if its magnitude is at most `threshold`.
pub open spec fn kept(v: i32, threshold: i32) -> i32 {
    if predict::abs(v as int) <= threshold {
        0
    } else {
        v
    }
}

/// How many samples are kept.
pub open spec fn kept_count(px: Seq<i32>, threshold: i32) -> nat
    decreases px.len(),
{
    if px.len() == 0 {
        0
    } else {
        kept_count(px.drop_last(), threshold) + if predict::abs(px.last() as int) > threshold {
            1nat
        } else {
            0nat
        }
    }
}

/// Sets small samples to zero and counts the others.
pub fn sparsify_residual(residual: &mut Vec<i32>, threshold: i32) -> (n: usize)
    ensures
        final(residual)@ == Seq::new(
            old(residual)@.len(),
            |i: int| kept(old(residual)@[i], threshold),
        ),
        n == kept_count(old(residual)@, threshold),
        n <= old(residual)@.len(),
{
    let len: usize = residual.len();
    let ghost px = residual@;
    let mut n: usize = 0;
    let mut i: usize = 0;
    assert(px.take(0) =~= Seq::<i32>::empty());
    while i < len
        invariant
            i <= len,
            px.len() == len,
            residual@.len() == len,
            forall|j: int| 0 <= j < i ==> #[trigger] residual@[j] == kept(px[j], threshold),
            forall|j: int| i <= j < len ==> #[trigger] residual@[j] == px[j],
            n == kept_count(px.take(i as int), threshold),
            n <= i,
        decreases len - i,
    {
        assert(px.take(i + 1).drop_last() =~= px.take(i as int));
        let v: i64 = residual[i] as i64;
        let a: i64 = if v < 0 {
            -v
        } else {
            v
        };
        if a <= threshold as i64 {
            residual.set(i, 0);
        } else {
            n = n + 1;
        }
        i = i + 1;
    }
    assert(px.take(len as int) =~= px);
    assert(residual@ =~= Seq::new(px.len(), |i: int| kept(px[i], threshold)));
    n
}

/// Least of some numbers, `top` if there is none.
pub open spec fn smallest(s: Seq<u64>, top: u64) -> u64
    decreases s.len(),
{
    if s.len() == 0 {
        top
    } else if s.last() < smallest(s.drop_last(), top) {
        s.last()
    } else {
        smallest(s.drop_last(), top)
    }
}

/// Largest of some numbers, zero if there is none.
pub open spec fn largest(s: Seq<u64>) -> u64
    decreases s.len(),
{
    if s.len() == 0 {
        0
    } else if s.last() > largest(s.drop_last()) {
        s.last()
    } else {
        largest(s.drop_last())
    }
}

/// How simple a frame is, up to 255, among frames from `lo` to `hi`.
pub open spec fn simplicity(v: u64, lo: u64, hi: u64) -> int {
    if hi - lo <= 0 {
        128
    } else {
        let q = capped((hi - v) * 255) as int / (hi - lo);
        if q > 255 {
            255
        } else {
            q
        }
    }
}

/// A number between two bounds.
pub open spec fn within(v: int, lo: int, hi: int) -> int {
    if v < lo {
        lo
    } else if v > hi {
        hi
    } else {
        v
    }
}

/// The step of a frame: less the more complex it is, by up to half.
pub open spec fn shared_step(inv: int, base: u8, lo: u8, hi: u8) -> u8 {
    let p = base * (inv - 128);
    let delta = if p >= 0 {
        p / 256
    } else {
        -((-p) / 256)
    };
    within(base + delta, lo as int, hi as int) as u8
}

/// Shares steps out to frames by their complexity: complex frames get smaller ones.
pub fn allocate_quant_steps(complexity: &[u64], base_step: u8, min_step: u8, max_step: u8) -> (out:
    Vec<u8>)
    requires
        complexity@.len() > 0 ==> min_step <= max_step,
    ensures
        out@ == Seq::new(
            complexity@.len(),
            |i: int|
                shared_step(
                    simplicity(
                        complexity@[i],
                        smallest(complexity@, u64::MAX),
                        largest(complexity@),
                    ),
                    base_step,
                    min_step,
                    max_step,
                ),
        ),
{
    let n: usize = complexity.len();
    let mut lo: u64 = u64::MAX;
    let mut hi: u64 = 0;
    let mut i: usize = 0;
    assert(complexity@.take(0) =~= Seq::<u64>::empty());
    while i < n
        invariant
            n == complexity@.len(),
            i <= n,
            lo == smallest(complexity@.take(i as int), u64::MAX),
            hi == largest(complexity@.take(i as int)),
            forall|j: int| 0 <= j < i ==> lo <= #[trigger] complexity@[j] <= hi,
        decreases n - i,
    {
        assert(complexity@.take(i + 1).drop_last() =~= complexity@.take(i as int));
        let v: u64 = complexity[i];
        if v < lo {
            lo = v;
        }
        if v > hi {
            hi = v;
        }
        i = i + 1;
    }
    assert(complexity@.take(n as int) =~= complexity@);
    let ghost all = Seq::new(
        complexity@.len(),
        |i: int| shared_step(simplicity(complexity@[i], lo, hi), base_step, min_step, max_step),
    );
    let mut out: Vec<u8> = Vec::new();
    let mut k: usize = 0;
    while k < n
        invariant
            n == complexity@.len(),
            n > 0 ==> min_step <= max_step,
            k <= n,
            forall|j: int| 0 <= j < n ==> lo <= #[trigger] complexity@[j] <= hi,
            all == Seq::new(
                complexity@.len(),
                |i: int|
                    shared_step(simplicity(complexity@[i], lo, hi), base_step, min_step, max_step),
            ),
            out@ == all.take(k as int),
        decreases n - k,
    {
        let v: u64 = complexity[k];
        assert(lo <= complexity@[k as int] <= hi);
        let inv: i32 = if hi == lo {
            128
        } else {
            let d: u64 = hi - v;
            let m: u64 = if d > u64::MAX / 255 {
                u64::MAX
            } else {
                d * 255
            };
            let q: u64 = m / (hi - lo);
            if q > 255 {
                255
            } else {
                q as i32
            }
        };
        assert(inv == simplicity(complexity@[k as int], lo, hi));
        proof {
            let p = base_step * (inv - 128);
            assert(-255 * 128 <= p <= 255 * 127) by (nonlinear_arith)
                requires
                    p == base_step * (inv - 128),
                    0 <= base_step <= 255,
                    0 <= inv <= 255,
            ;
        }
        let p: i32 = base_step as i32 * (inv - 128);
        let delta: i32 = if p >= 0 {
            p / 256
        } else {
            -((-p) / 256)
        };
        let s: i32 = base_step as i32 + delta;
        let r: u8 = if s < min_step as i32 {
            min_step
        } else if s > max_step as i32 {
            max_step
        } else {
            s as u8
        };
        out.push(r);
        k = k + 1;
        assert(out@ =~= all.take(k as int));
    }
    assert(out@ =~= all);
    out
}

/// Two samples are in the same tile of side `ts`.
pub open spec fn same_tile(i: int, j: int, w: int, c: int, ts: int) -> bool {
    &&& i / c / w / ts == j / c / w / ts
    &&& i / c % w / ts == j / c % w / ts
}

/// A tile is marked if and only if a sample in it differs by more than the threshold.
pub proof fn law_change_mask(
    cur: Seq<i32>,
    reference: Seq<i32>,
    w: int,
    h: int,
    c: int,
    ts: int,
    threshold: i32,
    i: int,
)
    requires
        w >= 1,
        h >= 1,
        c >= 1,
        ts >= 1,
        0 <= i < w * h * c,
    ensures
        ({
            let m = mask_spec(cur, reference, w, h, c, ts, threshold);
            let t = tile_of(i, w, c, ts);
            &&& 0 <= t < m.len()
            &&& m[t] <==> exists|j: int|
                #![trigger cur[j]]
                0 <= j < w * h * c && same_tile(i, j, w, c, ts) && !(-threshold <= cur[j]
                    - reference[j] <= threshold)
        }),
{
    lemma_tile_of(i, w, h, c, ts);
    let t = tile_of(i, w, c, ts);
    let m = mask_spec(cur, reference, w, h, c, ts, threshold);
    if m[t] {
        let j = choose|j: int|
            0 <= j < w * h * c && #[trigger] differs(cur, reference, threshold, j) && tile_of(
                j,
                w,
                c,
                ts,
            ) == t;
        lemma_same_tile(i, j, w, h, c, ts);
        assert(!(-threshold <= cur[j] - reference[j] <= threshold));
    }
    if exists|j: int|
        #![trigger cur[j]]
        0 <= j < w * h * c && same_tile(i, j, w, c, ts) && !(-threshold <= cur[j] - reference[j]
            <= threshold) {
        let j = choose|j: int|
            #![trigger cur[j]]
            0 <= j < w * h * c && same_tile(i, j, w, c, ts) && !(-threshold <= cur[j] - reference[j]
                <= threshold);
        assert(differs(cur, reference, threshold, j));
        assert(tile_of(j, w, c, ts) == t);
    }
}

proof fn lemma_tile_column(x: int, w: int, ts: int)
    requires
        0 <= x < w,
        ts >= 1,
    ensures
        0 <= x / ts < blocks::tiles_along(w, ts),
{
    vstd::arithmetic::div_mod::lemma_fundamental_div_mod(x, ts);
    vstd::arithmetic::div_mod::lemma_mod_bound(x, ts);
    vstd::arithmetic::div_mod::lemma_div_pos_is_pos(x, ts);
    assert((x / ts) * ts <= x) by (nonlinear_arith)
        requires
            x == ts * (x / ts) + x % ts,
            x % ts >= 0,
    ;
    blocks::lemma_tiles_along(w, ts, x / ts);
}

proof fn lemma_same_tile(i: int, j: int, w: int, h: int, c: int, ts: int)
    requires
        w >= 1,
        h >= 1,
        c >= 1,
        ts >= 1,
        0 <= i < w * h * c,
        0 <= j < w * h * c,
        tile_of(i, w, c, ts) == tile_of(j, w, c, ts),
    ensures
        same_tile(i, j, w, c, ts),
{
    let n = blocks::tiles_along(w, ts);
    let (a, b) = (i / c % w / ts, j / c % w / ts);
    let (p, q) = (i / c / w / ts, j / c / w / ts);
    lemma_tile_of(i, w, h, c, ts);
    lemma_tile_of(j, w, h, c, ts);
    vstd::arithmetic::div_mod::lemma_mod_bound(i / c, w);
    vstd::arithmetic::div_mod::lemma_mod_bound(j / c, w);
    lemma_tile_column(i / c % w, w, ts);
    lemma_tile_column(j / c % w, w, ts);
    vstd::arithmetic::div_mod::lemma_fundamental_div_mod_converse(p * n + a, n, p, a);
    vstd::arithmetic::div_mod::lemma_fundamental_div_mod_converse(q * n + b, n, q, b);
}

/// Setting unmarked tiles to zero costs no more than the threshold: each difference is kept or is
/// within the threshold of zero, and none is invented.
pub proof fn law_masked_close(
    cur: Seq<i32>,
    reference: Seq<i32>,
    w: int,
    h: int,
    c: int,
    ts: int,
    threshold: i32,
    d: Seq<i32>,
    i: int,
)
    requires
        w >= 1,
        h >= 1,
        c >= 1,
        ts >= 1,
        threshold >= 0,
        0 <= i < w * h * c,
        d.len() == w * h * c,
        d[i] == cur[i] - reference[i],
    ensures
        ({
            let r = masked(d, mask_spec(cur, reference, w, h, c, ts, threshold), w, h, c, ts);
            &&& r.len() == d.len()
            &&& r[i] == d[i] || r[i] == 0
            &&& -threshold <= r[i] - d[i] <= threshold
            &&& !(-threshold <= d[i] <= threshold) ==> r[i] == d[i]
        }),
{
    law_change_mask(cur, reference, w, h, c, ts, threshold, i);
    if !(-threshold <= d[i] <= threshold) {
        assert(same_tile(i, i, w, c, ts));
        assert(cur[i] - reference[i] == d[i]);
    }
}

/// What a sample costs if the image has moved: sample `k` of pixel (`x`, `y`) comes from pixel
/// (`x + dx`, `y + dy`), if there is one.
pub proof fn law_move_cost(
    cur: Seq<i32>,
    reference: Seq<i32>,
    w: int,
    h: int,
    c: int,
    dx: int,
    dy: int,
    x: int,
    y: int,
    k: int,
)
    requires
        0 <= x < w,
        0 <= y < h,
        0 <= k < c,
    ensures
        ({
            let i = (y * w + x) * c + k;
            let m = move_cost(cur, reference, w, h, c, dx, dy, i);
            let inside = 0 <= x + dx < w && 0 <= y + dy < h;
            let r = reference[((y + dy) * w + (x + dx)) * c + k];
            &&& 0 <= m
            &&& inside ==> m == cur[i] - r || m == r - cur[i]
            &&& !inside ==> m == cur[i] || m == -cur[i]
        }),
{
    let p = y * w + x;
    vstd::arithmetic::div_mod::lemma_fundamental_div_mod_converse(p, w, y, x);
    vstd::arithmetic::div_mod::lemma_fundamental_div_mod_converse(p * c + k, c, p, k);
}

proof fn lemma_move_sum(
    cur: Seq<i32>,
    reference: Seq<i32>,
    w: int,
    h: int,
    c: int,
    dx: int,
    dy: int,
    n: nat,
)
    ensures
        0 <= move_sum(cur, reference, w, h, c, dx, dy, n),
        move_sum(cur, reference, w, h, c, dx, dy, n) == 0 <==> forall|i: int|
            0 <= i < n ==> #[trigger] move_cost(cur, reference, w, h, c, dx, dy, i) == 0,
    decreases n,
{
    if n > 0 {
        lemma_move_sum(cur, reference, w, h, c, dx, dy, (n - 1) as nat);
        assert(move_cost(cur, reference, w, h, c, dx, dy, n - 1) >= 0);
    }
}

proof fn lemma_best_move(
    cur: Seq<i32>,
    reference: Seq<i32>,
    w: int,
    h: int,
    c: int,
    r: int,
    k: nat,
    j: int,
)
    requires
        0 <= j < k,
        r >= 0,
        k <= (2 * r + 1) * (2 * r + 1),
    ensures
        ({
            let b = best_move(cur, reference, w, h, c, r, k);
            let (dx, dy) = nth_move(j, r);
            &&& b.2 <= capped(move_sum(cur, reference, w, h, c, dx, dy, (w * h * c) as nat))
            &&& b.2 < u64::MAX ==> b.2 == capped(
                move_sum(cur, reference, w, h, c, b.0, b.1, (w * h * c) as nat),
            )
            &&& -r <= b.0 <= r
            &&& -r <= b.1 <= r
        }),
    decreases k,
{
    let m = 2 * r + 1;
    if j < k - 1 {
        lemma_best_move(cur, reference, w, h, c, r, (k - 1) as nat, j);
    } else if k > 1 {
        lemma_best_move(cur, reference, w, h, c, r, (k - 1) as nat, 0);
    }
    let e = k - 1;
    vstd::arithmetic::div_mod::lemma_fundamental_div_mod(e, m);
    vstd::arithmetic::div_mod::lemma_mod_bound(e, m);
    vstd::arithmetic::div_mod::lemma_div_pos_is_pos(e, m);
    assert(e / m < m) by (nonlinear_arith)
        requires
            e == m * (e / m) + e % m,
            0 <= e % m,
            e < m * m,
            m >= 1,
    ;
    let (dx, dy) = nth_move(e, r);
    assert(-r <= dx <= r && -r <= dy <= r);
    let b = best_move(cur, reference, w, h, c, r, (k - 1) as nat);
    let s = capped(move_sum(cur, reference, w, h, c, dx, dy, (w * h * c) as nat));
    if k == 1 {
        assert(b == (0int, 0int, u64::MAX));
    }
    assert(best_move(cur, reference, w, h, c, r, k) == if s < b.2 {
        (dx, dy, s)
    } else {
        b
    });
}

/// No move within the range costs less than the one that is found; a move costs nothing if and only if
/// every sample is the one it came from, or is zero where that would lie outside.
pub proof fn law_best_move(
    cur: Seq<i32>,
    reference: Seq<i32>,
    w: int,
    h: int,
    c: int,
    r: int,
    dx: int,
    dy: int,
)
    requires
        0 <= r <= 255,
        -r <= dx <= r,
        -r <= dy <= r,
        w * h * c >= 0,
    ensures
        ({
            let n = (w * h * c) as nat;
            let b = best_move(
                cur,
                reference,
                w,
                h,
                c,
                r,
                ((2 * r + 1) * (2 * r + 1)) as nat,
            );
            &&& -r <= b.0 <= r
            &&& -r <= b.1 <= r
            &&& b.2 <= move_sum(cur, reference, w, h, c, dx, dy, n)
            &&& b.2 < u64::MAX ==> b.2 == move_sum(cur, reference, w, h, c, b.0, b.1, n)
            &&& move_sum(cur, reference, w, h, c, dx, dy, n) == 0 <==> forall|i: int|
                0 <= i < n ==> #[trigger] move_cost(cur, reference, w, h, c, dx, dy, i) == 0
        }),
{
    let m = 2 * r + 1;
    let j = (dy + r) * m + (dx + r);
    assert(0 <= j < m * m && m * m >= 1) by (nonlinear_arith)
        requires
            j == (dy + r) * m + (dx + r),
            0 <= dy + r < m,
            0 <= dx + r < m,
    ;
    vstd::arithmetic::div_mod::lemma_fundamental_div_mod_converse(j, m, dy + r, dx + r);
    lemma_best_move(cur, reference, w, h, c, r, (m * m) as nat, j);
    let b = best_move(cur, reference, w, h, c, r, (m * m) as nat);
    let n = (w * h * c) as nat;
    lemma_move_sum(cur, reference, w, h, c, dx, dy, n);
    lemma_move_sum(cur, reference, w, h, c, b.0, b.1, n);
}

/// Whether a sample is large.
pub open spec fn beyond(threshold: i32) -> spec_fn(i32) -> bool {
    |v: i32| !(-threshold <= v <= threshold)
}

/// Small samples are set to zero, all others kept; the number of those that are kept is told.
pub proof fn law_kept(px: Seq<i32>, threshold: i32, i: int)
    requires
        0 <= i < px.len(),
        threshold >= 0,
    ensures
        -threshold <= px[i] <= threshold ==> kept(px[i], threshold) == 0,
        !(-threshold <= px[i] <= threshold) ==> kept(px[i], threshold) == px[i],
        kept_count(px, threshold) == px.filter(beyond(threshold)).len(),
    decreases px.len(),
{
    let f = beyond(threshold);
    reveal(Seq::filter);
    if px.len() > 1 {
        law_kept(px.drop_last(), threshold, 0);
    } else {
        assert(px.drop_last() =~= Seq::<i32>::empty());
        assert(px.drop_last().filter(f).len() == 0);
        assert(kept_count(px.drop_last(), threshold) == 0);
    }
    let t = px.drop_last().filter(f);
    assert(px.filter(f) == if f(px.last()) {
        t.push(px.last())
    } else {
        t
    });
}

/// A frame that is more complex than another gets no larger step; steps keep within the limits, and
/// frames that are all equally complex get the base step.
pub proof fn law_shared_step(u: u64, v: u64, lo: u64, hi: u64, base: u8, min: u8, max: u8)
    requires
        lo <= u <= v <= hi,
        min <= max,
    ensures
        ({
            let (a, b) = (
                shared_step(simplicity(u, lo, hi), base, min, max),
                shared_step(simplicity(v, lo, hi), base, min, max),
            );
            &&& b <= a
            &&& min <= a <= max
            &&& min <= b <= max
            &&& lo == hi && min <= base <= max ==> a == base
            &&& lo < hi && v == hi && min <= base <= max ==> 2 * b <= 2 * base
            &&& lo < hi && hi <= 0x100_0000_0000_0000 && u == lo && min <= base <= max ==> a >= base
        }),
{
    let (p, q) = (simplicity(u, lo, hi), simplicity(v, lo, hi));
    if lo < hi {
        let d = hi - lo;
        let (x, y) = (capped((hi - u) * 255) as int, capped((hi - v) * 255) as int);
        assert(y <= x);
        vstd::arithmetic::div_mod::lemma_div_is_ordered(y, x, d);
        vstd::arithmetic::div_mod::lemma_div_pos_is_pos(y, d);
        assert(q <= p);
        if v == hi {
            assert(y == 0);
            vstd::arithmetic::div_mod::lemma_basic_div(0, d);
            assert(q == 0);
        }
        if hi <= 0x100_0000_0000_0000 && u == lo {
            assert(x == 255 * d);
            vstd::arithmetic::div_mod::lemma_div_multiples_vanish(255, d);
            assert(p == 255);
        }
    }
    let (s, t) = (base * (p - 128), base * (q - 128));
    assert(t <= s && -128 * 255 <= t && s <= 127 * 255) by (nonlinear_arith)
        requires
            s == base * (p - 128),
            t == base * (q - 128),
            0 <= q <= p <= 255,
            0 <= base <= 255,
    ;
    if q == 0 {
        assert(t == -128 * base) by (nonlinear_arith)
            requires
                t == base * (q - 128),
                q == 0,
        ;
    }
    if p == 128 {
        assert(s == 0) by (nonlinear_arith)
            requires
                s == base * (p - 128),
                p == 128,
        ;
    }
    if p == 255 {
        assert(s == 127 * base) by (nonlinear_arith)
            requires
                s == base * (p - 128),
                p == 255,
        ;
    }
}

proof fn lemma_extremes(s: Seq<u64>, i: int)
    requires
        0 <= i < s.len(),
    ensures
        smallest(s, u64::MAX) <= s[i] <= largest(s),
        exists|j: int| 0 <= j < s.len() && #[trigger] s[j] == largest(s),
        exists|j: int| 0 <= j < s.len() && #[trigger] s[j] == smallest(s, u64::MAX),
    decreases s.len(),
{
    let t = s.drop_last();
    let e = s.len() - 1;
    assert(s.last() == s[e]);
    if s.len() > 1 {
        lemma_extremes(t, if i < e {
            i
        } else {
            0
        });
        assert(i < e ==> t[i] == s[i]);
        let a = choose|j: int| 0 <= j < t.len() && #[trigger] t[j] == largest(t);
        let b = choose|j: int| 0 <= j < t.len() && #[trigger] t[j] == smallest(t, u64::MAX);
        assert(s[a] == t[a] && s[b] == t[b]);
    } else {
        assert(t =~= Seq::<u64>::empty());
    }
}

/// Of the steps that are shared out, the more complex frame has the smaller one, or the same.
pub proof fn law_allocated_steps(s: Seq<u64>, base: u8, min: u8, max: u8, i: int, j: int)
    requires
        0 <= i < s.len(),
        0 <= j < s.len(),
        s[i] <= s[j],
        min <= max,
    ensures
        ({
            let (lo, hi) = (smallest(s, u64::MAX), largest(s));
            &&& lo <= s[i]
            &&& s[j] <= hi
            &&& shared_step(simplicity(s[i], lo, hi), base, min, max) >= shared_step(
                simplicity(s[j], lo, hi),
                base,
                min,
                max,
            )
        }),
{
    lemma_extremes(s, i);
    lemma_extremes(s, j);
    law_shared_step(s[i], s[j], smallest(s, u64::MAX), largest(s), base, min, max);
}

} // verus!

//! Frames coded block by block: a block either repeats an earlier stretch of the image, or is
//! predicted sample by sample.

use std::collections::HashMap;
use vstd::prelude::*;
use crate::common::bits;
use crate::common::block_copy;
use crate::common::block_copy::{block_grid, BS};
use crate::common::blocks;
use crate::common::blocks::{Grid, Tiling};
use crate::common::choose_k;
use crate::common::codes;
use crate::common::domain::PredictionMode;
use crate::common::error::CrfResult;
use crate::common::framing;
use crate::common::framing::put_part;
use crate::common::le;
use crate::common::le::put_le32;
use crate::common::predict;
use crate::common::predict::predict_at;
use crate::encoder::cost;
use crate::encoder::cost::sad_for_mode_sampled;
use crate::encoder::exp_golomb::ExpGolombEncoder;
use crate::encoder::rle_golomb;
use crate::encoder::rle_golomb::RleGolombEncoder;

verus! {

broadcast use vstd::std_specs::hash::group_hash_axioms;

/// Number of places that are remembered for a key.
pub const MAX_BUCKET: usize = 4;

/// Rows for which the start of a stretch is remembered.
pub const SEG_DEPTH: usize = 32;

/// Pixels between stretches that are remembered.
pub const SEG_STEP: usize = 2;

/// Where a hash starts.
pub const FNV_OFFSET: u64 = 0xcbf29ce484222325;

/// What a hash is multiplied by.
pub const FNV_PRIME: u64 = 0x100000001b3;

/// An image whose blocks are coded.
pub struct Sheet {
    pub px: Seq<i32>,
    pub w: int,
    pub h: int,
    pub c: int,
}

impl Sheet {
    pub open spec fn ok(self) -> bool {
        block_copy::size_ok(self.w, self.h, self.c) && self.px.len() == self.h * (self.w * self.c)
    }

    pub open spec fn grid(self) -> Tiling {
        block_copy::grid(self.w, self.h, self.c)
    }

    /// Column of block `t`.
    pub open spec fn left(self, t: int) -> int {
        block_copy::column(self.w, self.h, self.c, t)
    }

    /// Row of block `t`.
    pub open spec fn top(self, t: int) -> int {
        block_copy::row(self.w, self.h, self.c, t)
    }

    /// Width of block `t` in pixels.
    pub open spec fn bw(self, t: int) -> int {
        blocks::clip(self.w, self.left(t), 8)
    }

    /// The first sample of the pixel at `x`, `y`.
    pub open spec fn at(self, x: int, y: int) -> int {
        y * (self.w * self.c) + x * self.c
    }
}

/// A hash with one more sample taken in.
pub open spec fn mix(hash: u64, v: i32) -> u64 {
    (hash ^ (v as u64).wrapping_mul(FNV_PRIME)).wrapping_mul(FNV_PRIME)
}

/// A hash with the `n` samples from `at` taken in.
pub open spec fn mix_run(px: Seq<i32>, at: int, n: nat, hash: u64) -> u64
    decreases n,
{
    if n == 0 {
        hash
    } else {
        mix(mix_run(px, at, (n - 1) as nat, hash), px[at + n - 1])
    }
}

/// The pixels of a block that its key is made of: the corners and the middles of the sides.
pub open spec fn probe(k: int, bw: int, bh: int) -> (int, int) {
    if k == 0 {
        (0, 0)
    } else if k == 1 {
        (bw - 1, 0)
    } else if k == 2 {
        (0, bh - 1)
    } else if k == 3 {
        (bw - 1, bh - 1)
    } else if k == 4 {
        (bw / 2, 0)
    } else if k == 5 {
        (0, bh / 2)
    } else if k == 6 {
        (bw / 2, bh - 1)
    } else {
        (bw - 1, bh / 2)
    }
}

/// The hash of the first `k` of those pixels.
pub open spec fn probes_key(s: Sheet, t: int, k: nat) -> u64
    decreases k,
{
    if k == 0 {
        FNV_OFFSET
    } else {
        let p = probe(k - 1, s.bw(t), s.grid().th(t));
        mix_run(
            s.px,
            s.at(s.left(t) + p.0, s.top(t) + p.1),
            s.c as nat,
            probes_key(s, t, (k - 1) as nat),
        )
    }
}

/// The key of block `t`.
pub open spec fn key_of(s: Sheet, t: int) -> u64 {
    probes_key(s, t, 8)
}

/// The key of the stretch of eight pixels from `x`, `y` on.
pub open spec fn seg_key(s: Sheet, x: int, y: int) -> u64 {
    mix_run(s.px, s.at(x, y), (8 * s.c) as nat, FNV_OFFSET)
}

/// The places remembered for a key, the oldest first.
pub open spec fn bucket(m: Map<u64, Seq<(u16, u16)>>, key: u64) -> Seq<(u16, u16)> {
    if m.contains_key(key) {
        m[key]
    } else {
        Seq::empty()
    }
}

/// Remembers a place, in place of the oldest where there are too many.
pub open spec fn remember(m: Map<u64, Seq<(u16, u16)>>, key: u64, v: (u16, u16)) -> Map<
    u64,
    Seq<(u16, u16)>,
> {
    let b = bucket(m, key);
    m.insert(
        key,
        if b.len() >= MAX_BUCKET {
            b.skip(1)
        } else {
            b
        }.push(v),
    )
}

/// The places that are not too far above row `y`.
pub open spec fn recent(b: Seq<(u16, u16)>, y: int) -> Seq<(u16, u16)>
    decreases b.len(),
{
    if b.len() == 0 {
        b
    } else {
        let r = recent(b.drop_last(), y);
        if y - b.last().1 <= SEG_DEPTH {
            r.push(b.last())
        } else {
            r
        }
    }
}

/// Forgets the places remembered for a key that are too far above row `y`.
pub open spec fn expire(m: Map<u64, Seq<(u16, u16)>>, key: u64, y: int) -> Map<
    u64,
    Seq<(u16, u16)>,
> {
    if m.contains_key(key) {
        m.insert(key, recent(m[key], y))
    } else {
        m
    }
}

/// Places, the newest first.
pub open spec fn newest_first(b: Seq<(u16, u16)>) -> Seq<(int, int)> {
    Seq::new(b.len(), |i: int| (b[b.len() - 1 - i].0 as int, b[b.len() - 1 - i].1 as int))
}

/// What is remembered on the way through an image: where blocks and stretches start, and from which
/// pixel of the current row of blocks on stretches are still to be remembered.
pub struct Seen {
    pub table: Map<u64, Seq<(u16, u16)>>,
    pub segs: Map<u64, Seq<(u16, u16)>>,
    pub upto: int,
}

/// Whether the stretch from the first pixel of block `t` on lies within the image's samples.
pub open spec fn has_seg(s: Sheet, t: int) -> bool {
    s.at(s.left(t) + 8, s.top(t)) <= s.px.len()
}

/// The stretches remembered when block `t` is searched for, those too old forgotten.
pub open spec fn segs_at(s: Sheet, seen: Seen, t: int) -> Map<u64, Seq<(u16, u16)>> {
    if has_seg(s, t) {
        expire(seen.segs, seg_key(s, s.left(t), s.top(t)), s.top(t))
    } else {
        seen.segs
    }
}

/// The places where block `t` may be found, in the order in which they are tried.
pub open spec fn sources(s: Sheet, seen: Seen, t: int) -> Seq<(int, int)> {
    let (bx, by) = (s.left(t), s.top(t));
    newest_first(bucket(seen.table, key_of(s, t))) + seq![
        (bx - 8, by),
        (bx, by - 8),
        (bx - 8, by - 8),
    ] + if has_seg(s, t) {
        newest_first(bucket(segs_at(s, seen, t), seg_key(s, bx, by)))
    } else {
        Seq::empty()
    }
}

/// Whether block `t` may repeat what starts at `p`, and is the same.
pub open spec fn suits(s: Sheet, t: int, p: (int, int)) -> bool {
    block_copy::may_copy(s.w, s.h, s.c, t, p.0, p.1) && forall|j: int|
        0 <= j < s.grid().area(t) ==> s.px[#[trigger] s.grid().pos(t, j)] == s.px[s.grid().pos(t, j)
            + block_copy::shift(s.w, s.h, s.c, t, p.0, p.1)]
}

/// The first of the places that suits.
pub open spec fn first_suiting(s: Sheet, t: int, ps: Seq<(int, int)>) -> Option<(int, int)>
    decreases ps.len(),
{
    if ps.len() == 0 {
        None
    } else if suits(s, t, ps[0]) {
        Some(ps[0])
    } else {
        first_suiting(s, t, ps.skip(1))
    }
}

/// Whether all samples of block `t` are the same.
pub open spec fn uniform(s: Sheet, t: int) -> bool {
    forall|j: int|
        0 <= j < s.grid().area(t) ==> s.px[#[trigger] s.grid().pos(t, j)] == s.px[s.grid().pos(
            t,
            0,
        )]
}

/// Where block `t` is found again, if it is.
pub open spec fn found(s: Sheet, seen: Seen, t: int) -> Option<(int, int)> {
    if uniform(s, t) {
        None
    } else {
        first_suiting(s, t, sources(s, seen, t))
    }
}

/// The stretches of row `y` from pixel `from` up to `limit` remembered too, and the pixel from
/// which on they are not.
pub open spec fn note_segs(
    s: Sheet,
    m: Map<u64, Seq<(u16, u16)>>,
    y: int,
    from: int,
    limit: int,
) -> (Map<u64, Seq<(u16, u16)>>, int)
    decreases s.w - from,
{
    if from + 8 <= s.w && from <= limit {
        note_segs(
            s,
            remember(m, seg_key(s, from, y), (from as u16, y as u16)),
            y,
            from + SEG_STEP,
            limit,
        )
    } else {
        (m, from)
    }
}

/// What is remembered after block `t`.
pub open spec fn noted(s: Sheet, seen: Seen, t: int) -> Seen {
    let (bx, by) = (s.left(t), s.top(t));
    let segs = if uniform(s, t) {
        seen.segs
    } else {
        segs_at(s, seen, t)
    };
    let (segs, upto) = note_segs(
        s,
        segs,
        by,
        seen.upto,
        if bx < 8 {
            0
        } else {
            bx - 8
        },
    );
    let table = remember(seen.table, key_of(s, t), (bx as u16, by as u16));
    if bx + 8 >= s.w {
        Seen { table, segs: note_segs(s, segs, by, upto, s.w).0, upto: 0 }
    } else {
        Seen { table, segs, upto }
    }
}

/// Residuals of the samples of block `t`.
pub open spec fn block_residuals(s: Sheet, mode: PredictionMode, t: int) -> Seq<i32> {
    Seq::new(
        s.grid().area(t) as nat,
        |j: int|
            {
                let p = s.grid().pos(t, j);
                s.px[p].wrapping_sub(predict::predict_spec(s.px, p, s.w, s.c, mode))
            },
    )
}

/// What the blocks of an image come to: for each whether it is repeated; how far to the right and
/// down what it repeats stands; residuals of the others.
#[verifier::ext_equal]
pub struct Trace {
    pub decisions: Seq<i32>,
    pub vectors: Seq<i32>,
    pub residuals: Seq<i32>,
    pub seen: Seen,
}

/// What the first `n` blocks come to.
pub open spec fn trace(s: Sheet, mode: PredictionMode, n: nat) -> Trace
    decreases n,
{
    if n == 0 {
        Trace {
            decisions: Seq::empty(),
            vectors: Seq::empty(),
            residuals: Seq::empty(),
            seen: Seen { table: Map::empty(), segs: Map::empty(), upto: 0 },
        }
    } else {
        let t = n - 1;
        let p = trace(s, mode, t as nat);
        let seen = noted(s, p.seen, t);
        match found(s, p.seen, t) {
            Some((sx, sy)) => Trace {
                decisions: p.decisions.push(1),
                vectors: p.vectors.push((sx - s.left(t)) as i32).push((sy - s.top(t)) as i32),
                residuals: p.residuals,
                seen,
            },
            None => Trace {
                decisions: p.decisions.push(0),
                vectors: p.vectors,
                residuals: p.residuals + block_residuals(s, mode, t),
                seen,
            },
        }
    }
}

/// The modes that predicted blocks can have: those that look only to the left and up.
pub open spec fn block_mode(i: int) -> PredictionMode {
    if i == 0 {
        PredictionMode::Horizontal
    } else if i == 1 {
        PredictionMode::Vertical
    } else if i == 2 {
        PredictionMode::Average
    } else if i == 3 {
        PredictionMode::Med
    } else if i == 4 {
        PredictionMode::Paeth
    } else {
        PredictionMode::Diagonal
    }
}

/// Number of the best of the first `n` modes, the first of equals.
pub open spec fn best_block_mode(s: Sheet, n: nat) -> int
    decreases n,
{
    if n <= 1 {
        0
    } else {
        let b = best_block_mode(s, (n - 1) as nat);
        if cost::sampled_sad(s.px, s.w, s.c, block_mode(n - 1), s.h as nat) < cost::sampled_sad(
            s.px,
            s.w,
            s.c,
            block_mode(b),
            s.h as nat,
        ) {
            n - 1
        } else {
            b
        }
    }
}

/// The mode of predicted blocks.
pub open spec fn mode_of(s: Sheet) -> PredictionMode {
    block_mode(best_block_mode(s, 6))
}

/// The parameter for values.
pub open spec fn k_of(vals: Seq<i32>) -> nat {
    choose_k::adaptive_k_spec(codes::zigzags(vals))
}

/// The payload of an image whose `n` blocks come to `tr`.
pub open spec fn trace_bytes(tr: Trace, n: nat, mode: PredictionMode) -> Seq<u8> {
    le::le32(n as u32) + seq![
        mode.code(),
        k_of(tr.decisions) as u8,
        k_of(tr.residuals) as u8,
    ] + framing::framed(
        seq![
            rle_golomb::rle_bytes(tr.decisions, k_of(tr.decisions)),
            bits::pack(codes::exp_bits(codes::zigzags(tr.vectors))),
            rle_golomb::rle_bytes(tr.residuals, k_of(tr.residuals)),
        ],
    )
}

/// The payload of an image.
pub open spec fn intrabc_payload(s: Sheet) -> Seq<u8> {
    let n = s.grid().count() as nat;
    trace_bytes(trace(s, mode_of(s), n), n, mode_of(s))
}

/// Places remembered by key.
struct Buckets {
    m: HashMap<u64, Vec<(u16, u16)>>,
}

impl Buckets {
    spec fn view(&self) -> Map<u64, Seq<(u16, u16)>> {
        self.m@.map_values(|v: Vec<(u16, u16)>| v@)
    }

    fn new() -> (b: Buckets)
        ensures
            b@ == Map::<u64, Seq<(u16, u16)>>::empty(),
    {
        let b = Buckets { m: HashMap::new() };
        assert(b@ =~= Map::<u64, Seq<(u16, u16)>>::empty());
        b
    }

    fn get(&self, key: u64) -> (r: Option<&Vec<(u16, u16)>>)
        ensures
            match r {
                Some(v) => self@.contains_key(key) && self@[key] == v@,
                None => !self@.contains_key(key),
            },
    {
        self.m.get(&key)
    }

    fn set(&mut self, key: u64, v: Vec<(u16, u16)>)
        ensures
            final(self)@ == old(self)@.insert(key, v@),
    {
        self.m.insert(key, v);
        assert(self@ =~= old(self)@.insert(key, v@));
    }

    fn remember(&mut self, key: u64, v: (u16, u16))
        ensures
            final(self)@ == remember(old(self)@, key, v),
    {
        let mut b: Vec<(u16, u16)> = Vec::new();
        let ghost m = self@;
        let ghost all = bucket(m, key);
        let ghost kept = if all.len() >= MAX_BUCKET {
            all.skip(1)
        } else {
            all
        };
        if let Some(l) = self.get(key) {
            let start: usize = if l.len() >= MAX_BUCKET {
                1
            } else {
                0
            };
            let mut i: usize = start;
            while i < l.len()
                invariant
                    start <= i <= l@.len(),
                    b@ =~= l@.subrange(start as int, i as int),
                decreases l@.len() - i,
            {
                b.push(l[i]);
                i = i + 1;
            }
            assert(b@ =~= kept);
        }
        assert(b@ =~= kept);
        b.push(v);
        self.set(key, b);
    }

    /// Forgets what is too old for a key and returns the rest, the oldest first.
    fn expire(&mut self, key: u64, y: usize) -> (r: Vec<(u16, u16)>)
        ensures
            final(self)@ == expire(old(self)@, key, y as int),
            r@ == bucket(final(self)@, key),
    {
        let mut b: Vec<(u16, u16)> = Vec::new();
        let mut any: bool = false;
        if let Some(l) = self.get(key) {
            any = true;
            let mut i: usize = 0;
            assert(l@.take(0) =~= Seq::<(u16, u16)>::empty());
            while i < l.len()
                invariant
                    i <= l@.len(),
                    b@ == recent(l@.take(i as int), y as int),
                decreases l@.len() - i,
            {
                proof {
                    assert(l@.take(i + 1).drop_last() =~= l@.take(i as int));
                }
                let e: (u16, u16) = l[i];
                if y <= e.1 as usize || y - e.1 as usize <= SEG_DEPTH {
                    b.push(e);
                }
                i = i + 1;
            }
            assert(l@.take(i as int) =~= l@);
        }
        if any {
            let r: Vec<(u16, u16)> = copy_places(&b);
            self.set(key, b);
            return r;
        }
        b
    }
}

fn copy_places(b: &Vec<(u16, u16)>) -> (r: Vec<(u16, u16)>)
    ensures
        r@ == b@,
{
    let mut r: Vec<(u16, u16)> = Vec::new();
    let mut i: usize = 0;
    while i < b.len()
        invariant
            i <= b@.len(),
            r@ == b@.take(i as int),
        decreases b@.len() - i,
    {
        r.push(b[i]);
        i = i + 1;
        assert(r@ =~= b@.take(i as int));
    }
    assert(r@ =~= b@);
    r
}

fn mix_run_exec(pixels: &[i32], at: usize, n: usize, hash: u64) -> (r: u64)
    requires
        at + n <= pixels@.len(),
    ensures
        r == mix_run(pixels@, at as int, n as nat, hash),
{
    let total: usize = pixels.len();
    let mut r: u64 = hash;
    let mut i: usize = 0;
    while i < n
        invariant
            total == pixels@.len(),
            at + n <= pixels@.len(),
            i <= n,
            r == mix_run(pixels@, at as int, i as nat, hash),
        decreases n - i,
    {
        let v: i32 = pixels[at + i];
        r = (r ^ (v as u64).wrapping_mul(FNV_PRIME)).wrapping_mul(FNV_PRIME);
        i = i + 1;
    }
    r
}

fn probe_exec(k: usize, bw: usize, bh: usize) -> (p: (usize, usize))
    requires
        bw >= 1,
        bh >= 1,
    ensures
        p.0 == probe(k as int, bw as int, bh as int).0,
        p.1 == probe(k as int, bw as int, bh as int).1,
        p.0 < bw,
        p.1 < bh,
{
    if k == 0 {
        (0, 0)
    } else if k == 1 {
        (bw - 1, 0)
    } else if k == 2 {
        (0, bh - 1)
    } else if k == 3 {
        (bw - 1, bh - 1)
    } else if k == 4 {
        (bw / 2, 0)
    } else if k == 5 {
        (0, bh / 2)
    } else if k == 6 {
        (bw / 2, bh - 1)
    } else {
        (bw - 1, bh / 2)
    }
}

/// Samples of pixels in a row lie in the image.
proof fn lemma_at(s: Sheet, x: int, y: int, n: int)
    requires
        s.ok(),
        0 <= x,
        0 <= n,
        x + n <= s.w,
        0 <= y < s.h,
    ensures
        0 <= s.at(x, y),
        s.at(x, y) + n * s.c <= s.px.len(),
        0 <= y * (s.w * s.c) <= s.px.len(),
        0 <= x * s.c <= s.w * s.c,
{
    let ww = s.w * s.c;
    assert(0 <= x * s.c && 0 <= n * s.c && x * s.c + n * s.c <= ww) by (nonlinear_arith)
        requires
            ww == s.w * s.c,
            0 <= x,
            0 <= n,
            x + n <= s.w,
            s.c >= 1,
    ;
    assert(0 <= y * ww && y * ww + ww <= s.h * ww) by (nonlinear_arith)
        requires
            0 <= y < s.h,
            ww >= 0,
    ;
}

/// An image whose blocks are coded.
struct Source<'a> {
    pixels: &'a [i32],
    width: usize,
    height: usize,
    components: usize,
    grid: Grid,
}

impl<'a> Source<'a> {
    spec fn view(&self) -> Sheet {
        Sheet {
            px: self.pixels@,
            w: self.width as int,
            h: self.height as int,
            c: self.components as int,
        }
    }

    spec fn wf(&self) -> bool {
        self@.ok() && self.grid@ == self@.grid() && self.grid.ok() && self.grid.w == self.width
            * self.components && self.grid.h == self.height
    }

    /// Column, row, width and height of block `t`, in pixels.
    fn rect(&self, t: usize) -> (r: (usize, usize, usize, usize))
        requires
            self.wf(),
            t < self@.grid().count(),
        ensures
            r.0 == self@.left(t as int),
            r.1 == self@.top(t as int),
            r.2 == self@.bw(t as int),
            r.3 == self@.grid().th(t as int),
            r.0 < self.width,
            r.0 + r.2 <= self.width,
            r.1 + r.3 <= self.height,
            1 <= r.2 <= 8,
            1 <= r.3 <= 8,
    {
        let (_x0, y0, _tw, th) = self.grid.rect(t);
        proof {
            block_copy::lemma_column(
                self.width as int,
                self.height as int,
                self.components as int,
                t as int,
            );
            blocks::lemma_tile_dims(self.grid@, t as int);
        }
        let n: usize = self.grid.across();
        let bx: usize = (t % n) * BS;
        let bw: usize = if self.width - bx < BS {
            self.width - bx
        } else {
            BS
        };
        (bx, y0, bw, th)
    }

    fn at(&self, x: usize, y: usize) -> (p: usize)
        requires
            self.wf(),
            x <= self.width,
            y < self.height,
        ensures
            p == self@.at(x as int, y as int),
    {
        proof {
            lemma_at(self@, x as int, y as int, 0);
        }
        y * self.grid.w + x * self.components
    }

    fn block_key(&self, t: usize) -> (k: u64)
        requires
            self.wf(),
            t < self@.grid().count(),
        ensures
            k == key_of(self@, t as int),
    {
        let (bx, by, bw, bh) = self.rect(t);
        let mut hash: u64 = FNV_OFFSET;
        let mut k: usize = 0;
        while k < 8
            invariant
                self.wf(),
                bx == self@.left(t as int),
                by == self@.top(t as int),
                bw == self@.bw(t as int),
                bh == self@.grid().th(t as int),
                bx + bw <= self.width,
                by + bh <= self.height,
                bw >= 1,
                bh >= 1,
                k <= 8,
                hash == probes_key(self@, t as int, k as nat),
            decreases 8 - k,
        {
            let (dx, dy) = probe_exec(k, bw, bh);
            proof {
                lemma_at(self@, bx + dx, by + dy, 1);
            }
            let p: usize = self.at(bx + dx, by + dy);
            hash = mix_run_exec(self.pixels, p, self.components, hash);
            k = k + 1;
        }
        hash
    }

    fn seg_hash(&self, x: usize, y: usize) -> (k: u64)
        requires
            self.wf(),
            x <= self.width,
            y < self.height,
            self@.at(x as int, y as int) + 8 * self.components <= self.pixels@.len(),
        ensures
            k == seg_key(self@, x as int, y as int),
    {
        let p: usize = self.at(x, y);
        mix_run_exec(self.pixels, p, BS * self.components, FNV_OFFSET)
    }

    /// Whether block `t` may repeat what starts at `sx`, `sy`, and is the same.
    fn block_equal(&self, t: usize, sx: i64, sy: i64) -> (b: bool)
        requires
            self.wf(),
            t < self@.grid().count(),
            -0x2_0000 <= sx <= 0x2_0000,
            -0x2_0000 <= sy <= 0x2_0000,
        ensures
            b == suits(self@, t as int, (sx as int, sy as int)),
    {
        let (bx, by, _bw, _bh) = self.rect(t);
        if sx < 0 || sy < 0 || sx + 8 > self.width as i64 || sy + 8 > self.height as i64 {
            return false;
        }
        if !(sy + 8 <= by as i64 || (sx + 8 <= bx as i64 && sy <= by as i64)) {
            return false;
        }
        let ghost (w, h, c) = (self.width as int, self.height as int, self.components as int);
        let ghost sh = block_copy::shift(w, h, c, t as int, sx as int, sy as int);
        let (_x0, _y0, tw, th) = self.grid.rect(t);
        proof {
            blocks::lemma_tile_dims(self.grid@, t as int);
            block_copy::lemma_grid(w, h, c);
            assert(th * tw <= h * (w * c)) by (nonlinear_arith)
                requires
                    0 <= th <= h,
                    0 <= tw <= w * c,
            ;
        }
        let n: usize = th * tw;
        let mut j: usize = 0;
        while j < n
            invariant
                self.wf(),
                t < self@.grid().count(),
                (w, h, c) == (self.width as int, self.height as int, self.components as int),
                tw == self@.grid().tw(t as int),
                n == self@.grid().area(t as int),
                1 <= tw,
                0 <= sx,
                0 <= sy,
                sy <= 0x2_0000,
                block_copy::may_copy(w, h, c, t as int, sx as int, sy as int),
                sh == block_copy::shift(w, h, c, t as int, sx as int, sy as int),
                j <= n,
                forall|i: int|
                    0 <= i < j ==> self.pixels@[#[trigger] self@.grid().pos(t as int, i)]
                        == self.pixels@[self@.grid().pos(t as int, i) + sh],
            decreases n - j,
        {
            proof {
                block_copy::lemma_source(w, h, c, t as int, j as int, sx as int, sy as int);
                block_copy::lemma_grid(w, h, c);
                let y = sy + j as int / tw as int;
                blocks::lemma_pos(self.grid@, t as int, j as int);
                blocks::lemma_tile_dims(self.grid@, t as int);
                assert(0 <= y * (w * c) <= h * (w * c)) by (nonlinear_arith)
                    requires
                        0 <= y <= h,
                        w * c >= 0,
                ;
                assert(0 <= sx * c <= w * c) by (nonlinear_arith)
                    requires
                        0 <= sx <= w,
                        c >= 1,
                ;
            }
            let p: usize = self.grid.place(t, j);
            let q: usize = (sy as usize + j / tw) * self.grid.w + sx as usize * self.components + j
                % tw;
            if self.pixels[p] != self.pixels[q] {
                assert(!suits(self@, t as int, (sx as int, sy as int))) by {
                    assert(self@.px[self@.grid().pos(t as int, j as int)]
                        != self@.px[self@.grid().pos(t as int, j as int) + sh]);
                }
                return false;
            }
            j = j + 1;
        }
        true
    }

    fn is_uniform(&self, t: usize) -> (b: bool)
        requires
            self.wf(),
            t < self@.grid().count(),
        ensures
            b == uniform(self@, t as int),
    {
        let (_x0, _y0, tw, th) = self.grid.rect(t);
        let ghost (w, h, c) = (self.width as int, self.height as int, self.components as int);
        proof {
            blocks::lemma_tile_dims(self.grid@, t as int);
            block_copy::lemma_grid(w, h, c);
            assert(1 <= th * tw <= h * (w * c)) by (nonlinear_arith)
                requires
                    1 <= th <= h,
                    1 <= tw <= w * c,
            ;
        }
        let n: usize = th * tw;
        let p0: usize = self.grid.place(t, 0);
        let first: i32 = self.pixels[p0];
        let mut j: usize = 0;
        while j < n
            invariant
                self.wf(),
                t < self@.grid().count(),
                (w, h, c) == (self.width as int, self.height as int, self.components as int),
                n == self@.grid().area(t as int),
                first == self.pixels@[self@.grid().pos(t as int, 0)],
                j <= n,
                forall|i: int|
                    0 <= i < j ==> self.pixels@[#[trigger] self@.grid().pos(t as int, i)] == first,
            decreases n - j,
        {
            proof {
                block_copy::lemma_grid(w, h, c);
            }
            let p: usize = self.grid.place(t, j);
            if self.pixels[p] != first {
                assert(self@.px[self@.grid().pos(t as int, j as int)] != first);
                return false;
            }
            j = j + 1;
        }
        true
    }

    /// Where block `t` is found again.
    fn find_match(&self, t: usize, table: &Buckets, segs: &mut Buckets, Ghost(seen): Ghost<Seen>)
        -> (r: Option<(i64, i64)>)
        requires
            self.wf(),
            t < self@.grid().count(),
            table@ == seen.table,
            old(segs)@ == seen.segs,
        ensures
            final(segs)@ == segs_at(self@, seen, t as int),
            match r {
                Some((x, y)) => first_suiting(self@, t as int, sources(self@, seen, t as int))
                    == Some((x as int, y as int)) && 0 <= x < 0x2_0000 && 0 <= y < 0x2_0000,
                None => first_suiting(self@, t as int, sources(self@, seen, t as int)) is None,
            },
    {
        let (bx, by, _bw, _bh) = self.rect(t);
        let ghost s = self@;
        let ghost ps = sources(s, seen, t as int);
        let key: u64 = self.block_key(t);
        let mut cs: Vec<(i64, i64)> = Vec::new();
        let ghost near = newest_first(bucket(seen.table, key_of(s, t as int)));
        if let Some(l) = table.get(key) {
            push_newest_first(&mut cs, l);
            assert(wide(cs@) =~= near);
        } else {
            assert(wide(cs@) =~= near);
        }
        let (x, y) = (bx as i64, by as i64);
        cs.push((x - 8, y));
        cs.push((x, y - 8));
        cs.push((x - 8, y - 8));
        let ghost fixed = near + seq![
            (s.left(t as int) - 8, s.top(t as int)),
            (s.left(t as int), s.top(t as int) - 8),
            (s.left(t as int) - 8, s.top(t as int) - 8),
        ];
        assert(wide(cs@) =~= fixed);
        let total: usize = self.pixels.len();
        proof {
            lemma_at(s, bx as int, by as int, 0);
            block_copy::lemma_grid(s.w, s.h, s.c);
            assert((bx + 8) * s.c == bx * s.c + 8 * s.c) by (nonlinear_arith);
        }
        let first: usize = self.at(bx, by);
        if BS * self.components <= total - first {
            let sk: u64 = self.seg_hash(bx, by);
            let old_ones: Vec<(u16, u16)> = segs.expire(sk, by);
            push_newest_first(&mut cs, &old_ones);
        }
        assert(wide(cs@) =~= ps);
        let mut i: usize = 0;
        assert(ps.skip(0) =~= ps);
        while i < cs.len()
            invariant
                self.wf(),
                s == self@,
                t < s.grid().count(),
                i <= cs@.len(),
                ps == sources(s, seen, t as int),
                segs@ == segs_at(s, seen, t as int),
                wide(cs@) == ps,
                in_range(cs@),
                first_suiting(s, t as int, ps) == first_suiting(s, t as int, ps.skip(i as int)),
            decreases cs@.len() - i,
        {
            let p: (i64, i64) = cs[i];
            proof {
                assert(ps[i as int] == (p.0 as int, p.1 as int));
                assert(ps.skip(i as int).skip(1) =~= ps.skip(i + 1));
            }
            if self.block_equal(t, p.0, p.1) {
                return Some(p);
            }
            i = i + 1;
        }
        None
    }

    /// Remembers the stretches of row `y` from pixel `from` up to `limit`.
    fn note_segs(&self, segs: &mut Buckets, y: usize, from: usize, limit: usize) -> (upto: usize)
        requires
            self.wf(),
            y < self.height,
            from <= self.width + 8,
        ensures
            (final(segs)@, upto as int) == note_segs(
                self@,
                old(segs)@,
                y as int,
                from as int,
                limit as int,
            ),
            upto <= self.width + 8,
    {
        let mut upto: usize = from;
        let ghost goal = note_segs(self@, segs@, y as int, from as int, limit as int);
        while upto + BS <= self.width && upto <= limit
            invariant
                self.wf(),
                y < self.height,
                upto <= self.width + 8,
                goal == note_segs(self@, segs@, y as int, upto as int, limit as int),
            decreases self.width + 8 - upto,
        {
            proof {
                lemma_at(self@, upto as int, y as int, 8);
            }
            let k: u64 = self.seg_hash(upto, y);
            segs.remember(k, (upto as u16, y as u16));
            upto = upto + SEG_STEP;
        }
        upto
    }

    /// Appends the residuals of block `t`.
    fn push_residuals(&self, t: usize, mode: PredictionMode, out: &mut Vec<i32>)
        requires
            self.wf(),
            t < self@.grid().count(),
        ensures
            final(out)@ == old(out)@ + block_residuals(self@, mode, t as int),
    {
        let ghost all = block_residuals(self@, mode, t as int);
        let ghost before = out@;
        let (_x0, _y0, tw, th) = self.grid.rect(t);
        let ghost (w, h, c) = (self.width as int, self.height as int, self.components as int);
        proof {
            blocks::lemma_tile_dims(self.grid@, t as int);
            block_copy::lemma_grid(w, h, c);
            assert(1 <= th * tw <= h * (w * c)) by (nonlinear_arith)
                requires
                    1 <= th <= h,
                    1 <= tw <= w * c,
            ;
        }
        let n: usize = th * tw;
        let mut j: usize = 0;
        assert(out@ =~= before + all.take(0));
        while j < n
            invariant
                self.wf(),
                t < self@.grid().count(),
                (w, h, c) == (self.width as int, self.height as int, self.components as int),
                n == self@.grid().area(t as int),
                all == block_residuals(self@, mode, t as int),
                j <= n,
                out@ == before + all.take(j as int),
            decreases n - j,
        {
            proof {
                block_copy::lemma_grid(w, h, c);
            }
            let p: usize = self.grid.place(t, j);
            proof {
                block_copy::lemma_pixel_column(w, h, c, p as int);
            }
            let x: usize = (p % self.grid.w) / self.components;
            let g: i32 = predict_at(self.pixels, p, x, self.components, self.width, mode);
            let v: i32 = self.pixels[p].wrapping_sub(g);
            out.push(v);
            j = j + 1;
            assert(out@ =~= before + all.take(j as int));
        }
        assert(out@ =~= before + all);
    }

    fn pick_pred_mode(&self) -> (m: PredictionMode)
        requires
            self.wf(),
        ensures
            m == mode_of(self@),
    {
        let ghost s = self@;
        let mut b: usize = 0;
        let mut best: u64 = sad_for_mode_sampled(
            self.pixels,
            self.width,
            self.height,
            self.components,
            PredictionMode::Horizontal,
        );
        let mut i: usize = 1;
        assert(best_block_mode(s, 1) == 0);
        while i < 6
            invariant
                self.wf(),
                s == self@,
                1 <= i <= 6,
                b < i,
                b == best_block_mode(s, i as nat),
                best == cost::sampled_sad(s.px, s.w, s.c, block_mode(b as int), s.h as nat),
            decreases 6 - i,
        {
            let v: u64 = sad_for_mode_sampled(
                self.pixels,
                self.width,
                self.height,
                self.components,
                block_mode_exec(i),
            );
            if v < best {
                best = v;
                b = i;
            }
            i = i + 1;
        }
        block_mode_exec(b)
    }
}

spec fn wide(cs: Seq<(i64, i64)>) -> Seq<(int, int)> {
    Seq::new(cs.len(), |i: int| (cs[i].0 as int, cs[i].1 as int))
}

spec fn in_range(cs: Seq<(i64, i64)>) -> bool {
    forall|i: int|
        0 <= i < cs.len() ==> -8 <= (#[trigger] cs[i]).0 <= 0xffff && -8 <= cs[i].1 <= 0xffff
}

fn push_newest_first(cs: &mut Vec<(i64, i64)>, l: &Vec<(u16, u16)>)
    requires
        in_range(old(cs)@),
    ensures
        wide(final(cs)@) == wide(old(cs)@) + newest_first(l@),
        in_range(final(cs)@),
{
    let ghost before = wide(cs@);
    let ghost all = newest_first(l@);
    let n: usize = l.len();
    let mut i: usize = 0;
    assert(wide(cs@) =~= before + all.take(0));
    while i < n
        invariant
            n == l@.len(),
            i <= n,
            all == newest_first(l@),
            in_range(cs@),
            wide(cs@) == before + all.take(i as int),
        decreases n - i,
    {
        let e: (u16, u16) = l[n - 1 - i];
        let ghost w0 = wide(cs@);
        cs.push((e.0 as i64, e.1 as i64));
        assert(wide(cs@) =~= w0.push((e.0 as int, e.1 as int)));
        i = i + 1;
        assert(wide(cs@) =~= before + all.take(i as int));
    }
    assert(wide(cs@) =~= before + all);
}

fn block_mode_exec(i: usize) -> (m: PredictionMode)
    ensures
        m == block_mode(i as int),
{
    if i == 0 {
        PredictionMode::Horizontal
    } else if i == 1 {
        PredictionMode::Vertical
    } else if i == 2 {
        PredictionMode::Average
    } else if i == 3 {
        PredictionMode::Med
    } else if i == 4 {
        PredictionMode::Paeth
    } else {
        PredictionMode::Diagonal
    }
}

/// What suits is one of the places that are tried.
pub proof fn lemma_first_suiting(s: Sheet, t: int, ps: Seq<(int, int)>)
    ensures
        first_suiting(s, t, ps) is Some ==> suits(s, t, first_suiting(s, t, ps)->Some_0),
    decreases ps.len(),
{
    if ps.len() > 0 && !suits(s, t, ps[0]) {
        lemma_first_suiting(s, t, ps.skip(1));
    }
}

/// Samples of the first `n` blocks.
pub open spec fn area_upto(g: Tiling, n: nat) -> int
    decreases n,
{
    if n == 0 {
        0
    } else {
        area_upto(g, (n - 1) as nat) + g.area(n - 1)
    }
}

proof fn lemma_area_places(g: Tiling, n: nat) -> (s: Set<int>)
    requires
        g.ok(),
        n <= g.count(),
    ensures
        s.finite(),
        s.len() == area_upto(g, n),
        forall|i: int| #[trigger] s.contains(i) ==> 0 <= i < g.w * g.h && g.tile_of(i) < n,
    decreases n,
{
    if n == 0 {
        Set::<int>::empty()
    } else {
        let s0 = lemma_area_places(g, (n - 1) as nat);
        blocks::lemma_tile_dims(g, n - 1);
        lemma_places_in(g, n - 1, s0, g.area(n - 1) as nat)
    }
}

proof fn lemma_places_in(g: Tiling, t: int, s0: Set<int>, m: nat) -> (s: Set<int>)
    requires
        g.ok(),
        0 <= t < g.count(),
        m <= g.area(t),
        s0.finite(),
        forall|i: int| #[trigger] s0.contains(i) ==> 0 <= i < g.w * g.h && g.tile_of(i) < t,
    ensures
        s.finite(),
        s.len() == s0.len() + m,
        forall|i: int| #[trigger]
            s.contains(i) ==> 0 <= i < g.w * g.h && (g.tile_of(i) < t || (g.tile_of(i) == t
                && g.within(i) < m)),
    decreases m,
{
    if m == 0 {
        s0
    } else {
        let s = lemma_places_in(g, t, s0, (m - 1) as nat);
        blocks::lemma_pos(g, t, m - 1);
        s.insert(g.pos(t, m - 1))
    }
}

/// The blocks have no more samples than the image.
pub proof fn lemma_area_upto(g: Tiling, n: nat)
    requires
        g.ok(),
        n <= g.count(),
    ensures
        0 <= area_upto(g, n) <= g.w * g.h,
{
    let s = lemma_area_places(g, n);
    let all = vstd::set_lib::set_int_range(0, g.w * g.h);
    blocks::lemma_count(g);
    vstd::set_lib::lemma_int_range(0, g.w * g.h);
    vstd::set_lib::lemma_len_subset(s, all);
}

/// How long the three streams are.
pub proof fn lemma_trace_len(s: Sheet, mode: PredictionMode, n: nat)
    requires
        s.ok(),
        n <= s.grid().count(),
    ensures
        trace(s, mode, n).decisions.len() == n,
        trace(s, mode, n).vectors.len() <= 2 * n,
        trace(s, mode, n).residuals.len() <= area_upto(s.grid(), n),
        trace(s, mode, n).residuals.len() <= s.px.len(),
        forall|i: int|
            0 <= i < trace(s, mode, n).vectors.len() ==> -0x1_0000 <= #[trigger] trace(
                s,
                mode,
                n,
            ).vectors[i] <= 0x1_0000,
        0 <= trace(s, mode, n).seen.upto <= s.w + 8,
    decreases n,
{
    block_copy::lemma_grid(s.w, s.h, s.c);
    lemma_area_upto(s.grid(), n);
    if n > 0 {
        let t = n - 1;
        lemma_trace_len(s, mode, t as nat);
        let p = trace(s, mode, t as nat);
        lemma_first_suiting(s, t, sources(s, p.seen, t));
        block_copy::lemma_column(s.w, s.h, s.c, t);
        blocks::lemma_tile_dims(s.grid(), t);
        lemma_note_segs(
            s,
            if uniform(s, t) {
                p.seen.segs
            } else {
                segs_at(s, p.seen, t)
            },
            s.top(t),
            p.seen.upto,
            if s.left(t) < 8 {
                0
            } else {
                s.left(t) - 8
            },
        );
    }
}

proof fn lemma_note_segs(
    s: Sheet,
    m: Map<u64, Seq<(u16, u16)>>,
    y: int,
    from: int,
    limit: int,
)
    requires
        0 <= from <= s.w + 8,
        s.w >= 0,
    ensures
        0 <= note_segs(s, m, y, from, limit).1 <= s.w + 8,
    decreases s.w - from,
{
    if from + 8 <= s.w && from <= limit {
        lemma_note_segs(
            s,
            remember(m, seg_key(s, from, y), (from as u16, y as u16)),
            y,
            from + SEG_STEP,
            limit,
        );
    }
}

/// The three streams of an image.
struct Streams {
    decisions: Vec<i32>,
    vectors: Vec<i32>,
    residuals: Vec<i32>,
}

/// Goes through the blocks of an image.
fn walk(src: &Source, mode: PredictionMode) -> (r: Streams)
    requires
        src.wf(),
    ensures
        r.decisions@ == trace(src@, mode, src@.grid().count() as nat).decisions,
        r.vectors@ == trace(src@, mode, src@.grid().count() as nat).vectors,
        r.residuals@ == trace(src@, mode, src@.grid().count() as nat).residuals,
{
    let ghost s = src@;
    let width: usize = src.width;
    proof {
        block_copy::lemma_grid(s.w, s.h, s.c);
    }
    let n: usize = src.grid.count();
    let mut decisions: Vec<i32> = Vec::new();
    let mut vectors: Vec<i32> = Vec::new();
    let mut residuals: Vec<i32> = Vec::new();
    let mut table: Buckets = Buckets::new();
    let mut segs: Buckets = Buckets::new();
    let mut upto: usize = 0;
    let mut t: usize = 0;
    while t < n
        invariant
            src.wf(),
            s == src@,
            width == src.width,
            n == s.grid().count(),
            t <= n,
            decisions@ == trace(s, mode, t as nat).decisions,
            vectors@ == trace(s, mode, t as nat).vectors,
            residuals@ == trace(s, mode, t as nat).residuals,
            table@ == trace(s, mode, t as nat).seen.table,
            segs@ == trace(s, mode, t as nat).seen.segs,
            upto == trace(s, mode, t as nat).seen.upto,
            upto <= width + 8,
        decreases n - t,
    {
        let ghost p = trace(s, mode, t as nat);
        let (bx, by, _bw, _bh) = src.rect(t);
        let hit: Option<(i64, i64)> = if src.is_uniform(t) {
            None
        } else {
            src.find_match(t, &table, &mut segs, Ghost(p.seen))
        };
        match hit {
            Some((sx, sy)) => {
                decisions.push(1);
                vectors.push((sx - bx as i64) as i32);
                vectors.push((sy - by as i64) as i32);
            },
            None => {
                decisions.push(0);
                src.push_residuals(t, mode, &mut residuals);
            },
        }
        let limit: usize = if bx < BS {
            0
        } else {
            bx - BS
        };
        let next: usize = src.note_segs(&mut segs, by, upto, limit);
        upto = next;
        let key: u64 = src.block_key(t);
        table.remember(key, (bx as u16, by as u16));
        if bx + BS >= width {
            let _end: usize = src.note_segs(&mut segs, by, upto, width);
            upto = 0;
        }
        t = t + 1;
    }
    Streams { decisions, vectors, residuals }
}

/// Writes the three streams of an image of `n` blocks.
fn write_streams(st: &Streams, n: usize, mode: PredictionMode, Ghost(tr): Ghost<Trace>) -> (out: Vec<
    u8,
>)
    requires
        st.decisions@ == tr.decisions,
        st.vectors@ == tr.vectors,
        st.residuals@ == tr.residuals,
        tr.decisions.len() < u32::MAX,
        tr.residuals.len() < u32::MAX,
        forall|i: int| 0 <= i < tr.vectors.len() ==> #[trigger] tr.vectors[i] > i32::MIN,
    ensures
        out@ == trace_bytes(tr, n as nat, mode),
{
    let mut de = RleGolombEncoder::adaptive(&st.decisions);
    let k_dec: u8 = de.k();
    de.encode_signed_array(&st.decisions);
    assert(de@ =~= rle_golomb::rle_code(tr.decisions, k_dec as nat));
    let dec: Vec<u8> = de.finish();
    let mut ve = ExpGolombEncoder::new();
    ve.encode_signed_array(&st.vectors);
    assert(ve@ =~= codes::exp_bits(codes::zigzags(tr.vectors)));
    let vec: Vec<u8> = ve.finish();
    let mut re = RleGolombEncoder::adaptive(&st.residuals);
    let k_res: u8 = re.k();
    re.encode_signed_array(&st.residuals);
    assert(re@ =~= rle_golomb::rle_code(tr.residuals, k_res as nat));
    let res: Vec<u8> = re.finish();
    let mut out: Vec<u8> = Vec::new();
    put_le32(&mut out, n as u32);
    out.push(mode.to_u8());
    out.push(k_dec);
    out.push(k_res);
    let ghost head = out@;
    assert(head =~= le::le32(n as u32) + seq![
        mode.code(),
        k_of(tr.decisions) as u8,
        k_of(tr.residuals) as u8,
    ]);
    put_part(&mut out, &dec);
    put_part(&mut out, &vec);
    put_part(&mut out, &res);
    proof {
        framing::lemma_framed3(dec@, vec@, res@);
        assert(out@ =~= head + framing::framed(seq![dec@, vec@, res@]));
    }
    out
}

/// Codes an image block by block.
pub fn encode_intrabc_payload(
    pixels: &[i32],
    width: usize,
    height: usize,
    components: usize,
) -> (r: CrfResult<Vec<u8>>)
    requires
        block_copy::size_ok(width as int, height as int, components as int),
        pixels@.len() == height * (width * components),
    ensures
        r is Ok,
        r->Ok_0@ == intrabc_payload(
            (Sheet { px: pixels@, w: width as int, h: height as int, c: components as int }),
        ),
{
    let grid: Grid = block_grid(width, height, components);
    let src = Source { pixels, width, height, components, grid };
    let ghost s = src@;
    proof {
        block_copy::lemma_grid(s.w, s.h, s.c);
    }
    let mode: PredictionMode = src.pick_pred_mode();
    let n: usize = grid.count();
    let st: Streams = walk(&src, mode);
    let ghost tr = trace(s, mode, n as nat);
    proof {
        lemma_trace_len(s, mode, n as nat);
    }
    Ok(write_streams(&st, n, mode, Ghost(tr)))
}

/// A block of one colour is not looked for; any other is a copy if one of the places that are looked at
/// holds it, in particular the block to its left, above it or above that to its left.
pub proof fn law_found(s: Sheet, seen: Seen, t: int)
    ensures
        uniform(s, t) ==> found(s, seen, t) is None,
        found(s, seen, t) is Some ==> suits(s, t, found(s, seen, t)->0),
        !uniform(s, t) && (suits(s, t, (s.left(t) - 8, s.top(t))) || suits(
            s,
            t,
            (s.left(t), s.top(t) - 8),
        ) || suits(s, t, (s.left(t) - 8, s.top(t) - 8))) ==> found(s, seen, t) is Some,
{
    let ps = sources(s, seen, t);
    lemma_first_suiting(s, t, ps);
    let n = bucket(seen.table, key_of(s, t)).len() as int;
    assert(ps[n] == (s.left(t) - 8, s.top(t)));
    assert(ps[n + 1] == (s.left(t), s.top(t) - 8));
    assert(ps[n + 2] == (s.left(t) - 8, s.top(t) - 8));
    lemma_none_suits(s, t, ps, n);
    lemma_none_suits(s, t, ps, n + 1);
    lemma_none_suits(s, t, ps, n + 2);
}

proof fn lemma_none_suits(s: Sheet, t: int, ps: Seq<(int, int)>, i: int)
    requires
        0 <= i < ps.len(),
    ensures
        suits(s, t, ps[i]) ==> first_suiting(s, t, ps) is Some,
    decreases ps.len(),
{
    if i > 0 && !suits(s, t, ps[0]) {
        assert(ps.skip(1)[i - 1] == ps[i]);
        lemma_none_suits(s, t, ps.skip(1), i - 1);
    }
}

/// The prediction of blocks that are no copies is the one of six with the least residuals in every
/// fourth row.
pub proof fn law_mode_of(s: Sheet, i: int)
    requires
        0 <= i < 6,
    ensures
        cost::sampled_sad(s.px, s.w, s.c, mode_of(s), s.h as nat) <= cost::sampled_sad(
            s.px,
            s.w,
            s.c,
            block_mode(i),
            s.h as nat,
        ),
        block_copy::blockwise(mode_of(s)),
        mode_of(s) != PredictionMode::Off,
{
    reveal_with_fuel(best_block_mode, 7);
}

} // verus!

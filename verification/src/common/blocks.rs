//! Planes cut into tiles, in raster order of the tiles; those at the right and lower edge are
//! clipped.

use vstd::prelude::*;
use vstd::arithmetic::div_mod::*;
use vstd::arithmetic::mul::*;

verus! {

/// Tiles that it takes to cover `n` samples, `b` at a time.
pub open spec fn tiles_along(n: int, b: int) -> int {
    (n + b - 1) / b
}

/// Length of the tile that starts at sample `at` of `n`, when a whole tile has `b`.
pub open spec fn clip(n: int, at: int, b: int) -> int {
    if n - at < b {
        n - at
    } else {
        b
    }
}

/// The sizes of a plane and of its tiles.
pub struct Tiling {
    pub w: int,
    pub h: int,
    pub bw: int,
    pub bh: int,
}

impl Tiling {
    pub open spec fn ok(self) -> bool {
        self.w >= 0 && self.h >= 0 && self.bw >= 1 && self.bh >= 1
    }

    pub open spec fn across(self) -> int {
        tiles_along(self.w, self.bw)
    }

    pub open spec fn down(self) -> int {
        tiles_along(self.h, self.bh)
    }

    pub open spec fn count(self) -> int {
        self.down() * self.across()
    }

    /// First column of tile `t`.
    pub open spec fn x0(self, t: int) -> int {
        (t % self.across()) * self.bw
    }

    /// First row of tile `t`.
    pub open spec fn y0(self, t: int) -> int {
        (t / self.across()) * self.bh
    }

    /// Width of tile `t`.
    pub open spec fn tw(self, t: int) -> int {
        clip(self.w, self.x0(t), self.bw)
    }

    /// Height of tile `t`.
    pub open spec fn th(self, t: int) -> int {
        clip(self.h, self.y0(t), self.bh)
    }

    /// Samples in tile `t`.
    pub open spec fn area(self, t: int) -> int {
        self.th(t) * self.tw(t)
    }

    /// Whether tile `t` is whole.
    pub open spec fn whole(self, t: int) -> bool {
        self.tw(t) == self.bw && self.th(t) == self.bh
    }

    /// The place in the plane of sample `j` of tile `t`.
    pub open spec fn pos(self, t: int, j: int) -> int {
        (self.y0(t) + j / self.tw(t)) * self.w + self.x0(t) + j % self.tw(t)
    }

    /// The tile that sample `i` of the plane lies in.
    pub open spec fn tile_of(self, i: int) -> int {
        (i / self.w / self.bh) * self.across() + (i % self.w) / self.bw
    }

    /// The place of sample `i` of the plane within its tile.
    pub open spec fn within(self, i: int) -> int {
        ((i / self.w) % self.bh) * self.tw(self.tile_of(i)) + (i % self.w) % self.bw
    }
}

/// Tile `t` of a plane.
pub open spec fn tile(px: Seq<i32>, g: Tiling, t: int) -> Seq<i32> {
    Seq::new(g.area(t) as nat, |j: int| px[g.pos(t, j)])
}

/// All tiles of a plane.
pub open spec fn tiles(px: Seq<i32>, g: Tiling) -> Seq<Seq<i32>> {
    Seq::new(g.count() as nat, |t: int| tile(px, g, t))
}

/// The plane that is made up of the tiles `ts`.
pub open spec fn untile(ts: Seq<Seq<i32>>, g: Tiling) -> Seq<i32> {
    Seq::new((g.w * g.h) as nat, |i: int| ts[g.tile_of(i)][g.within(i)])
}

/// What each of the vectors holds.
pub open spec fn views(vs: Seq<Vec<i32>>) -> Seq<Seq<i32>> {
    Seq::new(vs.len(), |i: int| vs[i]@)
}

/// Every tile has as many samples as its place asks for.
pub open spec fn tiles_fit(ts: Seq<Seq<i32>>, g: Tiling) -> bool {
    ts.len() == g.count() && forall|t: int|
        0 <= t < ts.len() ==> (#[trigger] ts[t]).len() == g.area(t)
}

pub proof fn lemma_tiles_along(n: int, b: int, q: int)
    requires
        n >= 0,
        b >= 1,
        q >= 0,
    ensures
        q < tiles_along(n, b) <==> q * b < n,
        0 <= tiles_along(n, b) <= n,
{
    let m = tiles_along(n, b);
    lemma_fundamental_div_mod(n + b - 1, b);
    let r = (n + b - 1) % b;
    assert(0 <= r < b);
    assert(q < m ==> q * b < n) by (nonlinear_arith)
        requires
            n + b - 1 == b * m + r,
            0 <= r < b,
            b >= 1,
    ;
    assert(q * b < n ==> q < m) by (nonlinear_arith)
        requires
            n + b - 1 == b * m + r,
            0 <= r < b,
            b >= 1,
    ;
    assert(0 <= m <= n) by (nonlinear_arith)
        requires
            n + b - 1 == b * m + r,
            0 <= r < b,
            b >= 1,
            n >= 0,
    ;
}

/// Dimensions and position of a tile.
pub proof fn lemma_tile_dims(g: Tiling, t: int)
    requires
        g.ok(),
        0 <= t < g.count(),
    ensures
        0 <= t / g.across() < g.down(),
        0 <= t % g.across() < g.across(),
        0 <= g.x0(t) < g.w,
        0 <= g.y0(t) < g.h,
        1 <= g.tw(t) <= g.bw,
        1 <= g.th(t) <= g.bh,
        g.x0(t) + g.tw(t) <= g.w,
        g.y0(t) + g.th(t) <= g.h,
        g.area(t) >= 1,
{
    let n = g.across();
    lemma_tiles_along(g.w, g.bw, 0);
    lemma_tiles_along(g.h, g.bh, 0);
    assert(n >= 1) by (nonlinear_arith)
        requires
            n >= 0,
            g.down() >= 0,
            0 < g.down() * n,
    ;
    lemma_fundamental_div_mod(t, n);
    let ty = t / n;
    let tx = t % n;
    lemma_div_pos_is_pos(t, n);
    assert(ty < g.down()) by (nonlinear_arith)
        requires
            t == n * ty + tx,
            0 <= tx,
            t < g.down() * n,
            n >= 1,
    ;
    lemma_tiles_along(g.w, g.bw, tx);
    lemma_tiles_along(g.h, g.bh, ty);
    assert(tx * g.bw >= 0 && ty * g.bh >= 0) by (nonlinear_arith)
        requires
            tx >= 0,
            ty >= 0,
            g.bw >= 1,
            g.bh >= 1,
    ;
    assert(g.th(t) * g.tw(t) >= 1) by (nonlinear_arith)
        requires
            g.th(t) >= 1,
            g.tw(t) >= 1,
    ;
}

/// A sample of a tile lies in that tile.
pub proof fn lemma_pos(g: Tiling, t: int, j: int)
    requires
        g.ok(),
        0 <= t < g.count(),
        0 <= j < g.area(t),
    ensures
        0 <= g.pos(t, j) < g.w * g.h,
        g.tile_of(g.pos(t, j)) == t,
        g.within(g.pos(t, j)) == j,
        0 <= j / g.tw(t) < g.th(t),
        0 <= j % g.tw(t) < g.tw(t),
{
    lemma_tile_dims(g, t);
    let n = g.across();
    let ty = t / n;
    let tx = t % n;
    let tw = g.tw(t);
    let jr = j / tw;
    let jc = j % tw;
    lemma_fundamental_div_mod(t, n);
    lemma_fundamental_div_mod(j, tw);
    lemma_div_pos_is_pos(j, tw);
    assert(jr < g.th(t)) by (nonlinear_arith)
        requires
            j == tw * jr + jc,
            0 <= jc,
            j < g.th(t) * tw,
            tw >= 1,
    ;
    let y = g.y0(t) + jr;
    let x = g.x0(t) + jc;
    let i = g.pos(t, j);
    assert(i == y * g.w + x);
    assert(0 <= i < g.w * g.h) by (nonlinear_arith)
        requires
            i == y * g.w + x,
            0 <= y < g.h,
            0 <= x < g.w,
    ;
    lemma_fundamental_div_mod_converse(i, g.w, y, x);
    lemma_fundamental_div_mod_converse(y, g.bh, ty, jr);
    lemma_fundamental_div_mod_converse(x, g.bw, tx, jc);
    assert(ty * n + tx == t) by (nonlinear_arith)
        requires
            t == n * ty + tx,
    ;
    assert(jr * tw + jc == j) by (nonlinear_arith)
        requires
            j == tw * jr + jc,
    ;
}

/// Every sample of the plane is one of its tile.
pub proof fn lemma_place(g: Tiling, i: int)
    requires
        g.ok(),
        0 <= i < g.w * g.h,
    ensures
        0 <= g.tile_of(i) < g.count(),
        0 <= g.within(i) < g.area(g.tile_of(i)),
        g.pos(g.tile_of(i), g.within(i)) == i,
        0 <= i / g.w < g.h,
        0 <= i % g.w < g.w,
        g.y0(g.tile_of(i)) + (i / g.w) % g.bh == i / g.w,
        g.x0(g.tile_of(i)) + (i % g.w) % g.bw == i % g.w,
        (i / g.w) * g.w + i % g.w == i,
{
    assert(g.w >= 1) by (nonlinear_arith)
        requires
            0 < g.w * g.h,
            g.w >= 0,
            g.h >= 0,
    ;
    let n = g.across();
    let y = i / g.w;
    let x = i % g.w;
    lemma_fundamental_div_mod(i, g.w);
    lemma_div_pos_is_pos(i, g.w);
    assert(y < g.h) by (nonlinear_arith)
        requires
            i == g.w * y + x,
            0 <= x,
            i < g.w * g.h,
            g.w >= 1,
    ;
    let ty = y / g.bh;
    let tx = x / g.bw;
    let jr = y % g.bh;
    let jc = x % g.bw;
    lemma_fundamental_div_mod(y, g.bh);
    lemma_fundamental_div_mod(x, g.bw);
    lemma_div_pos_is_pos(y, g.bh);
    lemma_div_pos_is_pos(x, g.bw);
    assert(ty * g.bh == g.bh * ty && tx * g.bw == g.bw * tx) by (nonlinear_arith);
    lemma_tiles_along(g.w, g.bw, tx);
    lemma_tiles_along(g.h, g.bh, ty);
    let t = g.tile_of(i);
    assert(0 <= t < g.count()) by (nonlinear_arith)
        requires
            t == ty * n + tx,
            0 <= ty < g.down(),
            0 <= tx < n,
            g.count() == g.down() * n,
    ;
    lemma_fundamental_div_mod_converse(t, n, ty, tx);
    assert(g.x0(t) == tx * g.bw);
    assert(g.y0(t) == ty * g.bh);
    let tw = g.tw(t);
    let j = g.within(i);
    assert(jc < tw);
    assert(jr < g.th(t));
    assert(0 <= j < g.th(t) * tw) by (nonlinear_arith)
        requires
            j == jr * tw + jc,
            0 <= jr < g.th(t),
            0 <= jc < tw,
    ;
    lemma_fundamental_div_mod_converse(j, tw, jr, jc);
    assert(y * g.w + x == i) by (nonlinear_arith)
        requires
            i == g.w * y + x,
    ;
}

/// Putting the tiles of a plane together gives the plane.
pub proof fn lemma_untile_tiles(px: Seq<i32>, g: Tiling)
    requires
        g.ok(),
        px.len() == g.w * g.h,
    ensures
        untile(tiles(px, g), g) == px,
        tiles_fit(tiles(px, g), g),
{
    assert forall|i: int| 0 <= i < px.len() implies untile(tiles(px, g), g)[i] == px[i] by {
        lemma_place(g, i);
    }
    assert(untile(tiles(px, g), g) =~= px);
    assert forall|t: int| 0 <= t < tiles(px, g).len() implies (#[trigger] tiles(px, g)[t]).len()
        == g.area(t) by {
        lemma_tile_dims(g, t);
    }
    lemma_count(g);
}

/// Cutting a plane that was put together from tiles gives the tiles.
pub proof fn lemma_tiles_untile(ts: Seq<Seq<i32>>, g: Tiling)
    requires
        g.ok(),
        tiles_fit(ts, g),
    ensures
        tiles(untile(ts, g), g) == ts,
{
    let px = untile(ts, g);
    lemma_count(g);
    assert forall|t: int| 0 <= t < ts.len() implies tiles(px, g)[t] == ts[t] by {
        lemma_tile_dims(g, t);
        assert forall|j: int| 0 <= j < g.area(t) implies px[g.pos(t, j)] == ts[t][j] by {
            lemma_pos(g, t, j);
        }
        assert(tile(px, g, t) =~= ts[t]);
    }
    assert(tiles(px, g) =~= ts);
}

pub proof fn lemma_count(g: Tiling)
    requires
        g.ok(),
    ensures
        0 <= g.count() <= g.w * g.h,
        0 <= g.across() <= g.w,
        0 <= g.down() <= g.h,
        0 <= g.w * g.h,
{
    lemma_tiles_along(g.w, g.bw, 0);
    lemma_tiles_along(g.h, g.bh, 0);
    assert(0 <= g.down() * g.across() <= g.w * g.h) by (nonlinear_arith)
        requires
            0 <= g.across() <= g.w,
            0 <= g.down() <= g.h,
    ;
}

/// A sample that lies no further right and no further down than another, and is not that one, comes
/// before it in the order of tiles and of samples within a tile.
pub proof fn lemma_earlier(g: Tiling, i: int, k: int)
    requires
        g.ok(),
        0 <= i < g.w * g.h,
        0 <= k < g.w * g.h,
        i != k,
        i / g.w <= k / g.w,
        i % g.w <= k % g.w,
    ensures
        g.tile_of(i) < g.tile_of(k) || (g.tile_of(i) == g.tile_of(k) && g.within(i) < g.within(k)),
{
    lemma_place(g, i);
    lemma_place(g, k);
    let n = g.across();
    let (y, x) = (i / g.w, i % g.w);
    let (v, u) = (k / g.w, k % g.w);
    let (ty, tx) = (y / g.bh, x / g.bw);
    let (tv, tu) = (v / g.bh, u / g.bw);
    lemma_div_is_ordered(y, v, g.bh);
    lemma_div_is_ordered(x, u, g.bw);
    lemma_fundamental_div_mod(x, g.bw);
    lemma_fundamental_div_mod(u, g.bw);
    lemma_fundamental_div_mod(y, g.bh);
    lemma_fundamental_div_mod(v, g.bh);
    lemma_div_pos_is_pos(x, g.bw);
    assert(tx * g.bw == g.bw * tx && tu * g.bw == g.bw * tu) by (nonlinear_arith);
    lemma_div_pos_is_pos(u, g.bw);
    lemma_tiles_along(g.w, g.bw, tx);
    lemma_tiles_along(g.w, g.bw, tu);
    if ty < tv {
        assert(ty * n + tx < tv * n + tu) by (nonlinear_arith)
            requires
                ty + 1 <= tv,
                0 <= tx < n,
                0 <= tu,
        ;
    } else {
        assert(ty == tv);
        if tx == tu {
            let tw = g.tw(g.tile_of(i));
            lemma_tile_dims(g, g.tile_of(i));
            let (jr, jc) = (y % g.bh, x % g.bw);
            let (kr, kc) = (v % g.bh, u % g.bw);
            assert(jr <= kr && jc <= kc);
            assert(jr < kr || jc < kc) by {
                if jr == kr && jc == kc {
                    assert(y == v && x == u);
                }
            }
            assert(jr * tw + jc < kr * tw + kc) by (nonlinear_arith)
                requires
                    0 <= jr <= kr,
                    0 <= jc <= kc,
                    jr < kr || jc < kc,
                    tw >= 1,
            ;
        }
    }
}

/// `n / b`, rounded up.
pub fn div_up(n: usize, b: usize) -> (q: usize)
    requires
        b >= 1,
    ensures
        q == tiles_along(n as int, b as int),
{
    proof {
        lemma_fundamental_div_mod(n as int, b as int);
        let q0 = n as int / b as int;
        let r0 = n as int % b as int;
        let m = b as int;
        if r0 == 0 {
            assert(n + m - 1 == q0 * m + (m - 1)) by (nonlinear_arith)
                requires
                    n == m * q0,
            ;
            lemma_fundamental_div_mod_converse(n + m - 1, m, q0, m - 1);
        } else {
            assert(n + m - 1 == (q0 + 1) * m + (r0 - 1)) by (nonlinear_arith)
                requires
                    n == m * q0 + r0,
            ;
            lemma_fundamental_div_mod_converse(n + m - 1, m, q0 + 1, r0 - 1);
            lemma_tiles_along(n as int, m, 0);
        }
    }
    let q: usize = n / b;
    if n % b == 0 {
        q
    } else {
        q + 1
    }
}

/// The sizes of a plane and of its tiles.
#[derive(Clone, Copy)]
pub struct Grid {
    pub w: usize,
    pub h: usize,
    pub bw: usize,
    pub bh: usize,
}

impl Grid {
    pub open spec fn view(&self) -> Tiling {
        Tiling { w: self.w as int, h: self.h as int, bw: self.bw as int, bh: self.bh as int }
    }

    /// The tiles are not empty, and the samples can be counted.
    pub open spec fn ok(&self) -> bool {
        self.bw >= 1 && self.bh >= 1 && self.w * self.h <= usize::MAX
    }

    /// Number of tiles across.
    pub fn across(&self) -> (n: usize)
        requires
            self.ok(),
        ensures
            n == self@.across(),
    {
        div_up(self.w, self.bw)
    }

    /// Number of tiles.
    pub fn count(&self) -> (n: usize)
        requires
            self.ok(),
        ensures
            n == self@.count(),
    {
        proof {
            lemma_count(self@);
        }
        div_up(self.h, self.bh) * div_up(self.w, self.bw)
    }

    /// Column, row, width and height of tile `t`.
    pub fn rect(&self, t: usize) -> (r: (usize, usize, usize, usize))
        requires
            self.ok(),
            t < self@.count(),
        ensures
            r.0 == self@.x0(t as int),
            r.1 == self@.y0(t as int),
            r.2 == self@.tw(t as int),
            r.3 == self@.th(t as int),
    {
        proof {
            lemma_tile_dims(self@, t as int);
        }
        let n: usize = self.across();
        let x0: usize = (t % n) * self.bw;
        let y0: usize = (t / n) * self.bh;
        let tw: usize = if self.w - x0 < self.bw {
            self.w - x0
        } else {
            self.bw
        };
        let th: usize = if self.h - y0 < self.bh {
            self.h - y0
        } else {
            self.bh
        };
        (x0, y0, tw, th)
    }

    /// The place in the plane of sample `j` of tile `t`.
    pub fn place(&self, t: usize, j: usize) -> (p: usize)
        requires
            self.ok(),
            t < self@.count(),
            j < self@.area(t as int),
        ensures
            p == self@.pos(t as int, j as int),
            p < self.w * self.h,
    {
        let (x0, y0, tw, _th) = self.rect(t);
        proof {
            lemma_pos(self@, t as int, j as int);
            lemma_tile_dims(self@, t as int);
            let y = y0 + j as int / tw as int;
            assert(0 <= y * self.w <= self.w * self.h) by (nonlinear_arith)
                requires
                    0 <= y < self.h,
            ;
        }
        (y0 + j / tw) * self.w + x0 + j % tw
    }
}

/// Cuts tile `t` out of a plane.
pub fn get_tile(px: &[i32], g: Grid, t: usize) -> (out: Vec<i32>)
    requires
        g.ok(),
        px@.len() == g.w * g.h,
        t < g@.count(),
    ensures
        out@ == tile(px@, g@, t as int),
{
    let (x0, y0, tw, th) = g.rect(t);
    let ghost all = tile(px@, g@, t as int);
    proof {
        lemma_tile_dims(g@, t as int);
        lemma_count(g@);
    }
    let mut out: Vec<i32> = Vec::new();
    let mut r: usize = 0;
    while r < th
        invariant
            g.ok(),
            px@.len() == g.w * g.h,
            t < g@.count(),
            x0 == g@.x0(t as int),
            y0 == g@.y0(t as int),
            tw == g@.tw(t as int),
            th == g@.th(t as int),
            1 <= tw,
            x0 + tw <= g.w,
            y0 + th <= g.h,
            all == tile(px@, g@, t as int),
            r <= th,
            r * tw <= all.len(),
            out@ == all.take(r * tw),
            all.len() == th * tw,
        decreases th - r,
    {
        let mut c: usize = 0;
        while c < tw
            invariant
                g.ok(),
                px@.len() == g.w * g.h,
                t < g@.count(),
                x0 == g@.x0(t as int),
                y0 == g@.y0(t as int),
                tw == g@.tw(t as int),
                th == g@.th(t as int),
                1 <= tw,
                x0 + tw <= g.w,
                y0 + th <= g.h,
                all == tile(px@, g@, t as int),
                r < th,
                c <= tw,
                0 <= r * tw + c <= all.len(),
                out@ == all.take(r * tw + c),
                all.len() == th * tw,
            decreases tw - c,
        {
            proof {
                let j = r * tw + c;
                assert(0 <= j < th * tw) by (nonlinear_arith)
                    requires
                        j == r * tw + c,
                        0 <= r < th,
                        0 <= c < tw,
                ;
                lemma_pos(g@, t as int, j);
                lemma_fundamental_div_mod_converse(j, tw as int, r as int, c as int);
                let y = y0 + r;
                assert(0 <= y * g.w <= y * g.w + x0 + c <= usize::MAX) by (nonlinear_arith)
                    requires
                        0 <= y < g.h,
                        0 <= x0 + c < g.w,
                        g.w * g.h <= usize::MAX,
                        x0 >= 0,
                        c >= 0,
                ;
            }
            out.push(px[(y0 + r) * g.w + x0 + c]);
            c = c + 1;
            assert(out@ =~= all.take(r * tw + c));
        }
        r = r + 1;
        assert(r * tw == (r - 1) * tw + tw) by (nonlinear_arith);
        assert(r * tw <= th * tw) by (nonlinear_arith)
            requires
                r <= th,
                tw >= 0,
        ;
    }
    assert(out@ =~= all);
    out
}

/// Puts tiles together.
pub fn join_tiles(ts: &Vec<Vec<i32>>, g: Grid) -> (px: Vec<i32>)
    requires
        g.ok(),
        tiles_fit(views(ts@), g@),
    ensures
        px@ == untile(views(ts@), g@),
        px@.len() == g.w * g.h,
{
    let ghost vs = views(ts@);
    let ghost all = untile(vs, g@);
    proof {
        lemma_count(g@);
    }
    let n: usize = g.across();
    let total: usize = ts.len();
    let mut px: Vec<i32> = Vec::new();
    let mut y: usize = 0;
    while y < g.h
        invariant
            g.ok(),
            vs == views(ts@),
            tiles_fit(vs, g@),
            all == untile(vs, g@),
            all.len() == g.w * g.h,
            n == g@.across(),
            total == g@.count(),
            y <= g.h,
            px@.len() == y * g.w,
            px@ == all.take(y * g.w),
        decreases g.h - y,
    {
        let mut x: usize = 0;
        while x < g.w
            invariant
                g.ok(),
                vs == views(ts@),
                tiles_fit(vs, g@),
                all == untile(vs, g@),
                all.len() == g.w * g.h,
                n == g@.across(),
                total == g@.count(),
                y < g.h,
                x <= g.w,
                px@.len() == y * g.w + x,
                px@ == all.take(y * g.w + x),
            decreases g.w - x,
        {
            proof {
                let i = y * g.w + x;
                assert(0 <= i < g.w * g.h) by (nonlinear_arith)
                    requires
                        i == y * g.w + x,
                        0 <= y < g.h,
                        0 <= x < g.w,
                ;
                lemma_fundamental_div_mod_converse(i, g.w as int, y as int, x as int);
                lemma_place(g@, i);
                let t = g@.tile_of(i);
                lemma_tile_dims(g@, t);
                assert(vs[t].len() == g@.area(t));
                assert(ts@[t]@ == vs[t]);
                let ty = y as int / g.bh as int;
                let tx = x as int / g.bw as int;
                lemma_div_pos_is_pos(y as int, g.bh as int);
                lemma_div_pos_is_pos(x as int, g.bw as int);
                assert(0 <= ty * n <= t) by (nonlinear_arith)
                    requires
                        t == ty * n + tx,
                        tx >= 0,
                        ty >= 0,
                        n >= 0,
                ;
                lemma_tiles_along(g.w as int, g.bw as int, tx);
                lemma_fundamental_div_mod(x as int, g.bw as int);
                assert(tx * g.bw == g.bw * tx) by (nonlinear_arith);
                lemma_fundamental_div_mod_converse(t, n as int, ty, tx);
                lemma_mod_bound(y as int, g.bh as int);
                let r = y as int % g.bh as int;
                let tw = g@.tw(t);
                let cc = x as int % g.bw as int;
                assert(0 <= r * tw <= r * tw + cc) by (nonlinear_arith)
                    requires
                        r >= 0,
                        tw >= 1,
                        cc >= 0,
                ;
            }
            let t: usize = (y / g.bh) * n + x / g.bw;
            let x0: usize = (x / g.bw) * g.bw;
            let tw: usize = if g.w - x0 < g.bw {
                g.w - x0
            } else {
                g.bw
            };
            let ts_t: &Vec<i32> = &ts[t];
            let len: usize = ts_t.len();
            assert(len == g@.area(t as int));
            px.push(ts_t[(y % g.bh) * tw + x % g.bw]);
            x = x + 1;
            assert(px@ =~= all.take(y * g.w + x));
        }
        y = y + 1;
        assert(y * g.w == (y - 1) * g.w + g.w) by (nonlinear_arith);
    }
    assert(y * g.w == g.w * g.h) by (nonlinear_arith)
        requires
            y == g.h,
    ;
    assert(px@ =~= all);
    px
}

} // verus!

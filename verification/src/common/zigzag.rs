//! Zigzag order of the places in a square block: along the diagonals, from the first corner on.

use vstd::prelude::*;

verus! {

/// The place that comes behind row `r`, column `c`, in a block of side `n`.
pub open spec fn step(n: int, r: int, c: int) -> (int, int) {
    if (r + c) % 2 == 0 {
        if c == n - 1 {
            (r + 1, c)
        } else if r == 0 {
            (r, c + 1)
        } else {
            (r - 1, c + 1)
        }
    } else {
        if r == n - 1 {
            (r, c + 1)
        } else if c == 0 {
            (r + 1, c)
        } else {
            (r + 1, c - 1)
        }
    }
}

/// The place number `i`.
pub open spec fn place(n: int, i: nat) -> (int, int)
    decreases i,
{
    if i == 0 {
        (0, 0)
    } else {
        let (r, c) = place(n, (i - 1) as nat);
        step(n, r, c)
    }
}

/// The sum of the numbers up to `s`.
pub open spec fn tri(s: int) -> int
    decreases s,
{
    if s <= 0 {
        0
    } else {
        tri(s - 1) + s
    }
}

/// The number of the place in row `r`, column `c`.
pub open spec fn rank(n: int, r: int, c: int) -> int {
    let s = r + c;
    if s < n {
        tri(s) + if s % 2 == 0 {
            c
        } else {
            r
        }
    } else {
        n * n - tri(2 * n - 1 - s) + if s % 2 == 0 {
            n - 1 - r
        } else {
            n - 1 - c
        }
    }
}

/// The place that comes before.
spec fn back(n: int, r: int, c: int) -> (int, int) {
    if (r + c) % 2 == 0 {
        if r == n - 1 && c >= 1 {
            (r, c - 1)
        } else if c == 0 {
            (r - 1, c)
        } else {
            (r + 1, c - 1)
        }
    } else {
        if c == n - 1 && r >= 1 {
            (r - 1, c)
        } else if r == 0 {
            (r, c - 1)
        } else {
            (r - 1, c + 1)
        }
    }
}

proof fn lemma_square(n: int)
    requires
        n >= 0,
    ensures
        tri(n) + tri(n - 1) == n * n,
    decreases n,
{
    if n > 0 {
        lemma_square(n - 1);
        assert(tri(n) == tri(n - 1) + n);
        assert(tri(n - 1) == tri(n - 2) + n - 1);
        assert(n * n == (n - 1) * (n - 1) + 2 * n - 1) by (nonlinear_arith);
    } else {
        assert(n * n == 0) by (nonlinear_arith)
            requires
                n == 0,
        ;
    }
}

proof fn lemma_tri_pos(s: int)
    ensures
        tri(s) >= 0,
        s >= 1 ==> tri(s) >= s,
    decreases s,
{
    if s > 0 {
        lemma_tri_pos(s - 1);
    }
}

proof fn lemma_tri_mono(a: int, b: int)
    requires
        a <= b,
    ensures
        tri(a) <= tri(b),
    decreases b - a,
{
    if a < b {
        lemma_tri_mono(a, b - 1);
    }
}

pub proof fn lemma_rank_bounds(n: int, r: int, c: int)
    requires
        0 <= r < n,
        0 <= c < n,
    ensures
        0 <= rank(n, r, c) < n * n,
        r + c > 0 ==> rank(n, r, c) > 0,
{
    lemma_square(n);
    let s = r + c;
    lemma_tri_pos(s);
    lemma_tri_pos(n - 1);
    if s < n {
        lemma_tri_mono(s, n - 1);
    } else {
        let m = 2 * n - 1 - s;
        lemma_tri_pos(m);
        lemma_tri_mono(m, n - 1);
    }
}

proof fn lemma_back(n: int, r: int, c: int)
    requires
        0 <= r < n,
        0 <= c < n,
        r + c > 0,
    ensures
        ({
            let (p, q) = back(n, r, c);
            &&& 0 <= p < n
            &&& 0 <= q < n
            &&& step(n, p, q) == (r, c)
            &&& rank(n, p, q) == rank(n, r, c) - 1
        }),
{
    lemma_square(n);
    let (p, q) = back(n, r, c);
    assert(tri(r + c) == tri(r + c - 1) + r + c);
    let m = 2 * n - 1 - (r + c);
    assert(m + 1 > 0);
    lemma_tri_pos(m);
    assert(tri(m + 1) == tri(m) + m + 1);
}

/// Every place has its number.
pub proof fn lemma_place_rank(n: int, r: int, c: int)
    requires
        0 <= r < n,
        0 <= c < n,
    ensures
        place(n, rank(n, r, c) as nat) == (r, c),
    decreases rank(n, r, c),
{
    lemma_rank_bounds(n, r, c);
    if r + c == 0 {
    } else {
        lemma_back(n, r, c);
        let (p, q) = back(n, r, c);
        lemma_rank_bounds(n, p, q);
        lemma_place_rank(n, p, q);
    }
}

proof fn lemma_step(n: int, r: int, c: int)
    requires
        0 <= r < n,
        0 <= c < n,
        rank(n, r, c) < n * n - 1,
    ensures
        ({
            let (p, q) = step(n, r, c);
            0 <= p < n && 0 <= q < n && rank(n, p, q) == rank(n, r, c) + 1
        }),
{
    lemma_square(n);
    let s = r + c;
    assert(tri(s + 1) == tri(s) + s + 1);
    let m = 2 * n - 1 - s;
    lemma_tri_pos(m);
    if s >= n {
        assert(tri(m) == tri(m - 1) + m);
    }
    if s == 2 * n - 2 {
        assert(tri(1) == tri(0) + 1);
        assert(tri(0) == 0);
    }
}

/// The places are those of the block.
pub proof fn lemma_place_inside(n: int, i: nat)
    requires
        n >= 1,
        i < n * n,
    ensures
        ({
            let (r, c) = place(n, i);
            0 <= r < n && 0 <= c < n && rank(n, r, c) == i
        }),
    decreases i,
{
    if i == 0 {
        assert(tri(0) == 0);
    } else {
        lemma_place_inside(n, (i - 1) as nat);
        let (r, c) = place(n, (i - 1) as nat);
        lemma_step(n, r, c);
    }
}

/// The samples of a block in zigzag order.
pub open spec fn scan(b: Seq<i32>, n: int) -> Seq<i32> {
    Seq::new((n * n) as nat, |i: int| b[place(n, i as nat).0 * n + place(n, i as nat).1])
}

/// The block whose samples in zigzag order are `s`.
pub open spec fn unscan(s: Seq<i32>, n: int) -> Seq<i32> {
    Seq::new((n * n) as nat, |j: int| s[rank(n, j / n, j % n)])
}

/// Undoing the scan gives back the block.
pub proof fn law_zigzag_roundtrip(b: Seq<i32>, n: int)
    requires
        n >= 1,
        b.len() == n * n,
    ensures
        unscan(scan(b, n), n) == b,
{
    let s = scan(b, n);
    assert forall|j: int| 0 <= j < n * n implies unscan(s, n)[j] == b[j] by {
        lemma_cell(n, j);
        let r = j / n;
        let c = j % n;
        lemma_rank_bounds(n, r, c);
        lemma_place_rank(n, r, c);
    }
    assert(unscan(s, n) =~= b);
}

proof fn lemma_cell(n: int, j: int)
    requires
        n >= 1,
        0 <= j < n * n,
    ensures
        0 <= j / n < n,
        0 <= j % n < n,
        (j / n) * n + j % n == j,
{
    vstd::arithmetic::div_mod::lemma_fundamental_div_mod(j, n);
    vstd::arithmetic::div_mod::lemma_div_pos_is_pos(j, n);
    let q = j / n;
    assert(q < n) by (nonlinear_arith)
        requires
            j == n * q + j % n,
            0 <= j % n,
            j < n * n,
            n >= 1,
    ;
    assert(q * n == n * q) by (nonlinear_arith);
}

/// Reads the samples of a block in zigzag order.
pub fn zigzag_scan(b: &[i32], n: usize) -> (out: Vec<i32>)
    requires
        1 <= n <= 255,
        b@.len() == n * n,
    ensures
        out@ == scan(b@, n as int),
{
    let ghost all = scan(b@, n as int);
    let total: usize = b.len();
    let mut out: Vec<i32> = Vec::new();
    let mut r: usize = 0;
    let mut c: usize = 0;
    let mut i: usize = 0;
    while i < total
        invariant
            1 <= n <= 255,
            b@.len() == n * n,
            total == n * n,
            i <= total,
            all == scan(b@, n as int),
            all.len() == total,
            i < total ==> place(n as int, i as nat) == (r as int, c as int),
            out@ == all.take(i as int),
        decreases total - i,
    {
        proof {
            lemma_place_inside(n as int, i as nat);
            assert(0 <= r * n + c < n * n) by (nonlinear_arith)
                requires
                    0 <= r < n,
                    0 <= c < n,
            ;
            assert(0 <= r * n) by (nonlinear_arith)
                requires
                    0 <= r,
                    0 <= n,
            ;
            if i + 1 < total {
                lemma_place_inside(n as int, (i + 1) as nat);
            }
        }
        out.push(b[r * n + c]);
        if i + 1 < total {
            if (r + c) % 2 == 0 {
                if c == n - 1 {
                    r = r + 1;
                } else if r == 0 {
                    c = c + 1;
                } else {
                    r = r - 1;
                    c = c + 1;
                }
            } else {
                if r == n - 1 {
                    c = c + 1;
                } else if c == 0 {
                    r = r + 1;
                } else {
                    r = r + 1;
                    c = c - 1;
                }
            }
        }
        i = i + 1;
        assert(out@ =~= all.take(i as int));
    }
    assert(out@ =~= all);
    out
}

fn tri_exec(s: usize) -> (t: usize)
    requires
        s <= 512,
    ensures
        t == tri(s as int),
        t <= s * 512,
{
    let mut t: usize = 0;
    let mut i: usize = 0;
    while i < s
        invariant
            i <= s <= 512,
            t == tri(i as int),
            t <= i * 512,
        decreases s - i,
    {
        i = i + 1;
        t = t + i;
    }
    t
}

fn rank_exec(n: usize, r: usize, c: usize) -> (k: usize)
    requires
        r < n <= 255,
        c < n,
    ensures
        k == rank(n as int, r as int, c as int),
{
    proof {
        lemma_rank_bounds(n as int, r as int, c as int);
        assert(n * n <= 0xffff) by (nonlinear_arith)
            requires
                n <= 255,
        ;
    }
    let s: usize = r + c;
    if s < n {
        let t: usize = tri_exec(s);
        if s % 2 == 0 {
            t + c
        } else {
            t + r
        }
    } else {
        let t: usize = tri_exec(2 * n - 1 - s);
        let o: usize = if s % 2 == 0 {
            n - 1 - r
        } else {
            n - 1 - c
        };
        n * n + o - t
    }
}

/// Puts samples in zigzag order back into a block.
pub fn zigzag_inverse(s: &[i32], n: usize) -> (out: Vec<i32>)
    requires
        1 <= n <= 255,
        s@.len() == n * n,
    ensures
        out@ == unscan(s@, n as int),
{
    let ghost all = unscan(s@, n as int);
    let total: usize = s.len();
    let mut out: Vec<i32> = Vec::new();
    let mut j: usize = 0;
    while j < total
        invariant
            1 <= n <= 255,
            s@.len() == n * n,
            total == n * n,
            j <= total,
            all == unscan(s@, n as int),
            all.len() == total,
            out@ == all.take(j as int),
        decreases total - j,
    {
        proof {
            lemma_cell(n as int, j as int);
            lemma_rank_bounds(n as int, j as int / n as int, j as int % n as int);
        }
        let k: usize = rank_exec(n, j / n, j % n);
        out.push(s[k]);
        j = j + 1;
        assert(out@ =~= all.take(j as int));
    }
    assert(out@ =~= all);
    out
}

/// Coefficients come in the order of their frequency: along each diagonal, and from each to the next.
pub proof fn law_zigzag_order(n: int, i: nat)
    requires
        n >= 1,
        i + 1 < n * n,
    ensures
        ({
            let (a, b) = (place(n, i), place(n, i + 1));
            &&& a.0 + a.1 <= b.0 + b.1 <= a.0 + a.1 + 1
            &&& -1 <= b.0 - a.0 <= 1 && -1 <= b.1 - a.1 <= 1
            &&& a != b
        }),
        place(n, 0) == (0int, 0int),
{
    lemma_place_inside(n, i);
}

} // verus!

//! Encoder of the coefficients of blocks with fixed codes: the first coefficient by itself, the
//! others from the end of the block on, as pairs of a run of zeros and a level. The runs tell where
//! the coefficients stand. Nothing follows the pair that stands last.

use vstd::prelude::*;
use crate::common::bits;
use crate::common::bits::BitWriter;
use crate::common::cabac_syntax as syn;
use crate::common::coeff_syntax as cs;
use crate::common::coeff_syntax::COEFFS;
use crate::encoder::rle_cabac::mag_u32;

verus! {

/// A run of this many has no end mark.
pub const MAX_AC_RUN: usize = 63;

/// Ones, as many as `v` says, then a zero.
pub open spec fn unary(v: nat) -> Seq<bool> {
    bits::repeat_bit(true, v).push(false)
}

/// Ones, as many as `v` says but no more than `max`, then a zero unless there are `max`.
pub open spec fn truncated_unary(v: nat, max: nat) -> Seq<bool> {
    if v < max {
        unary(v)
    } else {
        bits::repeat_bit(true, max)
    }
}

/// A coefficient: its magnitude and its sign.
pub open spec fn level_bits(v: i32) -> Seq<bool> {
    unary(syn::mag(v)).push(v < 0)
}

/// The pairs for the coefficients of `ac` before `prev`, from the last to the first.
pub open spec fn ac_bits(ac: Seq<i32>, prev: nat) -> Seq<bool>
    decreases prev,
{
    match cs::last_nonzero(ac, prev) {
        None => Seq::empty(),
        Some(i) => if i < prev {
            truncated_unary((prev - i - 1) as nat, MAX_AC_RUN as nat) + level_bits(ac[i as int])
                + ac_bits(ac, i)
        } else {
            Seq::empty()
        },
    }
}

/// The code of a block.
pub open spec fn block_bits(z: Seq<i32>) -> Seq<bool> {
    let ac = z.skip(1);
    level_bits(z[0]) + match cs::last_nonzero(ac, ac.len()) {
        None => seq![false],
        Some(i) => seq![true] + ac_bits(ac, ac.len()),
    }
}

/// Writes blocks of coefficients.
pub struct CoeffEncoder {
    w: BitWriter,
}

impl CoeffEncoder {
    pub closed spec fn wf(&self) -> bool {
        self.w.wf()
    }

    /// The bits written so far.
    pub closed spec fn view(&self) -> Seq<bool> {
        self.w@
    }

    /// An encoder without blocks yet.
    pub fn new() -> (e: CoeffEncoder)
        ensures
            e.wf(),
            e@ == Seq::<bool>::empty(),
    {
        CoeffEncoder { w: BitWriter::new() }
    }

    fn put_ones(&mut self, n: u32)
        requires
            old(self).wf(),
        ensures
            final(self).wf(),
            final(self)@ == old(self)@ + bits::repeat_bit(true, n as nat),
    {
        let ghost before = self@;
        let mut j: u32 = 0;
        assert(before + bits::repeat_bit(true, 0) =~= before);
        while j < n
            invariant
                self.wf(),
                j <= n,
                self@ == before + bits::repeat_bit(true, j as nat),
            decreases n - j,
        {
            self.w.put_bit(true);
            j = j + 1;
            assert(self@ =~= before + bits::repeat_bit(true, j as nat));
        }
    }

    fn put_truncated_unary(&mut self, v: usize)
        requires
            old(self).wf(),
            v < COEFFS,
        ensures
            final(self).wf(),
            final(self)@ == old(self)@ + truncated_unary(v as nat, MAX_AC_RUN as nat),
    {
        let ghost before = self@;
        if v < MAX_AC_RUN {
            self.put_ones(v as u32);
            self.w.put_bit(false);
        } else {
            self.put_ones(MAX_AC_RUN as u32);
        }
        assert(self@ =~= before + truncated_unary(v as nat, MAX_AC_RUN as nat));
    }

    fn put_level(&mut self, v: i32)
        requires
            old(self).wf(),
        ensures
            final(self).wf(),
            final(self)@ == old(self)@ + level_bits(v),
    {
        let ghost before = self@;
        self.put_ones(mag_u32(v));
        self.w.put_bit(false);
        self.w.put_bit(v < 0);
        assert(self@ =~= before + level_bits(v));
    }

    /// Codes the coefficients of a block, given in zigzag order.
    pub fn encode_block(&mut self, zigzag: &[i32])
        requires
            old(self).wf(),
            zigzag@.len() == COEFFS,
        ensures
            final(self).wf(),
            final(self)@ == old(self)@ + block_bits(zigzag@),
    {
        let ghost before = self@;
        let ghost ac = zigzag@.skip(1);
        self.put_level(zigzag[0]);
        let ghost mid = self@;
        let mut last: usize = COEFFS - 1;
        while last > 0 && zigzag[last] == 0
            invariant
                last <= COEFFS - 1,
                zigzag@.len() == COEFFS,
                ac == zigzag@.skip(1),
                cs::last_nonzero(ac, ac.len()) == cs::last_nonzero(ac, last as nat),
            decreases last,
        {
            last = last - 1;
        }
        if last == 0 {
            self.w.put_bit(false);
            assert(self@ =~= before + block_bits(zigzag@));
            return;
        }
        self.w.put_bit(true);
        let ghost goal = self@ + ac_bits(ac, ac.len());
        let mut prev: usize = COEFFS - 1;
        let mut i: usize = last;
        while i > 0
            invariant
                self.wf(),
                zigzag@.len() == COEFFS,
                ac == zigzag@.skip(1),
                i <= prev < COEFFS,
                cs::last_nonzero(ac, prev as nat) == cs::last_nonzero(ac, i as nat),
                goal == self@ + ac_bits(ac, prev as nat),
            decreases i,
        {
            i = i - 1;
            let v: i32 = zigzag[i + 1];
            assert(ac[i as int] == v);
            if v != 0 {
                let ghost now = self@;
                self.put_truncated_unary(prev - i - 1);
                self.put_level(v);
                proof {
                    let a = truncated_unary((prev - i - 1) as nat, MAX_AC_RUN as nat);
                    let b = level_bits(v);
                    let rest = ac_bits(ac, i as nat);
                    assert(now + (a + b + rest) =~= self@ + rest);
                }
                prev = i;
            }
        }
        assert(self@ =~= goal);
        assert(goal =~= before + block_bits(zigzag@));
    }

    /// The bytes of the blocks.
    pub fn finish(self) -> (out: Vec<u8>)
        requires
            self.wf(),
        ensures
            out@ == bits::pack(self@),
    {
        self.w.finish()
    }

    /// Number of bytes that [`finish`](Self::finish) would return.
    pub fn byte_len(&self) -> (n: usize)
        requires
            self.wf(),
            self@.len() <= usize::MAX,
        ensures
            n == (self@.len() + 7) / 8,
    {
        self.w.byte_len()
    }
}

proof fn lemma_unary_tells(v: nat, w: nat, x: Seq<bool>, y: Seq<bool>)
    requires
        unary(v) + x == unary(w) + y,
    ensures
        v == w,
        x == y,
{
    let (a, b) = (unary(v) + x, unary(w) + y);
    if v < w {
        assert(!a[v as int] && b[v as int]);
    } else if w < v {
        assert(a[w as int] && !b[w as int]);
    }
    assert(x =~= a.skip(v as int + 1));
    assert(y =~= b.skip(v as int + 1));
}

proof fn lemma_level_tells(v: i32, w: i32, x: Seq<bool>, y: Seq<bool>)
    requires
        level_bits(v) + x == level_bits(w) + y,
    ensures
        v == w,
        x == y,
{
    let (p, q) = (seq![v < 0] + x, seq![w < 0] + y);
    assert(level_bits(v) + x =~= unary(syn::mag(v)) + p);
    assert(level_bits(w) + y =~= unary(syn::mag(w)) + q);
    lemma_unary_tells(syn::mag(v), syn::mag(w), p, q);
    assert(p[0] == q[0]);
    assert(x =~= p.skip(1));
    assert(y =~= q.skip(1));
}

/// A pair is no row of zeros.
proof fn lemma_pair_shows(run: nat, v: i32, x: Seq<bool>, n: nat)
    requires
        v != 0,
        run < MAX_AC_RUN,
    ensures
        truncated_unary(run, MAX_AC_RUN as nat) + level_bits(v) + x != bits::repeat_bit(false, n),
{
    let s = truncated_unary(run, MAX_AC_RUN as nat) + level_bits(v) + x;
    assert(s[run as int + 1] == level_bits(v)[0]);
    assert(level_bits(v)[0]);
    if s == bits::repeat_bit(false, n) {
        assert(run + 1 < s.len() && s.len() == n);
        assert(!bits::repeat_bit(false, n)[run as int + 1]);
    }
}

proof fn lemma_pairs_tell(a: Seq<i32>, b: Seq<i32>, prev: nat, m: nat, n: nat)
    requires
        prev <= a.len(),
        a.len() == b.len(),
        prev <= MAX_AC_RUN,
        ac_bits(a, prev) + bits::repeat_bit(false, m) == ac_bits(b, prev) + bits::repeat_bit(
            false,
            n,
        ),
    ensures
        a.take(prev as int) == b.take(prev as int),
    decreases prev,
{
    let (zm, zn) = (bits::repeat_bit(false, m), bits::repeat_bit(false, n));
    cs::lemma_last_nonzero(a, prev);
    cs::lemma_last_nonzero(b, prev);
    match (cs::last_nonzero(a, prev), cs::last_nonzero(b, prev)) {
        (None, None) => {},
        (Some(i), None) => {
            let run = (prev - i - 1) as nat;
            let rest = ac_bits(a, i);
            lemma_pair_shows(run, a[i as int], rest + zm, n);
            assert(ac_bits(a, prev) + zm =~= truncated_unary(run, MAX_AC_RUN as nat) + level_bits(
                a[i as int],
            ) + (rest + zm));
            assert(ac_bits(b, prev) + zn =~= zn);
        },
        (None, Some(j)) => {
            let run = (prev - j - 1) as nat;
            let rest = ac_bits(b, j);
            lemma_pair_shows(run, b[j as int], rest + zn, m);
            assert(ac_bits(b, prev) + zn =~= truncated_unary(run, MAX_AC_RUN as nat) + level_bits(
                b[j as int],
            ) + (rest + zn));
            assert(ac_bits(a, prev) + zm =~= zm);
        },
        (Some(i), Some(j)) => {
            let (u, w) = ((prev - i - 1) as nat, (prev - j - 1) as nat);
            let (x, y) = (ac_bits(a, i) + zm, ac_bits(b, j) + zn);
            let (p, q) = (level_bits(a[i as int]) + x, level_bits(b[j as int]) + y);
            assert(ac_bits(a, prev) + zm =~= unary(u) + p);
            assert(ac_bits(b, prev) + zn =~= unary(w) + q);
            lemma_unary_tells(u, w, p, q);
            lemma_level_tells(a[i as int], b[j as int], x, y);
            lemma_pairs_tell(a, b, i, m, n);
            assert forall|k: int| 0 <= k < prev implies a[k] == b[k] by {
                if k < i {
                    assert(a.take(i as int)[k] == b.take(i as int)[k]);
                }
            }
            assert(a.take(prev as int) =~= b.take(prev as int));
        },
    }
}

/// The bits of a block tell its coefficients, and so do its bytes: different blocks give different
/// bits and different bytes.
pub proof fn law_blocks_differ(a: Seq<i32>, b: Seq<i32>)
    requires
        a.len() == COEFFS,
        b.len() == COEFFS,
        a != b,
    ensures
        block_bits(a) != block_bits(b),
        bits::pack(block_bits(a)) != bits::pack(block_bits(b)),
{
    let (s, t) = (block_bits(a), block_bits(b));
    bits::lemma_pack(s);
    bits::lemma_pack(t);
    if s == t || bits::pack(s) == bits::pack(t) {
        let (m, n) = (((8 - s.len() % 8) % 8) as nat, ((8 - t.len() % 8) % 8) as nat);
        let (zm, zn) = (bits::repeat_bit(false, m), bits::repeat_bit(false, n));
        assert(s + zm == t + zn);
        let (f, g) = (a.skip(1), b.skip(1));
        cs::lemma_last_nonzero(f, f.len());
        cs::lemma_last_nonzero(g, g.len());
        let (c, d) = (cs::last_nonzero(f, f.len()) is Some, cs::last_nonzero(g, g.len()) is Some);
        let x = seq![c] + (ac_bits(f, f.len()) + zm);
        let y = seq![d] + (ac_bits(g, g.len()) + zn);
        assert(s + zm =~= level_bits(a[0]) + x);
        assert(t + zn =~= level_bits(b[0]) + y);
        lemma_level_tells(a[0], b[0], x, y);
        assert(x[0] == y[0]);
        assert(x.skip(1) =~= ac_bits(f, f.len()) + zm);
        assert(y.skip(1) =~= ac_bits(g, g.len()) + zn);
        lemma_pairs_tell(f, g, f.len(), m, n);
        assert(f.take(f.len() as int) =~= f);
        assert(g.take(g.len() as int) =~= g);
        assert forall|k: int| 0 <= k < COEFFS implies a[k] == b[k] by {
            if k > 0 {
                assert(f[k - 1] == a[k] && g[k - 1] == b[k]);
            }
        }
        assert(a =~= b);
    }
}

} // verus!

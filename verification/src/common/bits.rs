//! Bit streams, most significant bit first.
//!
//! A byte string is modelled by the sequence of its bits; [`BitWriter`] appends to such a sequence
//! and [`BitReader`] walks along one.

use vstd::prelude::*;
use vstd::arithmetic::power2::*;

verus! {

/// The `n` low bits of `v`, most significant first.
pub open spec fn nat_bits(v: nat, n: nat) -> Seq<bool>
    decreases n,
{
    if n == 0 {
        Seq::empty()
    } else {
        nat_bits(v / 2, (n - 1) as nat).push(v % 2 == 1)
    }
}

/// The bits of a byte string, eight per byte.
pub open spec fn bits_of(s: Seq<u8>) -> Seq<bool>
    decreases s.len(),
{
    if s.len() == 0 {
        Seq::empty()
    } else {
        bits_of(s.drop_last()) + nat_bits(s.last() as nat, 8)
    }
}

/// `n` copies of `b`.
pub open spec fn repeat_bit(b: bool, n: nat) -> Seq<bool> {
    Seq::new(n, |i: int| b)
}

/// The bits of `s`, completed by zeros to a whole number of bytes.
pub open spec fn pad8(s: Seq<bool>) -> Seq<bool> {
    s + repeat_bit(false, ((8 - s.len() % 8) % 8) as nat)
}

/// The byte string whose bits are `s`, completed by zeros.
pub open spec fn pack(s: Seq<bool>) -> Seq<u8> {
    choose|b: Seq<u8>| bits_of(b) == pad8(s)
}

/// Bit `p` of a stream; there are only zeros behind its end.
pub open spec fn bit_at(s: Seq<bool>, p: nat) -> bool {
    p < s.len() && s[p as int]
}

/// The position `n` bits behind `p`, or the end of the stream.
pub open spec fn step(s: Seq<bool>, p: nat, n: nat) -> nat {
    if p + n <= s.len() {
        p + n
    } else {
        s.len()
    }
}

/// How many one bits stand in a row from position `p` on.
pub open spec fn ones_at(s: Seq<bool>, p: nat) -> nat
    decreases s.len() - p,
{
    if bit_at(s, p) {
        1 + ones_at(s, p + 1)
    } else {
        0
    }
}

/// How many zero bits stand in a row from position `p` on, counted up to `cap`.
pub open spec fn zeros_at(s: Seq<bool>, p: nat, cap: nat) -> nat
    decreases cap,
{
    if cap == 0 || bit_at(s, p) {
        0
    } else {
        1 + zeros_at(s, p + 1, (cap - 1) as nat)
    }
}

/// The number that the `n` bits from position `p` on spell, most significant first.
pub open spec fn bits_val(s: Seq<bool>, p: nat, n: nat) -> nat
    decreases n,
{
    if n == 0 {
        0
    } else {
        2 * bits_val(s, p, (n - 1) as nat) + (if bit_at(s, (p + n - 1) as nat) {
            1nat
        } else {
            0nat
        })
    }
}

/// `code` stands in `s` at position `p`.
pub open spec fn holds_at(s: Seq<bool>, p: nat, code: Seq<bool>) -> bool {
    &&& p + code.len() <= s.len()
    &&& s.subrange(p as int, (p + code.len()) as int) == code
}

pub proof fn lemma_nat_bits_len(v: nat, n: nat)
    ensures
        nat_bits(v, n).len() == n,
    decreases n,
{
    if n > 0 {
        lemma_nat_bits_len(v / 2, (n - 1) as nat);
    }
}

/// Bit `i` of `nat_bits(v, n)` is the binary digit of weight `2^(n-1-i)`.
pub proof fn lemma_nat_bits_index(v: nat, n: nat, i: int)
    requires
        0 <= i < n,
    ensures
        nat_bits(v, n).len() == n,
        nat_bits(v, n)[i] == ((v / pow2((n - 1 - i) as nat)) % 2 == 1),
    decreases n,
{
    lemma_nat_bits_len(v, n);
    lemma_nat_bits_len(v / 2, (n - 1) as nat);
    if i == n - 1 {
        lemma2_to64();
        assert(v / pow2(0) == v);
    } else {
        lemma_nat_bits_index(v / 2, (n - 1) as nat, i);
        let e = (n - 2 - i) as nat;
        lemma_pow2_unfold((e + 1) as nat);
        lemma_pow2_pos(e);
        vstd::arithmetic::div_mod::lemma_div_denominator(v as int, 2, pow2(e) as int);
    }
}

/// Appending a number of `b` bits below a number of `a` bits appends their bit sequences.
pub proof fn lemma_nat_bits_split(hi: nat, lo: nat, a: nat, b: nat)
    requires
        lo < pow2(b),
    ensures
        nat_bits(hi * pow2(b) + lo, a + b) == nat_bits(hi, a) + nat_bits(lo, b),
    decreases b,
{
    lemma2_to64();
    if b == 0 {
        assert(hi * pow2(b) == hi) by (nonlinear_arith)
            requires
                pow2(b) == 1,
        ;
        assert(nat_bits(hi, a) + nat_bits(lo, b) =~= nat_bits(hi, a));
    } else {
        let b1 = (b - 1) as nat;
        lemma_pow2_unfold(b);
        let v = hi * pow2(b) + lo;
        assert(v == 2 * (hi * pow2(b1)) + lo) by (nonlinear_arith)
            requires
                v == hi * pow2(b) + lo,
                pow2(b) == 2 * pow2(b1),
        ;
        assert(v / 2 == hi * pow2(b1) + lo / 2);
        assert(v % 2 == lo % 2);
        lemma_nat_bits_split(hi, lo / 2, a, b1);
        assert((a + b - 1) as nat == a + b1);
        assert(nat_bits(hi, a) + nat_bits(lo, b) =~= (nat_bits(hi, a) + nat_bits(lo / 2, b1)).push(
            lo % 2 == 1,
        ));
    }
}

/// A run of zero bits.
pub proof fn lemma_nat_bits_zero(n: nat)
    ensures
        nat_bits(0, n) == repeat_bit(false, n),
    decreases n,
{
    if n > 0 {
        lemma_nat_bits_zero((n - 1) as nat);
    }
    assert(nat_bits(0, n) =~= repeat_bit(false, n));
}

/// A run of one bits.
pub proof fn lemma_nat_bits_ones(n: nat)
    ensures
        pow2(n) >= 1,
        nat_bits((pow2(n) - 1) as nat, n) == repeat_bit(true, n),
    decreases n,
{
    lemma_pow2_pos(n);
    lemma2_to64();
    if n > 0 {
        lemma_nat_bits_ones((n - 1) as nat);
        lemma_pow2_unfold(n);
        let v = (pow2(n) - 1) as nat;
        assert(v / 2 == pow2((n - 1) as nat) - 1);
        assert(v % 2 == 1);
    }
    assert(nat_bits((pow2(n) - 1) as nat, n) =~= repeat_bit(true, n));
}

pub proof fn lemma_bits_of_len(s: Seq<u8>)
    ensures
        bits_of(s).len() == 8 * s.len(),
    decreases s.len(),
{
    if s.len() > 0 {
        lemma_bits_of_len(s.drop_last());
        lemma_nat_bits_len(s.last() as nat, 8);
    }
}

pub proof fn lemma_bits_of_push(s: Seq<u8>, b: u8)
    ensures
        bits_of(s.push(b)) == bits_of(s) + nat_bits(b as nat, 8),
{
    assert(s.push(b).drop_last() =~= s);
}

pub proof fn lemma_bits_of_add(s: Seq<u8>, t: Seq<u8>)
    ensures
        bits_of(s + t) == bits_of(s) + bits_of(t),
    decreases t.len(),
{
    if t.len() == 0 {
        assert(s + t =~= s);
        assert(bits_of(s) + bits_of(t) =~= bits_of(s));
    } else {
        lemma_bits_of_add(s, t.drop_last());
        assert((s + t).drop_last() =~= s + t.drop_last());
        assert(bits_of(s) + (bits_of(t.drop_last()) + nat_bits(t.last() as nat, 8)) =~= bits_of(s)
            + bits_of(t.drop_last()) + nat_bits(t.last() as nat, 8));
    }
}

/// Bit `p` of a byte string sits in byte `p / 8`.
pub proof fn lemma_bits_of_index(s: Seq<u8>, p: int)
    requires
        0 <= p < 8 * s.len(),
    ensures
        bits_of(s).len() == 8 * s.len(),
        bits_of(s)[p] == nat_bits(s[p / 8] as nat, 8)[p % 8],
    decreases s.len(),
{
    lemma_bits_of_len(s);
    lemma_bits_of_len(s.drop_last());
    lemma_nat_bits_len(s.last() as nat, 8);
    if p < 8 * (s.len() - 1) {
        lemma_bits_of_index(s.drop_last(), p);
    }
}

/// Appends bits to a growing byte string.
///
/// The bits not yet making up a byte stand left-aligned in `current_byte`.
pub struct BitWriter {
    buffer: Vec<u8>,
    current_byte: u8,
    bit_pos: u8,
}

impl BitWriter {
    pub closed spec fn wf(&self) -> bool {
        &&& self.bit_pos < 8
        &&& self.current_byte as nat % pow2((8 - self.bit_pos) as nat) == 0
    }

    pub closed spec fn view(&self) -> Seq<bool> {
        bits_of(self.buffer@) + nat_bits(
            self.current_byte as nat / pow2((8 - self.bit_pos) as nat),
            self.bit_pos as nat,
        )
    }

    /// An empty stream.
    pub fn new() -> (w: BitWriter)
        ensures
            w.wf(),
            w@ == Seq::<bool>::empty(),
    {
        proof {
            lemma2_to64();
        }
        let w = BitWriter { buffer: Vec::new(), current_byte: 0, bit_pos: 0 };
        assert(w@ =~= Seq::<bool>::empty());
        w
    }

    /// Appends at most as many bits as the current byte has room for.
    fn put_within(&mut self, bits: u8, n: u8)
        requires
            old(self).wf(),
            old(self).bit_pos + n <= 8,
            (bits as nat) < pow2(n as nat),
        ensures
            final(self).wf(),
            final(self).bit_pos == (old(self).bit_pos + n) % 8,
            final(self)@ == old(self)@ + nat_bits(bits as nat, n as nat),
    {
        let sh: u8 = 8 - self.bit_pos - n;
        let ghost before = self@;
        let ghost fill = (8 - self.bit_pos) as nat;
        let ghost pos = self.bit_pos as nat;
        let ghost c = self.current_byte as nat / pow2(fill);
        let ghost v = c * pow2(n as nat) + bits as nat;
        proof {
            lemma2_to64();
            lemma_pow2_pos(fill);
            lemma_pow2_adds(n as nat, sh as nat);
            lemma_pow2_adds(pos, fill);
            vstd::arithmetic::div_mod::lemma_fundamental_div_mod(
                self.current_byte as int,
                pow2(fill) as int,
            );
            lemma_place_bits(
                self.current_byte as nat,
                c,
                bits as nat,
                pow2(n as nat),
                pow2(sh as nat),
                pow2(fill),
                pow2(pos),
            );
            lemma_pow2_pos(sh as nat);
            vstd::bits::lemma_u64_shl_is_mul(bits as u64, sh as u64);
            lemma_nat_bits_split(c, bits as nat, pos, n as nat);
            vstd::arithmetic::div_mod::lemma_div_multiples_vanish(
                v as int,
                pow2(sh as nat) as int,
            );
            vstd::arithmetic::div_mod::lemma_mod_multiples_basic(
                v as int,
                pow2(sh as nat) as int,
            );
            vstd::arithmetic::mul::lemma_mul_is_commutative(v as int, pow2(sh as nat) as int);
        }
        let add: u8 = ((bits as u64) << (sh as u64)) as u8;
        self.current_byte = self.current_byte + add;
        self.bit_pos = self.bit_pos + n;
        proof {
            assert(before + nat_bits(bits as nat, n as nat) =~= bits_of(self.buffer@) + nat_bits(
                v,
                pos + n as nat,
            ));
        }
        if self.bit_pos == 8 {
            let byte: u8 = self.current_byte;
            proof {
                lemma_bits_of_push(self.buffer@, byte);
                assert(v * pow2(0) == v);
            }
            self.buffer.push(byte);
            self.current_byte = 0;
            self.bit_pos = 0;
            assert(self@ =~= bits_of(self.buffer@));
        }
    }

    /// Appends the `n` low bits of `bits`, most significant first.
    pub fn put(&mut self, bits: u64, n: u32)
        requires
            old(self).wf(),
            n <= 57,
            (bits as nat) < pow2(n as nat),
        ensures
            final(self).wf(),
            final(self)@ == old(self)@ + nat_bits(bits as nat, n as nat),
    {
        let fill: u32 = 8 - self.bit_pos as u32;
        let ghost before = self@;
        if n <= fill {
            proof {
                lemma2_to64();
                if n < 8 {
                    lemma_pow2_strictly_increases(n as nat, 8);
                }
            }
            self.put_within(bits as u8, n as u8);
            return ;
        }
        let mut remain: u32 = n - fill;
        proof {
            lemma2_to64();
            lemma_take_top(bits as nat, fill as nat, remain as nat);
            vstd::bits::lemma_u64_shr_is_div(bits, remain as u64);
            if fill < 8 {
                lemma_pow2_strictly_increases(fill as nat, 8);
            }
        }
        self.put_within((bits >> (remain as u64)) as u8, fill as u8);
        proof {
            assert(before + nat_bits(bits as nat, n as nat) =~= self@ + nat_bits(
                bits as nat % pow2(remain as nat),
                remain as nat,
            ));
        }
        while remain >= 8
            invariant
                self.wf(),
                self.bit_pos == 0,
                remain <= 57,
                before + nat_bits(bits as nat, n as nat) == self@ + nat_bits(
                    bits as nat % pow2(remain as nat),
                    remain as nat,
                ),
            decreases remain,
        {
            let ghost r0 = remain as nat;
            let ghost mid = self@;
            remain = remain - 8;
            proof {
                lemma2_to64();
                let r = remain as nat;
                vstd::bits::lemma_u64_shr_is_div(bits, remain as u64);
                assert(((bits >> (remain as u64)) & 0xff) == (bits >> (remain as u64)) % 256)
                    by (bit_vector);
                lemma_split_low(bits as nat, 8, r);
                lemma_pow2_pos(r);
                lemma_nat_bits_split((bits as nat / pow2(r)) % 256, bits as nat % pow2(r), 8, r);
            }
            let b: u8 = ((bits >> (remain as u64)) & 0xff) as u8;
            self.put_within(b, 8);
            proof {
                assert(mid + nat_bits(bits as nat % pow2(r0), r0) =~= self@ + nat_bits(
                    bits as nat % pow2(remain as nat),
                    remain as nat,
                ));
            }
        }
        proof {
            lemma2_to64();
            lemma_pow2_pos(remain as nat);
            lemma_pow2_strictly_increases(remain as nat, 8);
            vstd::bits::lemma_u64_shl_is_mul(1, remain as u64);
        }
        let low: u64 = bits % (1u64 << (remain as u64));
        self.put_within(low as u8, remain as u8);
    }

    /// Appends `n` ones, whole bytes at a time.
    pub fn put_ones(&mut self, n: u64)
        requires
            old(self).wf(),
        ensures
            final(self).wf(),
            final(self)@ == old(self)@ + repeat_bit(true, n as nat),
    {
        let ghost before = self@;
        let fill: u64 = 8 - self.bit_pos as u64;
        let start: u64 = if n < fill {
            n
        } else {
            fill
        };
        proof {
            lemma2_to64();
            lemma_nat_bits_ones(start as nat);
            vstd::bits::lemma_u64_shl_is_mul(1, start);
            if start < 8 {
                lemma_pow2_strictly_increases(start as nat, 8);
            }
        }
        self.put_within(((1u64 << start) - 1) as u8, start as u8);
        if n < fill {
            return ;
        }
        let mut left: u64 = n - fill;
        while left >= 8
            invariant
                self.wf(),
                self.bit_pos == 0,
                left <= n,
                self@ == before + repeat_bit(true, (n - left) as nat),
            decreases left,
        {
            let ghost mid = self@;
            proof {
                lemma2_to64();
                lemma_nat_bits_ones(8);
                lemma_bits_of_push(self.buffer@, 0xff);
                assert(self@ =~= bits_of(self.buffer@));
            }
            self.buffer.push(0xff);
            left = left - 8;
            proof {
                assert(self@ =~= bits_of(self.buffer@));
                assert(self@ =~= mid + repeat_bit(true, 8));
                assert(self@ =~= before + repeat_bit(true, (n - left) as nat));
            }
        }
        proof {
            lemma2_to64();
            lemma_nat_bits_ones(left as nat);
            vstd::bits::lemma_u64_shl_is_mul(1, left);
            lemma_pow2_strictly_increases(left as nat, 8);
        }
        self.put_within(((1u64 << left) - 1) as u8, left as u8);
        assert(self@ =~= before + repeat_bit(true, n as nat));
    }

    /// Appends one bit.
    pub fn put_bit(&mut self, bit: bool)
        requires
            old(self).wf(),
        ensures
            final(self).wf(),
            final(self)@ == old(self)@.push(bit),
    {
        proof {
            lemma2_to64();
        }
        let ghost before = self@;
        self.put(if bit { 1 } else { 0 }, 1);
        proof {
            let v: nat = if bit { 1 } else { 0 };
            assert(nat_bits(v, 1) =~= seq![bit]) by {
                assert(nat_bits(v / 2, 0) =~= Seq::<bool>::empty());
            }
            assert(self@ =~= before.push(bit));
        }
    }

    /// Number of bytes that the bits written so far occupy, a partial byte counted whole.
    pub fn byte_len(&self) -> (n: usize)
        requires
            self.wf(),
            self@.len() <= usize::MAX,
        ensures
            n == (self@.len() + 7) / 8,
    {
        proof {
            lemma_bits_of_len(self.buffer@);
            lemma_nat_bits_len(
                self.current_byte as nat / pow2((8 - self.bit_pos) as nat),
                self.bit_pos as nat,
            );
        }
        if self.bit_pos > 0 {
            self.buffer.len() + 1
        } else {
            self.buffer.len()
        }
    }

    /// Whether the bits written so far occupy more than `limit` bytes.
    pub fn exceeds(&self, limit: usize) -> (b: bool)
        requires
            self.wf(),
        ensures
            b == ((self@.len() + 7) / 8 > limit),
    {
        proof {
            lemma_bits_of_len(self.buffer@);
            lemma_nat_bits_len(
                self.current_byte as nat / pow2((8 - self.bit_pos) as nat),
                self.bit_pos as nat,
            );
        }
        self.buffer.len() > limit || (self.bit_pos > 0 && self.buffer.len() >= limit)
    }

    /// The bytes written, the last one completed by zero bits.
    pub fn finish(self) -> (out: Vec<u8>)
        requires
            self.wf(),
        ensures
            out@ == pack(self@),
    {
        let mut out: Vec<u8> = self.buffer;
        proof {
            lemma_bits_of_len(self.buffer@);
            lemma_nat_bits_len(
                self.current_byte as nat / pow2((8 - self.bit_pos) as nat),
                self.bit_pos as nat,
            );
            if self.bit_pos == 0 {
                assert(pad8(self@) =~= bits_of(self.buffer@));
            }
        }
        if self.bit_pos > 0 {
            proof {
                let f = (8 - self.bit_pos) as nat;
                let c = self.current_byte as nat / pow2(f);
                lemma_pow2_pos(f);
                vstd::arithmetic::div_mod::lemma_fundamental_div_mod(
                    self.current_byte as int,
                    pow2(f) as int,
                );
                vstd::arithmetic::mul::lemma_mul_is_commutative(c as int, pow2(f) as int);
                lemma_nat_bits_split(c, 0, self.bit_pos as nat, f);
                lemma_nat_bits_zero(f);
                lemma_bits_of_push(self.buffer@, self.current_byte);
                assert(pad8(self@) =~= bits_of(self.buffer@) + nat_bits(
                    self.current_byte as nat,
                    8,
                ));
            }
            out.push(self.current_byte);
        }
        proof {
            lemma_pack_unique(out@, self@);
        }
        out
    }
}

/// Placing `n` bits below the `c` of a byte whose low bits are free.
proof fn lemma_place_bits(cur: nat, c: nat, bits: nat, pn: nat, ps: nat, pf: nat, pp: nat)
    by (nonlinear_arith)
    requires
        cur == pf * c,
        cur < 256,
        bits < pn,
        pn * ps == pf,
        pp * pf == 256,
        ps > 0,
    ensures
        bits * ps < 256,
        cur + bits * ps < 256,
        cur + bits * ps == (c * pn + bits) * ps,
{
    assert(c < pp);
    assert(c * pf + pf <= pp * pf);
    assert(bits * ps + ps <= pn * ps);
    assert((c * pn + bits) * ps == c * (pn * ps) + bits * ps);
}

/// A number of `a + b` bits is its top `a` bits followed by its low `b` bits.
proof fn lemma_take_top(v: nat, a: nat, b: nat)
    requires
        v < pow2(a + b),
    ensures
        v / pow2(b) < pow2(a),
        nat_bits(v, a + b) == nat_bits(v / pow2(b), a) + nat_bits(v % pow2(b), b),
{
    lemma_pow2_adds(a, b);
    lemma_pow2_pos(b);
    let q = v / pow2(b);
    let r = v % pow2(b);
    vstd::arithmetic::div_mod::lemma_fundamental_div_mod(v as int, pow2(b) as int);
    assert(q < pow2(a)) by (nonlinear_arith)
        requires
            v < pow2(a) * pow2(b),
            v == pow2(b) * q + r,
            r >= 0,
            pow2(b) > 0,
    ;
    lemma_nat_bits_split(q, r, a, b);
    vstd::arithmetic::mul::lemma_mul_is_commutative(q as int, pow2(b) as int);
}

/// The low `a + b` bits of `v` are its next `a` bits above its low `b` bits.
pub proof fn lemma_split_low(v: nat, a: nat, b: nat)
    ensures
        v % pow2(a + b) == ((v / pow2(b)) % pow2(a)) * pow2(b) + v % pow2(b),
{
    lemma_pow2_adds(a, b);
    lemma_pow2_pos(a);
    lemma_pow2_pos(b);
    vstd::arithmetic::div_mod::lemma_breakdown(v as int, pow2(b) as int, pow2(a) as int);
    vstd::arithmetic::mul::lemma_mul_is_commutative(pow2(a) as int, pow2(b) as int);
    vstd::arithmetic::mul::lemma_mul_is_commutative(
        ((v / pow2(b)) % pow2(a)) as int,
        pow2(b) as int,
    );
}

/// Two byte strings with the same bits are equal.
pub proof fn lemma_bits_of_injective(a: Seq<u8>, b: Seq<u8>)
    requires
        bits_of(a) == bits_of(b),
    ensures
        a == b,
    decreases a.len(),
{
    lemma_bits_of_len(a);
    lemma_bits_of_len(b);
    if a.len() > 0 {
        let x = bits_of(a.drop_last());
        let y = bits_of(b.drop_last());
        lemma_bits_of_len(a.drop_last());
        lemma_bits_of_len(b.drop_last());
        lemma_nat_bits_len(a.last() as nat, 8);
        lemma_nat_bits_len(b.last() as nat, 8);
        assert(x =~= bits_of(a).take(x.len() as int));
        assert(y =~= bits_of(b).take(x.len() as int));
        lemma_bits_of_injective(a.drop_last(), b.drop_last());
        assert(nat_bits(a.last() as nat, 8) =~= bits_of(a).skip(x.len() as int));
        assert(nat_bits(b.last() as nat, 8) =~= bits_of(b).skip(x.len() as int));
        lemma2_to64();
        lemma_nat_bits_injective(a.last() as nat, b.last() as nat, 8);
        assert(a =~= a.drop_last().push(a.last()));
        assert(b =~= b.drop_last().push(b.last()));
    }
    assert(a =~= b);
}

pub proof fn lemma_nat_bits_injective(a: nat, b: nat, n: nat)
    requires
        a < pow2(n),
        b < pow2(n),
        nat_bits(a, n) == nat_bits(b, n),
    ensures
        a == b,
    decreases n,
{
    lemma2_to64();
    if n > 0 {
        lemma_pow2_unfold(n);
        let x = nat_bits(a, n);
        let y = nat_bits(b, n);
        assert(x.drop_last() =~= nat_bits(a / 2, (n - 1) as nat));
        assert(y.drop_last() =~= nat_bits(b / 2, (n - 1) as nat));
        lemma_nat_bits_injective(a / 2, b / 2, (n - 1) as nat);
        assert(x.last() == (a % 2 == 1));
        assert(y.last() == (b % 2 == 1));
    }
}

/// A byte string with the bits of `s`, zeros behind, is `pack(s)`.
pub proof fn lemma_pack_unique(b: Seq<u8>, s: Seq<bool>)
    requires
        bits_of(b) == pad8(s),
    ensures
        pack(s) == b,
{
    lemma_bits_of_injective(pack(s), b);
}

/// Every bit sequence can be packed: [`pack`] loses nothing.
pub proof fn lemma_pack(s: Seq<bool>)
    ensures
        bits_of(pack(s)) == pad8(s),
        pack(s).len() == (s.len() + 7) / 8,
{
    lemma_pack_exists(pad8(s));
    let b = choose|b: Seq<u8>| #[trigger] bits_of(b) == pad8(s);
    lemma_bits_of_len(pack(s));
}

proof fn lemma_pack_exists(s: Seq<bool>)
    requires
        s.len() % 8 == 0,
    ensures
        exists|b: Seq<u8>| bits_of(b) == s,
    decreases s.len(),
{
    if s.len() == 0 {
        assert(bits_of(Seq::<u8>::empty()) =~= s);
    } else {
        let head = s.take(s.len() - 8);
        lemma_pack_exists(head);
        let b = choose|b: Seq<u8>| #[trigger] bits_of(b) == head;
        let tail = s.skip(s.len() - 8);
        let v = bits_val(tail, 0, 8);
        lemma_bits_val(tail, 0, 8);
        lemma2_to64();
        lemma_bits_of_push(b, v as u8);
        assert(tail =~= tail.subrange(0, 8));
        assert(s =~= head + tail);
        assert(bits_of(b.push(v as u8)) == s);
    }
}

/// `bits_val` undoes `nat_bits`.
pub proof fn lemma_bits_val(s: Seq<bool>, p: nat, n: nat)
    requires
        p + n <= s.len(),
    ensures
        bits_val(s, p, n) < pow2(n),
        nat_bits(bits_val(s, p, n), n) == s.subrange(p as int, (p + n) as int),
    decreases n,
{
    lemma2_to64();
    if n > 0 {
        lemma_bits_val(s, p, (n - 1) as nat);
        lemma_pow2_unfold(n);
        let v = bits_val(s, p, n);
        assert(v / 2 == bits_val(s, p, (n - 1) as nat));
        assert(s.subrange(p as int, (p + n) as int) =~= s.subrange(
            p as int,
            (p + n - 1) as int,
        ).push(s[p + n - 1]));
    } else {
        assert(s.subrange(p as int, p as int) =~= Seq::<bool>::empty());
    }
}

/// Reading back a number written with `n` bits.
pub proof fn lemma_read_nat(s: Seq<bool>, p: nat, v: nat, n: nat)
    requires
        v < pow2(n),
        holds_at(s, p, nat_bits(v, n)),
    ensures
        bits_val(s, p, n) == v,
        p + n <= s.len(),
{
    lemma_nat_bits_len(v, n);
    lemma_bits_val(s, p, n);
    lemma_nat_bits_injective(bits_val(s, p, n), v, n);
}

/// Reading back a run of ones and the zero behind it.
pub proof fn lemma_read_ones(s: Seq<bool>, p: nat, q: nat)
    requires
        holds_at(s, p, repeat_bit(true, q).push(false)),
    ensures
        ones_at(s, p) == q,
    decreases q,
{
    let code = repeat_bit(true, q).push(false);
    let sub = s.subrange(p as int, (p + code.len()) as int);
    assert(sub[0] == code[0]);
    assert(s[p as int] == sub[0]);
    if q > 0 {
        let c1 = repeat_bit(true, (q - 1) as nat).push(false);
        assert(s.subrange((p + 1) as int, (p + 1 + c1.len()) as int) =~= c1) by {
            assert forall|i: int| 0 <= i < c1.len() implies s[p + 1 + i] == c1[i] by {
                assert(sub[i + 1] == code[i + 1]);
            }
        }
        lemma_read_ones(s, p + 1, (q - 1) as nat);
    }
}

/// Reading back a run of zeros and the one behind it.
pub proof fn lemma_read_zeros(s: Seq<bool>, p: nat, z: nat, cap: nat)
    requires
        z < cap,
        p + z < s.len(),
        forall|i: int| p <= i < p + z ==> !s[i],
        s[(p + z) as int],
    ensures
        zeros_at(s, p, cap) == z,
    decreases z,
{
    if z > 0 {
        lemma_read_zeros(s, p + 1, (z - 1) as nat, (cap - 1) as nat);
    }
}

/// What stands in a stream at `p` also stands there in parts.
pub proof fn lemma_holds_split(s: Seq<bool>, p: nat, a: Seq<bool>, b: Seq<bool>)
    requires
        holds_at(s, p, a + b),
    ensures
        holds_at(s, p, a),
        holds_at(s, p + a.len(), b),
{
    let sub = s.subrange(p as int, (p + (a + b).len()) as int);
    assert(s.subrange(p as int, (p + a.len()) as int) =~= a) by {
        assert forall|i: int| 0 <= i < a.len() implies s[p + i] == a[i] by {
            assert(sub[i] == (a + b)[i]);
        }
    }
    assert(s.subrange((p + a.len()) as int, (p + a.len() + b.len()) as int) =~= b) by {
        assert forall|i: int| 0 <= i < b.len() implies s[p + a.len() + i] == b[i] by {
            assert(sub[a.len() + i] == (a + b)[a.len() + i]);
        }
    }
}

/// A packed stream holds its bits from position 0 on.
pub proof fn lemma_packed_holds(code: Seq<bool>)
    ensures
        holds_at(bits_of(pack(code)), 0, code),
        code.len() <= bits_of(pack(code)).len() < code.len() + 8,
{
    lemma_pack(code);
    assert(pad8(code).subrange(0, code.len() as int) =~= code);
}

/// Walks along the bits of a byte string; behind the end it reads zeros.
pub struct BitReader<'a> {
    data: &'a [u8],
    byte_pos: usize,
    bit_pos: u8,
}

impl<'a> BitReader<'a> {
    pub closed spec fn wf(&self) -> bool {
        &&& self.bit_pos < 8
        &&& self.byte_pos <= self.data@.len()
        &&& self.byte_pos == self.data@.len() ==> self.bit_pos == 0
    }

    /// The stream.
    pub closed spec fn bits(&self) -> Seq<bool> {
        bits_of(self.data@)
    }

    /// The position of the next bit.
    pub closed spec fn pos(&self) -> nat {
        (8 * self.byte_pos + self.bit_pos) as nat
    }

    pub proof fn lemma_pos(&self)
        requires
            self.wf(),
        ensures
            self.pos() <= self.bits().len(),
            self.bits().len() % 8 == 0,
    {
        lemma_bits_of_len(self.data@);
    }

    /// A reader at the start of `data`.
    pub fn new(data: &'a [u8]) -> (r: BitReader<'a>)
        ensures
            r.wf(),
            r.bits() == bits_of(data@),
            r.pos() == 0,
    {
        BitReader { data, byte_pos: 0, bit_pos: 0 }
    }

    /// Whether a byte is left, or a part of one.
    pub fn has_remaining(&self) -> (b: bool)
        requires
            self.wf(),
        ensures
            b == (self.pos() < self.bits().len()),
    {
        proof {
            lemma_bits_of_len(self.data@);
        }
        self.byte_pos < self.data.len()
    }

    /// The number of bytes that reading has entered.
    pub fn bytes_used(&self) -> (n: usize)
        requires
            self.wf(),
        ensures
            n == (self.pos() + 7) / 8,
            8 * n <= self.bits().len(),
    {
        proof {
            lemma_bits_of_len(self.data@);
        }
        if self.byte_pos < self.data.len() && self.bit_pos > 0 {
            self.byte_pos + 1
        } else {
            self.byte_pos
        }
    }

    /// Reads one bit.
    pub fn read_bit(&mut self) -> (bit: bool)
        requires
            old(self).wf(),
        ensures
            final(self).wf(),
            final(self).bits() == old(self).bits(),
            bit == bit_at(old(self).bits(), old(self).pos()),
            final(self).pos() == step(old(self).bits(), old(self).pos(), 1),
    {
        proof {
            lemma_bits_of_len(self.data@);
        }
        if self.byte_pos >= self.data.len() {
            return false;
        }
        let byte: u8 = self.data[self.byte_pos];
        let sh: u8 = 7 - self.bit_pos;
        proof {
            lemma_bits_of_index(self.data@, self.pos() as int);
            lemma_nat_bits_index(byte as nat, 8, self.bit_pos as int);
            vstd::bits::lemma_u8_shr_is_div(byte, sh);
            let x = byte >> sh;
            assert(x & 1 == x % 2) by (bit_vector);
        }
        let bit: bool = (byte >> sh) & 1 == 1;
        self.bit_pos = self.bit_pos + 1;
        if self.bit_pos >= 8 {
            self.byte_pos = self.byte_pos + 1;
            self.bit_pos = 0;
        }
        bit
    }

    /// Counts the one bits up to the next zero, and reads past that zero.
    pub fn read_ones(&mut self) -> (q: u32)
        requires
            old(self).wf(),
        ensures
            final(self).wf(),
            final(self).bits() == old(self).bits(),
            q as nat == ones_at(old(self).bits(), old(self).pos()) % 0x1_0000_0000,
            final(self).pos() == step(
                old(self).bits(),
                old(self).pos(),
                ones_at(old(self).bits(), old(self).pos()) + 1,
            ),
    {
        let mut q: u32 = 0;
        let ghost s = self.bits();
        let ghost p0 = self.pos();
        let ghost n: nat = 0;
        proof {
            self.lemma_pos();
        }
        loop
            invariant_except_break
                self.wf(),
                self.bits() == s,
                self.pos() == p0 + n,
                p0 + n <= s.len(),
                ones_at(s, p0) == n + ones_at(s, p0 + n),
                q as nat == n % 0x1_0000_0000,
            ensures
                self.wf(),
                self.bits() == s,
                q as nat == ones_at(s, p0) % 0x1_0000_0000,
                self.pos() == step(s, p0, ones_at(s, p0) + 1),
            decreases s.len() - n,
        {
            let bit: bool = self.read_bit();
            if !bit {
                break;
            }
            proof {
                n = n + 1;
            }
            q = q.wrapping_add(1);
        }
        q
    }

    /// Counts the zero bits up to the next one, at most `cap` of them, and reads past that one.
    pub fn read_zeros(&mut self, cap: u32) -> (m: u32)
        requires
            old(self).wf(),
        ensures
            final(self).wf(),
            final(self).bits() == old(self).bits(),
            m as nat == zeros_at(old(self).bits(), old(self).pos(), cap as nat),
            m <= cap,
            m == cap ==> final(self).pos() == step(
                old(self).bits(),
                old(self).pos(),
                cap as nat,
            ),
            m < cap ==> final(self).pos() == step(old(self).bits(), old(self).pos(), m as nat + 1)
                && old(self).pos() + m < old(self).bits().len(),
    {
        let mut m: u32 = 0;
        let ghost s = self.bits();
        let ghost p0 = self.pos();
        proof {
            self.lemma_pos();
        }
        while m < cap
            invariant
                self.wf(),
                self.bits() == s,
                m <= cap,
                s == old(self).bits(),
                p0 == old(self).pos(),
                p0 <= s.len(),
                self.pos() == step(s, p0, m as nat),
                zeros_at(s, p0, cap as nat) == m + zeros_at(s, p0 + m as nat, (cap - m) as nat),
            decreases cap - m,
        {
            let bit: bool = self.read_bit();
            if bit {
                return m;
            }
            m = m + 1;
        }
        m
    }

    /// Shifts the next `count` bits into the low end of `acc`.
    pub fn read_onto(&mut self, acc: u32, count: u32) -> (v: u32)
        requires
            old(self).wf(),
        ensures
            final(self).wf(),
            final(self).bits() == old(self).bits(),
            v as nat == (acc as nat * pow2(count as nat) + bits_val(
                old(self).bits(),
                old(self).pos(),
                count as nat,
            )) % 0x1_0000_0000,
            final(self).pos() == step(old(self).bits(), old(self).pos(), count as nat),
    {
        let mut v: u32 = acc;
        let mut i: u32 = 0;
        let ghost s = self.bits();
        let ghost p0 = self.pos();
        proof {
            self.lemma_pos();
            lemma2_to64();
        }
        while i < count
            invariant
                self.wf(),
                self.bits() == s,
                i <= count,
                p0 <= s.len(),
                self.pos() == step(s, p0, i as nat),
                v as nat == (acc as nat * pow2(i as nat) + bits_val(s, p0, i as nat))
                    % 0x1_0000_0000,
            decreases count - i,
        {
            let ghost x = acc as nat * pow2(i as nat) + bits_val(s, p0, i as nat);
            let bit: bool = self.read_bit();
            let b: u32 = if bit { 1 } else { 0 };
            v = v.wrapping_mul(2).wrapping_add(b);
            proof {
                lemma_pow2_unfold((i + 1) as nat);
                assert(acc as nat * pow2((i + 1) as nat) == 2 * (acc as nat * pow2(i as nat)))
                    by (nonlinear_arith)
                    requires
                        pow2((i + 1) as nat) == 2 * pow2(i as nat),
                ;
                assert(bits_val(s, p0, (i + 1) as nat) == 2 * bits_val(s, p0, i as nat) + b);
                assert(v as nat == (2 * x + b) % 0x1_0000_0000);
            }
            i = i + 1;
        }
        v
    }
}

} // verus!

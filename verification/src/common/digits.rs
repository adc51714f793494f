//! Byte strings as numbers in base 256, most significant byte first.

use vstd::prelude::*;

verus! {

/// `256^n`.
pub open spec fn p256(n: nat) -> nat
    decreases n,
{
    if n == 0 {
        1
    } else {
        256 * p256((n - 1) as nat)
    }
}

/// The number that a byte string spells.
pub open spec fn be_val(s: Seq<u8>) -> nat
    decreases s.len(),
{
    if s.len() == 0 {
        0
    } else {
        256 * be_val(s.drop_last()) + s.last() as nat
    }
}

/// The `n` low digits of `v`.
pub open spec fn be_bytes(v: nat, n: nat) -> Seq<u8>
    decreases n,
{
    if n == 0 {
        Seq::empty()
    } else {
        be_bytes(v / 256, (n - 1) as nat).push((v % 256) as u8)
    }
}

/// Byte `i` of a byte string; there are only zeros behind its end.
pub open spec fn byte_at(s: Seq<u8>, i: nat) -> nat {
    if i < s.len() {
        s[i as int] as nat
    } else {
        0
    }
}

pub proof fn lemma_p256_pos(n: nat)
    ensures
        p256(n) >= 1,
    decreases n,
{
    if n > 0 {
        lemma_p256_pos((n - 1) as nat);
    }
}

pub proof fn lemma_p256_add(a: nat, b: nat)
    ensures
        p256(a + b) == p256(a) * p256(b),
    decreases b,
{
    if b == 0 {
        assert(p256(a) * 1 == p256(a));
    } else {
        let b1 = (b - 1) as nat;
        lemma_p256_add(a, b1);
        assert(p256(a + b) == 256 * p256(a + b1));
        assert(p256(a) * (256 * p256(b1)) == 256 * (p256(a) * p256(b1))) by (nonlinear_arith);
    }
}

pub proof fn lemma_be_bytes_len(v: nat, n: nat)
    ensures
        be_bytes(v, n).len() == n,
    decreases n,
{
    if n > 0 {
        lemma_be_bytes_len(v / 256, (n - 1) as nat);
    }
}

pub proof fn lemma_be_val_bound(s: Seq<u8>)
    ensures
        be_val(s) < p256(s.len()),
    decreases s.len(),
{
    if s.len() > 0 {
        lemma_be_val_bound(s.drop_last());
    }
}

/// A byte string is the digits of the number that it spells.
pub proof fn lemma_be_bytes_of_val(s: Seq<u8>)
    ensures
        be_bytes(be_val(s), s.len()) == s,
    decreases s.len(),
{
    if s.len() > 0 {
        lemma_be_bytes_of_val(s.drop_last());
        let v = be_val(s);
        assert(v / 256 == be_val(s.drop_last()));
        assert(v % 256 == s.last() as nat);
        assert(s.drop_last().push(s.last()) =~= s);
    } else {
        assert(s =~= Seq::<u8>::empty());
    }
}

/// Digit `i` of `n` digits has the weight `256^(n-1-i)`.
pub proof fn lemma_be_bytes_digit(v: nat, n: nat, i: nat)
    requires
        i < n,
    ensures
        be_bytes(v, n).len() == n,
        byte_at(be_bytes(v, n), i) == (v / p256((n - 1 - i) as nat)) % 256,
    decreases n,
{
    lemma_be_bytes_len(v, n);
    lemma_be_bytes_len(v / 256, (n - 1) as nat);
    if i == n - 1 {
        assert(v / 1 == v);
    } else {
        lemma_be_bytes_digit(v / 256, (n - 1) as nat, i);
        let e = (n - 2 - i) as nat;
        lemma_p256_pos(e);
        vstd::arithmetic::div_mod::lemma_div_denominator(v as int, 256, p256(e) as int);
        assert((n - 1 - i) as nat == e + 1);
        assert(p256(e + 1) == 256 * p256(e));
    }
}

/// Taking one more digit.
pub proof fn lemma_next_digit(v: nat, e: nat)
    ensures
        v / p256(e) == 256 * (v / p256(e + 1)) + (v / p256(e)) % 256,
{
    lemma_p256_pos(e);
    lemma_p256_pos(e + 1);
    assert(p256(e + 1) == p256(e) * 256) by (nonlinear_arith)
        requires
            p256(e + 1) == 256 * p256(e),
    ;
    vstd::arithmetic::div_mod::lemma_div_denominator(v as int, p256(e) as int, 256);
    let x = v / p256(e);
    assert(v / p256(e + 1) == x / 256);
    assert(x == 256 * (x / 256) + x % 256);
}

} // verus!

//! The CRC-32 checksum (IEEE 802.3, reflected).

use vstd::prelude::*;

verus! {

/// The generator polynomial, reflected.
pub const POLY: u32 = 0xEDB8_8320;

/// Divides by the polynomial for one bit.
pub open spec fn crc_bit(c: u32) -> u32 {
    if c & 1 == 1 {
        (c >> 1u32) ^ POLY
    } else {
        c >> 1u32
    }
}

/// `n` bits.
pub open spec fn crc_bits(c: u32, n: nat) -> u32
    decreases n,
{
    if n == 0 {
        c
    } else {
        crc_bit(crc_bits(c, (n - 1) as nat))
    }
}

/// The register after the bytes of `s`, started from all ones.
pub open spec fn crc_reg(s: Seq<u8>) -> u32
    decreases s.len(),
{
    if s.len() == 0 {
        0xffff_ffff
    } else {
        crc_bits(crc_reg(s.drop_last()) ^ (s.last() as u32), 8)
    }
}

/// The checksum of `s`: the register, complemented.
pub open spec fn crc32_spec(s: Seq<u8>) -> u32 {
    crc_reg(s) ^ 0xffff_ffff
}

fn crc_byte(c: u32, b: u8) -> (r: u32)
    ensures
        r == crc_bits(c ^ (b as u32), 8),
{
    let mut r: u32 = c ^ (b as u32);
    let ghost r0 = r;
    let mut i: u32 = 0;
    while i < 8
        invariant
            i <= 8,
            r == crc_bits(r0, i as nat),
        decreases 8 - i,
    {
        r = if r & 1 == 1 {
            (r >> 1u32) ^ POLY
        } else {
            r >> 1u32
        };
        i = i + 1;
    }
    r
}

/// The checksum of `data`.
pub fn crc32(data: &[u8]) -> (c: u32)
    ensures
        c == crc32_spec(data@),
{
    let mut c: u32 = 0xffff_ffff;
    let mut i: usize = 0;
    while i < data.len()
        invariant
            i <= data@.len(),
            c == crc_reg(data@.take(i as int)),
        decreases data@.len() - i,
    {
        proof {
            assert(data@.take(i + 1).drop_last() =~= data@.take(i as int));
        }
        c = crc_byte(c, data[i]);
        i = i + 1;
    }
    assert(data@.take(i as int) =~= data@);
    c ^ 0xffff_ffff
}

proof fn lemma_bit_differs(a: u32, b: u32)
    requires
        a != b,
    ensures
        crc_bit(a) != crc_bit(b),
{
    assert(a != b ==> (if a & 1 == 1 {
        (a >> 1u32) ^ 0xEDB8_8320u32
    } else {
        a >> 1u32
    }) != (if b & 1 == 1 {
        (b >> 1u32) ^ 0xEDB8_8320u32
    } else {
        b >> 1u32
    })) by (bit_vector);
}

proof fn lemma_bits_differ(a: u32, b: u32, n: nat)
    requires
        a != b,
    ensures
        crc_bits(a, n) != crc_bits(b, n),
    decreases n,
{
    if n > 0 {
        lemma_bits_differ(a, b, (n - 1) as nat);
        lemma_bit_differs(crc_bits(a, (n - 1) as nat), crc_bits(b, (n - 1) as nat));
    }
}

proof fn lemma_xor_differs(a: u32, b: u32, x: u32, y: u32)
    requires
        (a == b) != (x == y),
    ensures
        a ^ x != b ^ y,
{
    assert((a == b) != (x == y) ==> a ^ x != b ^ y) by (bit_vector);
}

proof fn lemma_reg_differs(s: Seq<u8>, i: int, v: u8, n: int)
    requires
        0 <= i < s.len(),
        s[i] != v,
        0 <= n <= s.len(),
    ensures
        (crc_reg(s.take(n)) == crc_reg(s.update(i, v).take(n))) <==> n <= i,
    decreases n,
{
    let t = s.update(i, v);
    if n == 0 {
        assert(s.take(0) =~= t.take(0));
    } else {
        lemma_reg_differs(s, i, v, n - 1);
        assert(s.take(n).drop_last() =~= s.take(n - 1));
        assert(t.take(n).drop_last() =~= t.take(n - 1));
        let (a, b) = (crc_reg(s.take(n - 1)), crc_reg(t.take(n - 1)));
        let (x, y) = (s[n - 1] as u32, t[n - 1] as u32);
        if n <= i {
            assert(s.take(n) =~= t.take(n));
        } else {
            lemma_xor_differs(a, b, x, y);
            lemma_bits_differ(a ^ x, b ^ y, 8);
        }
    }
}

/// A checksum tells if a byte has changed, whichever it is.
pub proof fn law_changed_byte(s: Seq<u8>, i: int, v: u8)
    requires
        0 <= i < s.len(),
        s[i] != v,
    ensures
        crc32_spec(s.update(i, v)) != crc32_spec(s),
{
    let n = s.len() as int;
    lemma_reg_differs(s, i, v, n);
    assert(s.take(n) =~= s);
    assert(s.update(i, v).take(n) =~= s.update(i, v));
    let (a, b) = (crc_reg(s), crc_reg(s.update(i, v)));
    lemma_xor_differs(a, b, 0xffff_ffff, 0xffff_ffff);
}

} // verus!

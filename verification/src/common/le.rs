//! Little-endian integers in byte strings.

use vstd::prelude::*;

verus! {

/// The two bytes of `x`, low byte first.
pub open spec fn le16(x: u16) -> Seq<u8> {
    seq![(x % 256) as u8, (x / 256) as u8]
}

/// The four bytes of `x`, low byte first.
pub open spec fn le32(x: u32) -> Seq<u8> {
    seq![
        (x % 256) as u8,
        ((x / 0x100) % 256) as u8,
        ((x / 0x1_0000) % 256) as u8,
        (x / 0x100_0000) as u8,
    ]
}

/// The number in the two bytes of `s` from `at` on.
pub open spec fn le16_at(s: Seq<u8>, at: int) -> nat {
    s[at] as nat + 256 * s[at + 1] as nat
}

/// The number in the four bytes of `s` from `at` on.
pub open spec fn le32_at(s: Seq<u8>, at: int) -> nat {
    s[at] as nat + 0x100 * s[at + 1] as nat + 0x1_0000 * s[at + 2] as nat + 0x100_0000 * s[at
        + 3] as nat
}

/// A number written with [`le16`] reads back.
pub proof fn lemma_le16(s: Seq<u8>, at: int, x: u16)
    requires
        0 <= at,
        at + 2 <= s.len(),
        s.subrange(at, at + 2) == le16(x),
    ensures
        le16_at(s, at) == x,
{
    let t = s.subrange(at, at + 2);
    assert(t[0] == s[at] && t[1] == s[at + 1]);
}

/// A number written with [`le32`] reads back.
pub proof fn lemma_le32(s: Seq<u8>, at: int, x: u32)
    requires
        0 <= at,
        at + 4 <= s.len(),
        s.subrange(at, at + 4) == le32(x),
    ensures
        le32_at(s, at) == x,
{
    let t = s.subrange(at, at + 4);
    assert(t[0] == s[at] && t[1] == s[at + 1] && t[2] == s[at + 2] && t[3] == s[at + 3]);
}

/// A number read with [`le32_at`] is written back as the bytes it was read from.
pub proof fn lemma_le32_back(s: Seq<u8>, at: int)
    requires
        0 <= at,
        at + 4 <= s.len(),
    ensures
        le32_at(s, at) <= u32::MAX,
        le32(le32_at(s, at) as u32) == s.subrange(at, at + 4),
{
    let (a, b, c, d) = (s[at] as int, s[at + 1] as int, s[at + 2] as int, s[at + 3] as int);
    let z = c + 256 * d;
    let y = b + 256 * z;
    let x = le32_at(s, at) as int;
    assert(x == a + 256 * y);
    lemma_low_byte(a, y);
    lemma_low_byte(b, z);
    lemma_low_byte(c, d);
    vstd::arithmetic::div_mod::lemma_div_denominator(x, 256, 256);
    vstd::arithmetic::div_mod::lemma_div_denominator(x, 0x1_0000, 256);
    assert(x / 0x100 == y && x / 0x1_0000 == z && x / 0x100_0000 == d);
    let t = le32(x as u32);
    assert(t[0] == a && t[1] == b && t[2] == c && t[3] == d);
    assert(t =~= s.subrange(at, at + 4));
}

proof fn lemma_low_byte(a: int, y: int)
    requires
        0 <= a < 256,
    ensures
        (a + 256 * y) % 256 == a,
        (a + 256 * y) / 256 == y,
{
}

/// Appends `x` in two bytes.
pub fn put_le16(out: &mut Vec<u8>, x: u16)
    ensures
        final(out)@ == old(out)@ + le16(x),
{
    out.push((x % 256) as u8);
    out.push((x / 256) as u8);
    assert(out@ =~= old(out)@ + le16(x));
}

/// Appends `x` in four bytes.
pub fn put_le32(out: &mut Vec<u8>, x: u32)
    ensures
        final(out)@ == old(out)@ + le32(x),
{
    out.push((x % 256) as u8);
    out.push(((x / 0x100) % 256) as u8);
    out.push(((x / 0x1_0000) % 256) as u8);
    out.push((x / 0x100_0000) as u8);
    assert(out@ =~= old(out)@ + le32(x));
}

/// Reads two bytes.
pub fn get_le16(s: &[u8], at: usize) -> (x: u16)
    requires
        at + 2 <= s@.len(),
    ensures
        x == le16_at(s@, at as int),
{
    s[at] as u16 + 256 * s[at + 1] as u16
}

/// Reads four bytes.
pub fn get_le32(s: &[u8], at: usize) -> (x: u32)
    requires
        at + 4 <= s@.len(),
    ensures
        x == le32_at(s@, at as int),
{
    s[at] as u32 + 0x100 * s[at + 1] as u32 + 0x1_0000 * s[at + 2] as u32 + 0x100_0000 * s[at
        + 3] as u32
}

/// Appends the bytes of `t`.
pub fn put_bytes(out: &mut Vec<u8>, t: &[u8])
    ensures
        final(out)@ == old(out)@ + t@,
{
    out.extend_from_slice(t);
    assert(out@ =~= old(out)@ + t@);
}

} // verus!

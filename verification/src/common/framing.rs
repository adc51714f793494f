//! Byte strings one behind the other, each behind its length.

use vstd::prelude::*;
use crate::common::error;
use crate::common::error::{short, CrfResult, Fault};
use crate::common::le;
use crate::common::le::{get_le32, put_bytes, put_le32};

verus! {

/// A byte string behind its length.
pub open spec fn part(p: Seq<u8>) -> Seq<u8> {
    le::le32(p.len() as u32) + p
}

/// Byte strings, each behind its length.
pub open spec fn framed(ps: Seq<Seq<u8>>) -> Seq<u8>
    decreases ps.len(),
{
    if ps.len() == 0 {
        Seq::empty()
    } else {
        framed(ps.drop_last()) + part(ps.last())
    }
}

/// The byte string at `off` in `data` and the offset behind it.
#[verifier::opaque]
pub open spec fn part_at(data: Seq<u8>, off: int) -> Result<(Seq<u8>, int), Fault> {
    if off + 4 > data.len() {
        Err(Fault::Short { expected: error::word(off + 4), actual: data.len() as int })
    } else {
        let n = le::le32_at(data, off);
        if off + 4 + n > data.len() {
            Err(Fault::Short { expected: error::word(off + 4 + n), actual: data.len() as int })
        } else {
            Ok((data.subrange(off + 4, off + 4 + n), off + 4 + n))
        }
    }
}

/// Appends a byte string behind its length.
pub fn put_part(out: &mut Vec<u8>, p: &[u8])
    ensures
        final(out)@ == old(out)@ + part(p@),
{
    put_le32(out, p.len() as u32);
    put_bytes(out, p);
    assert(out@ =~= old(out)@ + part(p@));
}

/// Reads the byte string at `off`, given by its first byte and the one behind its last.
pub fn get_part(data: &[u8], off: usize) -> (r: CrfResult<(usize, usize)>)
    requires
        off <= data@.len(),
    ensures
        match r {
            Ok((a, b)) => a == off + 4 && a <= b <= data@.len() && part_at(data@, off as int) == Ok::<
                (Seq<u8>, int),
                Fault,
            >((data@.subrange(a as int, b as int), b as int)),
            Err(e) => part_at(data@, off as int) == Err::<(Seq<u8>, int), Fault>(error::fault(e)),
        },
{
    reveal(part_at);
    let len: usize = data.len();
    if len - off < 4 {
        return Err(short(off, 4, len));
    }
    let n: usize = get_le32(data, off) as usize;
    if n > len - (off + 4) {
        return Err(short(off + 4, n, len));
    }
    Ok((off + 4, off + 4 + n))
}

pub proof fn lemma_framed_push(ps: Seq<Seq<u8>>, p: Seq<u8>)
    ensures
        framed(ps.push(p)) == framed(ps) + part(p),
{
    assert(ps.push(p).drop_last() =~= ps);
}

/// A byte string is no longer than all of them together.
pub proof fn lemma_framed_len(ps: Seq<Seq<u8>>, k: int)
    requires
        0 <= k < ps.len(),
    ensures
        ps[k].len() + 4 <= framed(ps).len(),
    decreases ps.len(),
{
    if k < ps.len() - 1 {
        lemma_framed_len(ps.drop_last(), k);
    }
}

/// A byte string behind its length reads back.
pub proof fn lemma_part(data: Seq<u8>, off: int, p: Seq<u8>)
    requires
        0 <= off,
        p.len() <= u32::MAX,
        off + 4 + p.len() <= data.len(),
        data.subrange(off, off + 4 + p.len()) == part(p),
    ensures
        part_at(data, off) == Ok::<(Seq<u8>, int), Fault>((p, off + 4 + p.len())),
{
    reveal(part_at);
    let s = data.subrange(off, off + 4 + p.len());
    assert(data.subrange(off, off + 4) =~= le::le32(p.len() as u32)) by {
        assert(s.subrange(0, 4) =~= le::le32(p.len() as u32));
        assert(data.subrange(off, off + 4) =~= s.subrange(0, 4));
    }
    le::lemma_le32(data, off, p.len() as u32);
    assert(data.subrange(off + 4, off + 4 + p.len()) =~= p) by {
        assert(s.subrange(4, 4 + p.len() as int) =~= p);
        assert(data.subrange(off + 4, off + 4 + p.len()) =~= s.subrange(4, 4 + p.len() as int));
    }
}

/// A byte string between others.
proof fn lemma_inner(head: Seq<u8>, f: Seq<u8>, p: Seq<u8>, tail: Seq<u8>)
    ensures
        head + (f + p) + tail == head + f + (p + tail),
        (head + (f + p) + tail).subrange(
            (head.len() + f.len()) as int,
            (head.len() + f.len() + p.len()) as int,
        ) == p,
{
    assert(head + (f + p) + tail =~= head + f + (p + tail));
    assert((head + (f + p) + tail).subrange(
        (head.len() + f.len()) as int,
        (head.len() + f.len() + p.len()) as int,
    ) =~= p);
}

/// Byte strings one behind the other read back in turn.
#[verifier::spinoff_prover]
pub proof fn lemma_framed(head: Seq<u8>, ps: Seq<Seq<u8>>, tail: Seq<u8>, k: int)
    requires
        0 <= k < ps.len(),
        (head + framed(ps) + tail).len() <= u32::MAX,
    ensures
        part_at(head + framed(ps) + tail, (head.len() + framed(ps.take(k)).len()) as int) == Ok::<
            (Seq<u8>, int),
            Fault,
        >((ps[k], (head.len() + framed(ps.take(k + 1)).len()) as int)),
    decreases ps.len(),
{
    let init = ps.drop_last();
    let (f, p) = (framed(init), part(ps.last()));
    assert(framed(ps) == f + p);
    lemma_inner(head, f, p, tail);
    if k < ps.len() - 1 {
        lemma_framed(head, init, p + tail, k);
        assert(init.take(k) =~= ps.take(k));
        assert(init.take(k + 1) =~= ps.take(k + 1));
    } else {
        assert(ps.take(k) =~= init);
        assert(ps.take(k + 1) =~= ps);
        lemma_part(head + framed(ps) + tail, (head.len() + f.len()) as int, ps[k]);
    }
}

/// Three byte strings one behind the other.
pub proof fn lemma_framed3(a: Seq<u8>, b: Seq<u8>, c: Seq<u8>)
    ensures
        framed(seq![a, b, c]) == part(a) + part(b) + part(c),
{
    let e = Seq::<Seq<u8>>::empty();
    lemma_framed_push(e, a);
    lemma_framed_push(e.push(a), b);
    lemma_framed_push(e.push(a).push(b), c);
    assert(e.push(a).push(b).push(c) =~= seq![a, b, c]);
    assert(framed(e) + part(a) =~= part(a));
}

/// A byte string behind its length reads back, whatever stands around it.
proof fn lemma_part_in(h: Seq<u8>, p: Seq<u8>, t: Seq<u8>)
    requires
        (h + part(p) + t).len() <= u32::MAX,
    ensures
        part_at(h + part(p) + t, h.len() as int) == Ok::<(Seq<u8>, int), Fault>(
            (p, h.len() + 4 + p.len() as int),
        ),
{
    let data = h + part(p) + t;
    assert(data.subrange(h.len() as int, h.len() + 4 + p.len() as int) =~= part(p));
    lemma_part(data, h.len() as int, p);
}

proof fn lemma_regrouped(h: Seq<u8>, x: Seq<u8>, y: Seq<u8>, z: Seq<u8>)
    ensures
        h + (x + y + z) == h + x + (y + z),
        h + (x + y + z) == h + x + y + z,
        h + (x + y + z) == h + x + y + z + Seq::<u8>::empty(),
        forall|i: int| 0 <= i < h.len() ==> #[trigger] (h + (x + y + z))[i] == h[i],
{
    assert(h + (x + y + z) =~= h + x + (y + z));
    assert(h + (x + y + z) =~= h + x + y + z);
    assert(h + (x + y + z) =~= h + x + y + z + Seq::<u8>::empty());
}

/// Three byte strings one behind the other read back.
#[verifier::spinoff_prover]
pub proof fn lemma_three(head: Seq<u8>, a: Seq<u8>, b: Seq<u8>, c: Seq<u8>)
    requires
        (head + framed(seq![a, b, c])).len() <= u32::MAX,
    ensures
        ({
            let data = head + framed(seq![a, b, c]);
            let p = head.len() + 4 + a.len() as int;
            let q = p + 4 + b.len() as int;
            let r = q + 4 + c.len() as int;
            &&& data.len() == r
            &&& forall|i: int| 0 <= i < head.len() ==> #[trigger] data[i] == head[i]
            &&& part_at(data, head.len() as int) == Ok::<(Seq<u8>, int), Fault>((a, p))
            &&& part_at(data, p) == Ok::<(Seq<u8>, int), Fault>((b, q))
            &&& part_at(data, q) == Ok::<(Seq<u8>, int), Fault>((c, r))
        }),
{
    lemma_framed3(a, b, c);
    let (x, y, z) = (part(a), part(b), part(c));
    lemma_regrouped(head, x, y, z);
    lemma_part_in(head, a, y + z);
    lemma_part_in(head + x, b, z);
    lemma_part_in(head + x + y, c, Seq::empty());
}

} // verus!

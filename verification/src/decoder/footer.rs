//! The checksum at the end of a file.

use vstd::prelude::*;
use crate::common::crc;
use crate::common::crc::crc32;
use crate::common::domain::FOOTER_SIZE;
use crate::common::error;
use crate::common::error::{CrfError, CrfResult, Fault};
use crate::common::le;
use crate::common::le::get_le32;
use crate::encoder::batch;

verus! {

/// What is wrong with the checksum of a file, if anything.
pub open spec fn checked(d: Seq<u8>) -> Option<Fault> {
    if d.len() < FOOTER_SIZE {
        Some(Fault::Short { expected: FOOTER_SIZE as int, actual: d.len() as int })
    } else {
        let expected = le::le32_at(d, d.len() - FOOTER_SIZE) as u32;
        let actual = crc::crc32_spec(d.take(d.len() - FOOTER_SIZE));
        if expected == actual {
            None
        } else {
            Some(Fault::Checksum { expected, actual })
        }
    }
}

/// Checks that the checksum of a file is that of its bytes.
pub fn verify_crc(data: &[u8]) -> (r: CrfResult<()>)
    ensures
        r is Ok <==> checked(data@) is None,
        r is Err ==> checked(data@) == Some(error::fault(r->Err_0)),
{
    let n: usize = data.len();
    if n < FOOTER_SIZE {
        return Err(CrfError::InsufficientData { expected: FOOTER_SIZE, actual: n });
    }
    let at: usize = n - FOOTER_SIZE;
    let expected: u32 = get_le32(data, at);
    let body: &[u8] = vstd::slice::slice_subrange(data, 0, at);
    assert(body@ =~= data@.take(at as int));
    let actual: u32 = crc32(body);
    if expected != actual {
        return Err(CrfError::CrcChecksumFailed { expected, actual });
    }
    Ok(())
}

/// Bytes with their checksum pass the check.
pub proof fn law_sealed_passes(d: Seq<u8>)
    ensures
        checked(batch::sealed(d)) is None,
{
    let s = batch::sealed(d);
    assert(s.len() == d.len() + 8);
    assert(s.take(d.len() as int) =~= d);
    let x = crc::crc32_spec(d);
    assert(s.subrange(d.len() as int, d.len() as int + 4) =~= le::le32(x));
    le::lemma_le32(s, d.len() as int, x);
}

/// A file of which one byte before the checksum has changed does not pass.
pub proof fn law_damage_shows(d: Seq<u8>, i: int, v: u8)
    requires
        0 <= i < d.len(),
        d[i] != v,
    ensures
        checked(batch::sealed(d).update(i, v)) is Some,
{
    let s = batch::sealed(d);
    let t = s.update(i, v);
    law_sealed_passes(d);
    crc::law_changed_byte(d, i, v);
    assert(s.take(d.len() as int) =~= d);
    assert(t.take(d.len() as int) =~= d.update(i, v));
    assert(le::le32_at(t, d.len() as int) == le::le32_at(s, d.len() as int));
}

} // verus!

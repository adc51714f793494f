//! Measures what predicted and transformed blocks would take, without writing a frame.

use vstd::prelude::*;
use crate::common::blocks;
use crate::common::coeff_syntax as cs;
use crate::common::error::{invalid, CrfResult};
use crate::common::intra8;
use crate::common::quant;
use crate::encoder::intra_transform as enc;
use crate::encoder::intra_transform::{at_least_one, encode_blocks, CodedBlocks};
use crate::encoder::rle_cabac;
use crate::encoder::rle_cabac::encode_frame_rle_cabac_adaptive;

verus! {

/// Number of block modes.
pub const N_MODES: usize = 4;

/// What [`encode_intra_probe`] finds.
pub struct ProbeOutput {
    /// Bytes of the coded modes and the coded levels.
    pub payload_bytes: usize,
    /// The plane as a decoder would rebuild it.
    pub recon: Vec<i32>,
    /// How many blocks chose each mode.
    pub mode_hist: Vec<usize>,
}

/// How often `m` comes among `modes`.
pub open spec fn count_mode(modes: Seq<i32>, m: int) -> nat
    decreases modes.len(),
{
    if modes.len() == 0 {
        0
    } else {
        count_mode(modes.drop_last(), m) + if modes.last() == m {
            1nat
        } else {
            0
        }
    }
}

fn histogram(modes: &Vec<i32>) -> (h: Vec<usize>)
    requires
        forall|i: int| 0 <= i < modes@.len() ==> 0 <= #[trigger] modes@[i] <= 3,
    ensures
        h@.len() == N_MODES,
        forall|m: int| 0 <= m < N_MODES ==> #[trigger] h@[m] == count_mode(modes@, m),
{
    let mut h: Vec<usize> = vec![0usize; N_MODES];
    let mut i: usize = 0;
    assert(modes@.take(0) =~= Seq::<i32>::empty());
    while i < modes.len()
        invariant
            forall|i: int| 0 <= i < modes@.len() ==> 0 <= #[trigger] modes@[i] <= 3,
            i <= modes@.len(),
            h@.len() == N_MODES,
            forall|m: int|
                0 <= m < N_MODES ==> #[trigger] h@[m] == count_mode(modes@.take(i as int), m)
                    && h@[m] <= i,
        decreases modes@.len() - i,
    {
        let n: usize = modes.len();
        let m: usize = modes[i] as usize;
        proof {
            assert(modes@.take(i + 1).drop_last() =~= modes@.take(i as int));
        }
        let c: usize = h[m];
        h.set(m, c + 1);
        i = i + 1;
    }
    assert(modes@.take(i as int) =~= modes@);
    h
}

/// Chooses modes and levels for a plane and counts the bytes that they take. Fails where the plane
/// does not have the samples that its size tells, or the bytes cannot be counted.
pub fn encode_intra_probe(
    plane: &Vec<i32>,
    width: usize,
    height: usize,
    q_step: u8,
    deadzone: i8,
) -> (r: CrfResult<ProbeOutput>)
    requires
        width <= 0xffff,
        height <= 0xffff,
        plane@.len() < u32::MAX,
    ensures
        ({
            let q = quant::at_least_one(q_step);
            let n = intra8::grid8(width as int, height as int).count() as nat;
            let (modes, zs) = enc::choices(
                plane@,
                width as int,
                height as int,
                q,
                deadzone as int,
                n,
            );
            let bytes = rle_cabac::cabac_body(modes, Some((width / 8) as usize)).len()
                + cs::coeff_bytes(zs).len();
            let sized = width > 0 && height > 0 && plane@.len() == width * height;
            &&& r is Ok <==> sized && bytes <= usize::MAX
            &&& r is Ok ==> ({
                let o = r->Ok_0;
                &&& o.payload_bytes == bytes
                &&& o.recon@ == intra8::rebuilt(
                    modes,
                    zs,
                    q,
                    width as int,
                    height as int,
                    n,
                )
                &&& o.mode_hist@.len() == N_MODES
                &&& forall|m: int|
                    0 <= m < N_MODES ==> #[trigger] o.mode_hist@[m] == count_mode(modes, m)
            })
            &&& r is Err ==> r->Err_0 is InvalidCodingParams
        }),
{
    let total: usize = plane.len();
    if width == 0 || height == 0 {
        return Err(invalid("empty plane"));
    }
    proof {
        assert(width * height <= 0xffff * 0xffff) by (nonlinear_arith)
            requires
                width <= 0xffff,
                height <= 0xffff,
        ;
    }
    if total as u64 != width as u64 * height as u64 {
        return Err(invalid("plane size"));
    }
    let q: u8 = at_least_one(q_step);
    let c: CodedBlocks = encode_blocks(plane, width, height, q, deadzone);
    proof {
        let g = intra8::grid8(width as int, height as int);
        blocks::lemma_count(g);
        enc::lemma_choices_len(
            plane@,
            width as int,
            height as int,
            q as int,
            deadzone as int,
            g.count() as nat,
        );
    }
    match encode_frame_rle_cabac_adaptive(&c.modes, Some(width / 8)) {
        Ok((body, k)) => {
            let a: usize = body.len();
            let b: usize = c.stream.len();
            if a > usize::MAX - b {
                return Err(invalid("too many bytes"));
            }
            let h: Vec<usize> = histogram(&c.modes);
            Ok(ProbeOutput { payload_bytes: a + b, recon: c.recon, mode_hist: h })
        },
        Err(e) => Err(e),
    }
}

/// Every block is counted once.
pub proof fn law_count_mode(modes: Seq<i32>)
    requires
        forall|i: int| 0 <= i < modes.len() ==> 0 <= #[trigger] modes[i] <= 3,
    ensures
        count_mode(modes, 0) + count_mode(modes, 1) + count_mode(modes, 2) + count_mode(modes, 3)
            == modes.len(),
    decreases modes.len(),
{
    if modes.len() > 0 {
        let d = modes.drop_last();
        assert forall|i: int| 0 <= i < d.len() implies 0 <= #[trigger] d[i] <= 3 by {
            assert(d[i] == modes[i]);
        }
        law_count_mode(d);
        assert(0 <= modes[modes.len() - 1] <= 3);
    }
}

} // verus!

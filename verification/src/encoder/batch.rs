//! What batches and streams of frames share: how each frame is quantised, and the file around them.

use vstd::prelude::*;
use crate::common::config::KernelLossyConfig;
use crate::common::config;
use crate::common::crc;
use crate::common::crc::crc32;
use crate::common::domain;
use crate::common::domain::{CrfHeader, FrameIndexEntry, HEADER_SIZE};
use crate::common::error::CrfResult;
use crate::common::le;
use crate::common::le::{put_bytes, put_le32};
use crate::encoder::frame::FrameQuant;

verus! {

/// Whether `i` is a multiple of `n`.
pub open spec fn multiple(i: int, n: int) -> bool {
    if n == 0 {
        i == 0
    } else {
        i % n == 0
    }
}

fn is_multiple(i: usize, n: usize) -> (b: bool)
    ensures
        b == multiple(i as int, n as int),
{
    if n == 0 {
        i == 0
    } else {
        i % n == 0
    }
}

/// Quantisation with the given step.
pub open spec fn quant_with(step: u8, k: KernelLossyConfig, bias: i8, q95: bool) -> FrameQuant {
    if step == 0 {
        FrameQuant::spec_lossless()
    } else {
        FrameQuant {
            step,
            bias,
            chroma_step: config::chroma_step_of(step),
            chroma_bias: k.chroma_deadzone_bias,
            chroma_half_res: k.chroma_half_res,
            q1_matrix_scale: q95,
        }
    }
}

/// How frame `i` is quantised: the first frame and every `interval`-th have steps of their own.
pub open spec fn quant_of_index(
    i: int,
    step: Option<u8>,
    k: KernelLossyConfig,
    bias: i8,
    interval: int,
    q95: bool,
) -> FrameQuant {
    match step {
        None => FrameQuant::spec_lossless(),
        Some(s) => if s == 0 {
            FrameQuant::spec_lossless()
        } else if i == 0 {
            quant_with(k.first_frame_step, k, bias, q95)
        } else if multiple(i, interval) {
            quant_with(k.anchor_step, k, bias, q95)
        } else {
            quant_with(s, k, bias, q95)
        },
    }
}

fn make_quant(step: u8, tuning: &KernelLossyConfig, bias: i8, q95: bool) -> (q: FrameQuant)
    ensures
        q == quant_with(step, *tuning, bias, q95),
{
    if step == 0 {
        return FrameQuant::lossless();
    }
    FrameQuant {
        step,
        bias,
        chroma_step: tuning.chroma_step(step),
        chroma_bias: tuning.chroma_deadzone_bias,
        chroma_half_res: tuning.chroma_half_res,
        q1_matrix_scale: q95,
    }
}

/// How frame `i` of a sequence of original frames is quantised.
pub fn fq_for_index(
    i: usize,
    lossy_quant_step: Option<u8>,
    tuning: &KernelLossyConfig,
    base_bias: i8,
    interval: usize,
    q95: bool,
) -> (q: FrameQuant)
    ensures
        q == quant_of_index(i as int, lossy_quant_step, *tuning, base_bias, interval as int, q95),
{
    let step: u8 = match lossy_quant_step {
        None => {
            return FrameQuant::lossless();
        },
        Some(s) => s,
    };
    if step == 0 {
        return FrameQuant::lossless();
    }
    if i == 0 {
        make_quant(tuning.first_frame_step, tuning, base_bias, q95)
    } else if is_multiple(i, interval) {
        make_quant(tuning.anchor_step, tuning, base_bias, q95)
    } else {
        make_quant(step, tuning, base_bias, q95)
    }
}

/// How frame `i` of a chain of differences is quantised: every so many frames nothing is lost.
pub open spec fn quant_of_chain(i: int, step: Option<u8>, k: KernelLossyConfig, bias: i8) -> FrameQuant {
    match step {
        None => FrameQuant::spec_lossless(),
        Some(s) => if multiple(
            i,
            if k.anchor_interval == 0 {
                1
            } else {
                k.anchor_interval as int
            },
        ) {
            FrameQuant::spec_lossless()
        } else {
            quant_with(s, k, bias, false)
        },
    }
}

/// How frame `i` of a chain of differences is quantised.
pub fn fq_for_chain_index(
    i: usize,
    lossy_quant_step: Option<u8>,
    tuning: &KernelLossyConfig,
    base_bias: i8,
) -> (q: FrameQuant)
    ensures
        q == quant_of_chain(i as int, lossy_quant_step, *tuning, base_bias),
{
    let step: u8 = match lossy_quant_step {
        None => {
            return FrameQuant::lossless();
        },
        Some(s) => s,
    };
    let interval: usize = if tuning.anchor_interval == 0 {
        1
    } else {
        tuning.anchor_interval as usize
    };
    if is_multiple(i, interval) {
        return FrameQuant::lossless();
    }
    make_quant(step, tuning, base_bias, false)
}

/// Frames one after the other.
pub open spec fn joined(datas: Seq<Seq<u8>>) -> Seq<u8>
    decreases datas.len(),
{
    if datas.len() == 0 {
        Seq::empty()
    } else {
        joined(datas.drop_last()) + datas.last()
    }
}

/// The bytes of a frame index.
pub open spec fn index_bytes(es: Seq<FrameIndexEntry>) -> Seq<u8>
    decreases es.len(),
{
    if es.len() == 0 {
        Seq::empty()
    } else {
        index_bytes(es.drop_last()) + es.last().bytes()
    }
}

/// Bytes with their checksum and the mark at the end of a file.
pub open spec fn sealed(d: Seq<u8>) -> Seq<u8> {
    d + le::le32(crc::crc32_spec(d)) + domain::footer_magic()
}

/// A file: header, index, frames, checksum and mark.
pub open spec fn file_of(h: CrfHeader, es: Seq<FrameIndexEntry>, datas: Seq<Seq<u8>>) -> Seq<u8> {
    sealed(h.bytes() + index_bytes(es) + joined(datas))
}

/// Where the frames of a file stand, as far as 32 bits tell.
pub open spec fn places(datas: Seq<Seq<u8>>) -> Seq<FrameIndexEntry> {
    Seq::new(
        datas.len(),
        |k: int|
            FrameIndexEntry {
                offset: (HEADER_SIZE + 8 * datas.len() + joined(datas.take(k)).len()) as u32,
                size: datas[k].len() as u32,
            },
    )
}

/// The file of the given frames.
pub open spec fn file_bytes(h: CrfHeader, datas: Seq<Seq<u8>>) -> Seq<u8> {
    file_of(h, places(datas), datas)
}

/// A coded frame, where it stands in the file, its length, and whether it refers to the first frame.
pub type EncodedFrame = (Vec<u8>, u32, u32, bool);

/// The frames themselves.
pub open spec fn datas_of(fs: Seq<EncodedFrame>) -> Seq<Seq<u8>> {
    Seq::new(fs.len(), |i: int| fs[i].0@)
}

/// Where the frames stand.
pub open spec fn entries_of(fs: Seq<EncodedFrame>) -> Seq<FrameIndexEntry> {
    Seq::new(fs.len(), |i: int| FrameIndexEntry { offset: fs[i].1, size: fs[i].2 })
}

/// Sets where each frame stands in the file.
pub fn place_frames(frames: &mut Vec<EncodedFrame>)
    requires
        old(frames)@.len() <= 0xffff,
    ensures
        datas_of(final(frames)@) == datas_of(old(frames)@),
        entries_of(final(frames)@) == places(datas_of(old(frames)@)),
{
    let n: usize = frames.len();
    let ghost datas = datas_of(frames@);
    let mut offset: u128 = HEADER_SIZE as u128 + 8 * n as u128;
    let mut i: usize = 0;
    assert(datas.take(0) =~= Seq::<Seq<u8>>::empty());
    while i < n
        invariant
            i <= n <= 0xffff,
            n == frames@.len(),
            n == datas.len(),
            datas_of(frames@) == datas,
            offset == HEADER_SIZE + 8 * n + joined(datas.take(i as int)).len(),
            joined(datas.take(i as int)).len() <= i * usize::MAX,
            forall|k: int|
                0 <= k < i ==> #[trigger] entries_of(frames@)[k] == places(datas)[k],
        decreases n - i,
    {
        let ghost before = frames@;
        let len: usize = frames[i].0.len();
        assert(datas[i as int] == frames@[i as int].0@);
        let e: &mut EncodedFrame = &mut frames[i];
        e.1 = #[verifier::truncate] (offset as u32);
        e.2 = #[verifier::truncate] (len as u32);
        proof {
            assert(datas_of(frames@) =~= datas) by {
                assert forall|k: int| 0 <= k < n implies datas_of(frames@)[k] == datas[k] by {
                    assert(datas_of(before)[k] == datas[k]);
                }
            }
            assert(datas.take(i + 1).drop_last() =~= datas.take(i as int));
            assert(i * usize::MAX + usize::MAX == (i + 1) * usize::MAX) by (nonlinear_arith);
            assert((i + 1) * usize::MAX <= 0xffff * 0xffff_ffff_ffff_ffff) by (nonlinear_arith)
                requires
                    0 <= i + 1 <= 0xffff,
                    0 <= usize::MAX <= 0xffff_ffff_ffff_ffff,
            ;
            assert forall|k: int| 0 <= k < i + 1 implies #[trigger] entries_of(frames@)[k]
                == places(datas)[k] by {
                if k < i {
                    assert(entries_of(before)[k] == places(datas)[k]);
                }
            }
        }
        offset = offset + len as u128;
        i = i + 1;
    }
    assert(entries_of(frames@) =~= places(datas));
}

/// Puts a file together.
pub fn assemble_crf_output(
    header: &CrfHeader,
    frames_start: usize,
    encoded_frames: &Vec<EncodedFrame>,
) -> (r: CrfResult<Vec<u8>>)
    ensures
        r is Ok,
        r->Ok_0@ == file_of(*header, entries_of(encoded_frames@), datas_of(encoded_frames@)),
{
    let mut out: Vec<u8> = Vec::with_capacity(frames_start);
    match header.write_bytes(&mut out) {
        Ok(_) => {},
        Err(e) => {
            return Err(e);
        },
    }
    let ghost es = entries_of(encoded_frames@);
    let ghost ds = datas_of(encoded_frames@);
    let n: usize = encoded_frames.len();
    assert(es.take(0) =~= Seq::<FrameIndexEntry>::empty());
    assert(ds.take(0) =~= Seq::<Seq<u8>>::empty());
    let mut i: usize = 0;
    assert(out@ =~= header.bytes() + index_bytes(es.take(0)));
    while i < n
        invariant
            i <= n,
            n == encoded_frames@.len(),
            es == entries_of(encoded_frames@),
            out@ == header.bytes() + index_bytes(es.take(i as int)),
        decreases n - i,
    {
        let ghost before = out@;
        put_le32(&mut out, encoded_frames[i].1);
        put_le32(&mut out, encoded_frames[i].2);
        proof {
            assert(es.take(i + 1).drop_last() =~= es.take(i as int));
            assert(out@ =~= before + es[i as int].bytes());
            assert(out@ =~= header.bytes() + index_bytes(es.take(i + 1)));
        }
        i = i + 1;
    }
    assert(es.take(n as int) =~= es);
    let ghost head = header.bytes() + index_bytes(es);
    assert(out@ =~= head + joined(ds.take(0)));
    let mut k: usize = 0;
    while k < n
        invariant
            k <= n,
            n == encoded_frames@.len(),
            ds == datas_of(encoded_frames@),
            out@ == head + joined(ds.take(k as int)),
        decreases n - k,
    {
        let ghost before = out@;
        put_bytes(&mut out, &encoded_frames[k].0);
        proof {
            assert(ds.take(k + 1).drop_last() =~= ds.take(k as int));
            assert(out@ =~= before + ds[k as int]);
            assert(out@ =~= head + joined(ds.take(k + 1)));
        }
        k = k + 1;
    }
    assert(ds.take(n as int) =~= ds);
    let crc: u32 = crc32(&out);
    put_le32(&mut out, crc);
    domain::put_footer_magic(&mut out);
    Ok(out)
}

/// The first frame has the step for it, every frame whose number is a multiple of the interval that for
/// anchors, all others the step of the sequence; without a step, or with one of zero, nothing is lost.
/// The step of chroma goes with that of luma.
pub proof fn law_quant_of_index(
    i: int,
    step: Option<u8>,
    k: KernelLossyConfig,
    bias: i8,
    interval: int,
    q95: bool,
)
    requires
        i >= 0,
        interval >= 1,
    ensures
        ({
            let q = quant_of_index(i, step, k, bias, interval, q95);
            let s = step->0;
            &&& step is None || s == 0 ==> q.step == 0 && !q.spec_lossy()
            &&& step is Some && s > 0 ==> {
                &&& i == 0 ==> q.step == k.first_frame_step
                &&& i > 0 && i % interval == 0 ==> q.step == k.anchor_step
                &&& i % interval != 0 ==> q.step == s
            }
            &&& q.step > 0 ==> {
                &&& q.bias == bias
                &&& q.chroma_bias == k.chroma_deadzone_bias
                &&& q.chroma_half_res == k.chroma_half_res
                &&& q.q1_matrix_scale == q95
                &&& q.chroma_step >= q.step
                &&& q.chroma_step < 255 ==> -50 <= 100 * q.chroma_step - 130 * q.step <= 50
            }
            &&& q.step == 0 ==> !q.spec_lossy() && q.chroma_step == 0 && !q.chroma_half_res
        }),
{
    let q = quant_of_index(i, step, k, bias, interval, q95);
    config::law_chroma_step(q.step, q.step);
}

/// In a chain of differences every frame at the interval loses nothing, every other one has the step of
/// the sequence.
pub proof fn law_quant_of_chain(i: int, step: Option<u8>, k: KernelLossyConfig, bias: i8)
    requires
        i >= 0,
        k.anchor_interval >= 1,
    ensures
        ({
            let q = quant_of_chain(i, step, k, bias);
            &&& step is None || i % k.anchor_interval as int == 0 ==> !q.spec_lossy() && q.step == 0
            &&& step is Some && i % k.anchor_interval as int != 0 ==> q.step == step->0
            &&& q.step > 0 ==> q.bias == bias && q.chroma_bias == k.chroma_deadzone_bias
                && q.chroma_half_res == k.chroma_half_res && q.chroma_step >= q.step
        }),
{
    let q = quant_of_chain(i, step, k, bias);
    config::law_chroma_step(q.step, q.step);
}

} // verus!

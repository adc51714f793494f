//! Decoding a file.

use vstd::prelude::*;
use crate::common::arith;
use crate::common::arith::{add_i32, apply_lic_weighted, rct_inverse};
use crate::common::domain;
use crate::common::domain::{
    CrfHeader,
    FrameHeader,
    FrameIndexEntry,
    ImageData,
    FOOTER_SIZE,
    FRAME_HEADER_SIZE,
    HEADER_SIZE,
    REF_GOLDEN,
    REF_PREV2,
};
use crate::common::error;
use crate::common::error::{short, CrfError, CrfResult, Fault};
use crate::common::le;
use crate::common::le::{get_le32, put_bytes};
use crate::decoder::dispatcher::dispatch_frame;
use crate::decoder::footer;
use crate::decoder::footer::verify_crc;
use crate::decoder::packet::FramePacket;
use crate::decoder::reconstruct;

verus! {

/// A decoded file. Frames are as they were coded, most of them as differences to other frames.
#[derive(Debug)]
pub struct DecodeResult {
    pub header: CrfHeader,
    pub frame_index: Vec<FrameIndexEntry>,
    pub frames: Vec<ImageData>,
    /// Which frames refer to the first one.
    pub frame_golden_refs: Vec<bool>,
    /// Which frames refer to the one before the previous.
    pub frame_prev2_refs: Vec<bool>,
    /// How references change in illumination, as in the frame headers.
    pub frame_lic: Vec<(u8, u8)>,
}

/// The header of a file, or what is wrong with it.
pub open spec fn header_result(d: Seq<u8>) -> Result<CrfHeader, Fault> {
    if d.len() < HEADER_SIZE {
        Err(Fault::Short { expected: HEADER_SIZE as int, actual: d.len() as int })
    } else if d.take(4) != domain::file_magic() {
        Err(Fault::Magic)
    } else {
        match CrfHeader::parsed(d) {
            None => Err(Fault::Invalid),
            Some(h) => if h.is_valid() {
                Ok(h)
            } else if h.frame_count < 1 {
                Err(Fault::FrameCount(0))
            } else {
                Err(Fault::Invalid)
            },
        }
    }
}

/// Where the first frame of a file starts.
pub open spec fn frames_start(h: CrfHeader) -> int {
    if h.flags.has_index {
        HEADER_SIZE + 8 * h.frame_count
    } else {
        HEADER_SIZE as int
    }
}

/// The index of a file, or what is wrong with it.
pub open spec fn index_result(d: Seq<u8>, h: CrfHeader) -> Result<Seq<FrameIndexEntry>, Fault> {
    if !h.flags.has_index {
        Ok(Seq::empty())
    } else if d.len() < HEADER_SIZE + 8 * h.frame_count {
        Err(
            Fault::Short {
                expected: HEADER_SIZE + 8 * ((d.len() - HEADER_SIZE) / 8 + 1),
                actual: d.len() as int,
            },
        )
    } else {
        Ok(
            Seq::new(
                h.frame_count as nat,
                |k: int| FrameIndexEntry::parsed(d, HEADER_SIZE + 8 * k),
            ),
        )
    }
}

/// The frame that starts at byte `at`, and where it ends.
pub open spec fn frame_at(d: Seq<u8>, at: int) -> Result<(Seq<u8>, int), Fault> {
    if at >= d.len() {
        Err(Fault::Short { expected: error::word(at + 1), actual: d.len() as int })
    } else if at + FRAME_HEADER_SIZE > d.len() {
        Err(Fault::Short { expected: error::word(at + FRAME_HEADER_SIZE), actual: d.len() as int })
    } else {
        let end = at + FRAME_HEADER_SIZE + le::le32_at(d, at);
        if end > d.len() {
            Err(Fault::Short { expected: error::word(end), actual: d.len() as int })
        } else {
            Ok((d.subrange(at, end), end))
        }
    }
}

/// A frame as it was coded.
pub struct Raw {
    pub head: FrameHeader,
    pub px: Seq<i32>,
}

/// The first `n` frames of a file, and where they end.
pub open spec fn raw_frames(d: Seq<u8>, h: CrfHeader, n: nat) -> Result<(Seq<Raw>, int), Fault>
    decreases n,
{
    if n == 0 {
        Ok((Seq::empty(), frames_start(h)))
    } else {
        match raw_frames(d, h, (n - 1) as nat) {
            Err(f) => Err(f),
            Ok((rs, at)) => match frame_at(d, at) {
                Err(f) => Err(f),
                Ok((b, end)) => match reconstruct::frame_result(b, reconstruct::setting_of(&h)) {
                    Err(f) => Err(f),
                    Ok(px) => Ok((rs.push(Raw { head: FrameHeader::parsed(b), px }), end)),
                },
            },
        }
    }
}

/// Whether the transform of colours of frame `i` is to be undone.
pub open spec fn mixed(h: CrfHeader, i: int) -> bool {
    h.flags.has_rct && !(h.flags.first_frame_no_rct && i == 0)
}

/// Frame `i` with its colours as they were.
pub open spec fn unmixed(h: CrfHeader, i: int, px: Seq<i32>) -> Result<Seq<i32>, Fault> {
    if !mixed(h, i) {
        Ok(px)
    } else if h.color_format.spec_count() == 3 {
        Ok(arith::unrct_spec(px))
    } else {
        Err(Fault::Invalid)
    }
}

/// The first `n` frames with their colours as they were.
pub open spec fn unmixed_all(h: CrfHeader, rs: Seq<Raw>, n: nat) -> Result<Seq<Seq<i32>>, Fault>
    decreases n,
{
    if n == 0 {
        Ok(Seq::empty())
    } else {
        match unmixed_all(h, rs, (n - 1) as nat) {
            Err(f) => Err(f),
            Ok(fs) => match unmixed(h, n - 1, rs[n - 1].px) {
                Err(f) => Err(f),
                Ok(px) => Ok(fs.push(px)),
            },
        }
    }
}

/// What a file holds.
pub struct Decoded {
    pub header: CrfHeader,
    pub index: Seq<FrameIndexEntry>,
    pub frames: Seq<Seq<i32>>,
    pub heads: Seq<FrameHeader>,
}

/// What a file holds, or what is wrong with it.
pub open spec fn decode_result(d: Seq<u8>) -> Result<Decoded, Fault> {
    match header_result(d) {
        Err(f) => Err(f),
        Ok(h) => match index_result(d, h) {
            Err(f) => Err(f),
            Ok(index) => match raw_frames(d, h, h.frame_count as nat) {
                Err(f) => Err(f),
                Ok((rs, _)) => match unmixed_all(h, rs, rs.len()) {
                    Err(f) => Err(f),
                    Ok(frames) => Ok(
                        Decoded {
                            header: h,
                            index,
                            frames,
                            heads: Seq::new(rs.len(), |i: int| rs[i].head),
                        },
                    ),
                },
            },
        },
    }
}

impl DecodeResult {
    /// The samples of the frames.
    pub open spec fn samples(&self) -> Seq<Seq<i32>> {
        Seq::new(self.frames@.len(), |i: int| self.frames@[i].pixels@)
    }

    /// The result is what the file holds.
    pub open spec fn holds(&self, x: Decoded) -> bool {
        &&& self.header == x.header
        &&& self.frame_index@ == x.index
        &&& self.samples() == x.frames
        &&& self.frame_golden_refs@.len() == x.heads.len()
        &&& self.frame_prev2_refs@.len() == x.heads.len()
        &&& self.frame_lic@.len() == x.heads.len()
        &&& forall|i: int|
            0 <= i < x.heads.len() ==> #[trigger] self.frame_golden_refs@[i] == (
            x.heads[i].reference_type == REF_GOLDEN)
        &&& forall|i: int|
            0 <= i < x.heads.len() ==> #[trigger] self.frame_prev2_refs@[i] == (
            x.heads[i].reference_type == REF_PREV2)
        &&& forall|i: int|
            0 <= i < x.heads.len() ==> #[trigger] self.frame_lic@[i] == (
                x.heads[i].lic_a_num,
                x.heads[i].lic_b,
            )
        &&& forall|i: int|
            0 <= i < self.frames@.len() ==> (#[trigger] self.frames@[i]).shape()
                == self.header.shape() && self.frames@[i].wf()
    }
}

/// Reads the header of a file.
pub fn read_header(data: &[u8]) -> (r: CrfResult<CrfHeader>)
    ensures
        match r {
            Ok(h) => header_result(data@) == Ok::<CrfHeader, Fault>(h),
            Err(e) => header_result(data@) == Err::<CrfHeader, Fault>(error::fault(e)),
        },
{
    if data.len() < HEADER_SIZE {
        return Err(CrfError::InsufficientData { expected: HEADER_SIZE, actual: data.len() });
    }
    let header: CrfHeader = match CrfHeader::from_bytes(data) {
        Ok(h) => h,
        Err(e) => {
            return Err(e);
        },
    };
    match header.validate() {
        Ok(_) => Ok(header),
        Err(e) => Err(e),
    }
}

fn read_index(data: &[u8], header: &CrfHeader) -> (r: CrfResult<Vec<FrameIndexEntry>>)
    requires
        data@.len() >= HEADER_SIZE,
    ensures
        match r {
            Ok(v) => index_result(data@, *header) == Ok::<Seq<FrameIndexEntry>, Fault>(v@),
            Err(e) => index_result(data@, *header) == Err::<Seq<FrameIndexEntry>, Fault>(
                error::fault(e),
            ),
        },
{
    let mut out: Vec<FrameIndexEntry> = Vec::new();
    if !header.flags.has_index() {
        assert(out@ =~= Seq::<FrameIndexEntry>::empty());
        return Ok(out);
    }
    let len: usize = data.len();
    let n: usize = header.frame_count as usize;
    let ghost all = Seq::new(
        header.frame_count as nat,
        |k: int| FrameIndexEntry::parsed(data@, HEADER_SIZE + 8 * k),
    );
    let mut k: usize = 0;
    while k < n
        invariant
            k <= n,
            n == header.frame_count,
            n <= 0xffff,
            len == data@.len(),
            HEADER_SIZE + 8 * k <= len,
            header.flags.has_index,
            all == Seq::new(
                header.frame_count as nat,
                |k: int| FrameIndexEntry::parsed(data@, HEADER_SIZE + 8 * k),
            ),
            out@ == all.take(k as int),
        decreases n - k,
    {
        let at: usize = HEADER_SIZE + 8 * k;
        if at + 8 > len {
            assert((len - HEADER_SIZE) / 8 == k);
            return Err(CrfError::InsufficientData { expected: at + 8, actual: len });
        }
        out.push(FrameIndexEntry::read(data, at));
        k = k + 1;
        assert(out@ =~= all.take(k as int));
    }
    assert(out@ =~= all);
    Ok(out)
}

/// What reading a frame gives: where it ends.
pub open spec fn agrees_end(r: CrfResult<usize>, s: Result<(Seq<u8>, int), Fault>) -> bool {
    match r {
        Ok(end) => s is Ok && s->Ok_0.1 == end,
        Err(e) => s == Err::<(Seq<u8>, int), Fault>(error::fault(e)),
    }
}

/// Where the frame that starts at byte `at` ends.
pub fn frame_end(data: &[u8], at: usize) -> (r: CrfResult<usize>)
    ensures
        agrees_end(r, frame_at(data@, at as int)),
        r is Ok ==> at + FRAME_HEADER_SIZE <= r->Ok_0 <= data@.len(),
{
    let len: usize = data.len();
    if at >= len {
        return Err(short(at, 1, len));
    }
    if FRAME_HEADER_SIZE > len - at {
        return Err(short(at, FRAME_HEADER_SIZE, len));
    }
    let size: u32 = get_le32(data, at);
    let from: usize = at + FRAME_HEADER_SIZE;
    if size as u64 > (len - from) as u64 {
        let expected: usize = if size as u64 > (usize::MAX - from) as u64 {
            usize::MAX
        } else {
            from + size as usize
        };
        return Err(CrfError::InsufficientData { expected, actual: len });
    }
    Ok(from + size as usize)
}

/// Undoes the transform of colours of frame `i`, if it has one.
pub fn undo_colours(header: &CrfHeader, i: usize, px: Vec<i32>) -> (r: CrfResult<Vec<i32>>)
    requires
        px@.len() == header.shape().samples(),
    ensures
        error::agrees(r, unmixed(*header, i as int, px@)),
        r is Ok ==> r->Ok_0@.len() == px@.len(),
{
    let skip: bool = header.flags.first_frame_no_rct() && i == 0;
    if !header.flags.has_rct() || skip {
        return Ok(px);
    }
    proof {
        if header.color_format.spec_count() == 3 {
            let a = header.width as nat * header.height as nat;
            assert((a * 3) % 3 == 0);
        }
    }
    rct_inverse(&px, header.color_format.component_count())
}

/// A frame restored: the reference, changed in illumination as the frame's header says, and the
/// difference.
pub open spec fn restored_from(base: Seq<i32>, px: Seq<i32>, a: u8, b: u8) -> Seq<i32> {
    arith::add_spec(arith::weighted_spec(base, a, b), px)
}

/// What frame `i` refers to, where `out` are the frames before it.
pub open spec fn base_of(out: Seq<Seq<i32>>, i: int, golden: bool, prev2: bool) -> Seq<i32> {
    if golden {
        out[0]
    } else if prev2 {
        if i >= 2 {
            out[i - 2]
        } else {
            out[0]
        }
    } else {
        out[i - 1]
    }
}

/// Frame `i` restored, where `out` are the frames before it.
pub open spec fn next_frame(
    out: Seq<Seq<i32>>,
    i: int,
    px: Seq<i32>,
    golden: bool,
    prev2: bool,
    lic: (u8, u8),
) -> Seq<i32> {
    if i == 0 {
        px
    } else {
        restored_from(base_of(out, i, golden, prev2), px, lic.0, lic.1)
    }
}

/// A flag of frame `i`, not set where there is none.
pub open spec fn flag(bs: Seq<bool>, i: int) -> bool {
    i < bs.len() && bs[i]
}

/// The illumination bytes of frame `i`, zero where there are none.
pub open spec fn lic_of(ls: Seq<(u8, u8)>, i: int) -> (u8, u8) {
    if i < ls.len() {
        ls[i]
    } else {
        (0, 0)
    }
}

impl DecodeResult {
    /// The first `n` frames restored.
    pub open spec fn restored(&self, n: nat) -> Seq<Seq<i32>>
        decreases n,
    {
        if n == 0 {
            Seq::empty()
        } else {
            let out = self.restored((n - 1) as nat);
            out.push(
                next_frame(
                    out,
                    n - 1,
                    self.samples()[n - 1],
                    flag(self.frame_golden_refs@, n - 1),
                    flag(self.frame_prev2_refs@, n - 1),
                    lic_of(self.frame_lic@, n - 1),
                ),
            )
        }
    }
}

/// Decodes files.
pub struct DecodeSession;

impl DecodeSession {
    /// Decodes a file. Frames that refer to others are left as differences.
    pub fn decode_bytes(data: &[u8]) -> (r: CrfResult<DecodeResult>)
        ensures
            match r {
                Ok(v) => decode_result(data@) is Ok && v.holds(decode_result(data@)->Ok_0)
                    && v.header.is_valid() && v.frames@.len() == v.header.frame_count,
                Err(e) => decode_result(data@) == Err::<Decoded, Fault>(error::fault(e)),
            },
    {
        let header: CrfHeader = match read_header(data) {
            Ok(h) => h,
            Err(e) => {
                return Err(e);
            },
        };
        let frame_index: Vec<FrameIndexEntry> = match read_index(data, &header) {
            Ok(v) => v,
            Err(e) => {
                return Err(e);
            },
        };
        let n: usize = header.frame_count as usize;
        let mut at: usize = if header.flags.has_index() {
            HEADER_SIZE + 8 * n
        } else {
            HEADER_SIZE
        };
        let mut raws: Vec<(ImageData, FrameHeader)> = Vec::new();
        assert(raw_view(raws@) =~= Seq::<Raw>::empty());
        let mut i: usize = 0;
        while i < n
            invariant
                i <= n,
                n == header.frame_count,
                header.is_valid(),
                header_result(data@) == Ok::<CrfHeader, Fault>(header),
                index_result(data@, header) is Ok,
                raws@.len() == i,
                raw_frames(data@, header, i as nat) == Ok::<(Seq<Raw>, int), Fault>(
                    (raw_view(raws@), at as int),
                ),
                forall|j: int|
                    0 <= j < i ==> (#[trigger] raws@[j]).0.shape() == header.shape()
                        && raws@[j].0.wf(),
            decreases n - i,
        {
            proof {
                lemma_raw_error(data@, header, (i + 1) as nat, n as nat);
            }
            let ghost before = raws@;
            let end: usize = match frame_end(data, at) {
                Ok(v) => v,
                Err(e) => {
                    return Err(e);
                },
            };
            let bytes: &[u8] = vstd::slice::slice_subrange(data, at, end);
            let head: FrameHeader = match FrameHeader::from_bytes(bytes) {
                Ok(v) => v,
                Err(e) => {
                    return Err(e);
                },
            };
            let m: usize = bytes.len();
            let payload: &[u8] = vstd::slice::slice_subrange(bytes, FRAME_HEADER_SIZE, m);
            let packet: FramePacket = FramePacket::new(head, payload, at);
            proof {
                domain::lemma_frame_header_back(bytes@);
                assert(packet.header.bytes() + packet.payload@ =~= bytes@);
            }
            let frame: ImageData = match DecodeSession::reconstruct_packet(&packet, &header) {
                Ok(v) => v,
                Err(e) => {
                    return Err(e);
                },
            };
            raws.push((frame, head));
            proof {
                assert(raw_view(raws@) =~= raw_view(before).push(
                    Raw { head, px: raws@[i as int].0.pixels@ },
                ));
            }
            at = end;
            i = i + 1;
        }
        DecodeSession::gather(header, frame_index, raws, Ghost(data@))
    }

    fn gather(
        header: CrfHeader,
        frame_index: Vec<FrameIndexEntry>,
        raws: Vec<(ImageData, FrameHeader)>,
        Ghost(d): Ghost<Seq<u8>>,
    ) -> (r: CrfResult<DecodeResult>)
        requires
            header_result(d) == Ok::<CrfHeader, Fault>(header),
            index_result(d, header) == Ok::<Seq<FrameIndexEntry>, Fault>(frame_index@),
            raws@.len() == header.frame_count,
            raw_frames(d, header, header.frame_count as nat) is Ok,
            raw_frames(d, header, header.frame_count as nat)->Ok_0.0 == raw_view(raws@),
            forall|j: int|
                0 <= j < raws@.len() ==> (#[trigger] raws@[j]).0.shape() == header.shape()
                    && raws@[j].0.wf(),
        ensures
            match r {
                Ok(v) => decode_result(d) is Ok && v.holds(decode_result(d)->Ok_0)
                    && v.header.is_valid() && v.frames@.len() == v.header.frame_count,
                Err(e) => decode_result(d) == Err::<Decoded, Fault>(error::fault(e)),
            },
    {
        let ghost rs = raw_view(raws@);
        let n: usize = raws.len();
        let mut frames: Vec<ImageData> = Vec::new();
        let mut golden: Vec<bool> = Vec::new();
        let mut prev2: Vec<bool> = Vec::new();
        let mut lic: Vec<(u8, u8)> = Vec::new();
        let mut i: usize = 0;
        assert(pixels_of(frames@) =~= Seq::<Seq<i32>>::empty());
        while i < n
            invariant
                i <= n,
                n == raws@.len(),
                rs == raw_view(raws@),
                header_result(d) == Ok::<CrfHeader, Fault>(header),
                index_result(d, header) is Ok,
                raw_frames(d, header, header.frame_count as nat) is Ok,
                raw_frames(d, header, header.frame_count as nat)->Ok_0.0 == rs,
                forall|j: int|
                    0 <= j < n ==> (#[trigger] raws@[j]).0.shape() == header.shape()
                        && raws@[j].0.wf(),
                frames@.len() == i,
                golden@.len() == i,
                prev2@.len() == i,
                lic@.len() == i,
                unmixed_all(header, rs, i as nat) == Ok::<Seq<Seq<i32>>, Fault>(
                    pixels_of(frames@),
                ),
                forall|j: int|
                    0 <= j < i ==> (#[trigger] frames@[j]).shape() == header.shape()
                        && frames@[j].wf(),
                forall|j: int|
                    0 <= j < i ==> #[trigger] golden@[j] == (rs[j].head.reference_type
                        == REF_GOLDEN),
                forall|j: int|
                    0 <= j < i ==> #[trigger] prev2@[j] == (rs[j].head.reference_type == REF_PREV2),
                forall|j: int|
                    0 <= j < i ==> #[trigger] lic@[j] == (rs[j].head.lic_a_num, rs[j].head.lic_b),
            decreases n - i,
        {
            proof {
                lemma_unmixed_error(header, rs, (i + 1) as nat, n as nat);
            }
            let ghost before = frames@;
            let raw: &(ImageData, FrameHeader) = &raws[i];
            assert(rs[i as int] == (Raw { head: raw.1, px: raw.0.pixels@ }));
            let px: Vec<i32> = match undo_colours(&header, i, raw.0.copy().pixels) {
                Ok(v) => v,
                Err(e) => {
                    return Err(e);
                },
            };
            let ghost q = px@;
            frames.push(raw.0.with_pixels(px));
            assert(pixels_of(frames@) =~= pixels_of(before).push(q));
            golden.push(raw.1.is_golden_ref());
            prev2.push(raw.1.is_prev2_ref());
            lic.push((raw.1.lic_a_num, raw.1.lic_b));
            i = i + 1;
        }
        let out: DecodeResult = DecodeResult {
            header,
            frame_index,
            frames,
            frame_golden_refs: golden,
            frame_prev2_refs: prev2,
            frame_lic: lic,
        };
        assert(out.samples() =~= pixels_of(out.frames@));
        Ok(out)
    }

    /// Restores all frames: each is the one it refers to, and the difference.
    pub fn restore_temporal(result: &DecodeResult) -> (out: Vec<ImageData>)
        requires
            result.frames@.len() >= 1,
        ensures
            out@.len() == result.frames@.len(),
            pixels_of(out@) == result.restored(result.frames@.len()),
            forall|i: int|
                0 <= i < out@.len() ==> (#[trigger] out@[i]).shape() == result.frames@[i].shape(),
    {
        let n: usize = result.frames.len();
        let mut out: Vec<ImageData> = Vec::new();
        assert(pixels_of(out@) =~= Seq::<Seq<i32>>::empty());
        let mut i: usize = 0;
        while i < n
            invariant
                i <= n,
                n == result.frames@.len(),
                out@.len() == i,
                pixels_of(out@) == result.restored(i as nat),
                i >= 1 ==> out@[0].pixels@ == result.frames@[0].pixels@,
                forall|j: int|
                    0 <= j < i ==> (#[trigger] out@[j]).shape() == result.frames@[j].shape(),
            decreases n - i,
        {
            let ghost before = out@;
            let ghost done = pixels_of(out@);
            let frame: &ImageData = &result.frames[i];
            assert(result.samples()[i as int] == frame.pixels@);
            let golden: bool = i < result.frame_golden_refs.len() && result.frame_golden_refs[i];
            let prev2: bool = i < result.frame_prev2_refs.len() && result.frame_prev2_refs[i];
            let lic: (u8, u8) = if i < result.frame_lic.len() {
                result.frame_lic[i]
            } else {
                (0, 0)
            };
            let next: ImageData = if i == 0 {
                frame.copy()
            } else if golden {
                assert(done[0] == out@[0].pixels@);
                DecodeSession::restore_referenced(&result.frames[0], frame, lic)
            } else if prev2 {
                if i >= 2 {
                    DecodeSession::restore_referenced(&out[i - 2], frame, lic)
                } else {
                    assert(done[0] == out@[0].pixels@);
                    DecodeSession::restore_referenced(&result.frames[0], frame, lic)
                }
            } else {
                DecodeSession::restore_referenced(&out[i - 1], frame, lic)
            };
            let ghost q = next.pixels@;
            out.push(next);
            proof {
                assert(q == next_frame(done, i as int, frame.pixels@, golden, prev2, lic));
                assert(pixels_of(out@) =~= done.push(q));
                assert forall|j: int| 0 <= j < i + 1 implies (#[trigger] out@[j]).shape()
                    == result.frames@[j].shape() by {
                    if j < i {
                        assert(out@[j] == before[j]);
                    }
                }
            }
            i = i + 1;
        }
        out
    }

    /// Restores a frame that refers to `base`.
    pub(crate) fn restore_referenced(base: &ImageData, frame: &ImageData, lic: (u8, u8)) -> (r: ImageData)
        ensures
            r.shape() == frame.shape(),
            r.pixels@ == restored_from(base.pixels@, frame.pixels@, lic.0, lic.1),
    {
        let weighted: Vec<i32> = apply_lic_weighted(&base.pixels, lic.0, lic.1);
        frame.with_pixels(add_i32(&weighted, &frame.pixels))
    }

    /// Decodes one frame.
    pub(crate) fn reconstruct_packet(packet: &FramePacket, header: &CrfHeader) -> (r: CrfResult<ImageData>)
        requires
            header.is_valid(),
        ensures
            reconstruct::agrees_image(
                r,
                reconstruct::frame_result(
                    packet.header.bytes() + packet.payload@,
                    reconstruct::setting_of(header),
                ),
                header,
            ),
    {
        let mut buf: Vec<u8> = Vec::new();
        match packet.header.write_bytes(&mut buf) {
            Ok(_) => {},
            Err(e) => {
                return Err(e);
            },
        }
        put_bytes(&mut buf, packet.payload);
        assert(buf@ =~= packet.header.bytes() + packet.payload@);
        dispatch_frame(&buf, header)
    }
}

/// Decodes a file.
pub fn decode_from_bytes(data: &[u8]) -> (r: CrfResult<DecodeResult>)
    ensures
        match r {
            Ok(v) => decode_result(data@) is Ok && v.holds(decode_result(data@)->Ok_0)
                && v.header.is_valid() && v.frames@.len() == v.header.frame_count,
            Err(e) => decode_result(data@) == Err::<Decoded, Fault>(error::fault(e)),
        },
{
    DecodeSession::decode_bytes(data)
}

/// What a file holds, if it is long enough for a checksum and passes it, or what is wrong with it.
pub open spec fn checked_result(d: Seq<u8>) -> Result<Decoded, Fault> {
    if d.len() >= HEADER_SIZE + FOOTER_SIZE && footer::checked(d) is Some {
        Err(footer::checked(d)->0)
    } else {
        decode_result(d)
    }
}

/// Decodes a file whose checksum is checked first.
pub fn decode_checked(data: &[u8]) -> (r: CrfResult<DecodeResult>)
    ensures
        match r {
            Ok(v) => checked_result(data@) is Ok && v.holds(checked_result(data@)->Ok_0)
                && v.header.is_valid() && v.frames@.len() == v.header.frame_count,
            Err(e) => checked_result(data@) == Err::<Decoded, Fault>(error::fault(e)),
        },
{
    if data.len() >= HEADER_SIZE + FOOTER_SIZE {
        match verify_crc(data) {
            Ok(_) => {},
            Err(e) => {
                return Err(e);
            },
        }
    }
    DecodeSession::decode_bytes(data)
}

/// Frames as they were coded.
pub open spec fn raw_view(v: Seq<(ImageData, FrameHeader)>) -> Seq<Raw> {
    Seq::new(v.len(), |i: int| Raw { head: v[i].1, px: v[i].0.pixels@ })
}

/// The samples of images.
pub open spec fn pixels_of(v: Seq<ImageData>) -> Seq<Seq<i32>> {
    Seq::new(v.len(), |i: int| v[i].pixels@)
}

proof fn lemma_raw_error(d: Seq<u8>, h: CrfHeader, m: nat, n: nat)
    requires
        m <= n,
    ensures
        raw_frames(d, h, m) is Err ==> raw_frames(d, h, n) == raw_frames(d, h, m),
    decreases n,
{
    if m < n {
        lemma_raw_error(d, h, m, (n - 1) as nat);
    }
}

proof fn lemma_unmixed_error(h: CrfHeader, rs: Seq<Raw>, m: nat, n: nat)
    requires
        m <= n,
    ensures
        unmixed_all(h, rs, m) is Err ==> unmixed_all(h, rs, n) == unmixed_all(h, rs, m),
    decreases n,
{
    if m < n {
        lemma_unmixed_error(h, rs, m, (n - 1) as nat);
    }
}

/// A file that is too short, does not start with its four letters, or has no frames, no samples, or more
/// than sixteen or no bits in a sample, is refused, with what is wrong.
pub proof fn law_refused(d: Seq<u8>)
    ensures
        d.len() < 64 ==> header_result(d) == Err::<CrfHeader, Fault>(
            Fault::Short { expected: 64, actual: d.len() as int },
        ),
        d.len() >= 64 && !(d[0] == 67 && d[1] == 82 && d[2] == 70 && d[3] == 0) ==> header_result(d)
            == Err::<CrfHeader, Fault>(Fault::Magic),
        header_result(d) is Ok ==> ({
            let h = header_result(d)->Ok_0;
            &&& d.len() >= 64
            &&& h.frame_count == d[8] + 256 * d[9] && h.frame_count >= 1
            &&& h.width == d[10] + 256 * d[11] && h.width >= 1
            &&& h.height == d[12] + 256 * d[13] && h.height >= 1
            &&& h.bit_depth == d[14] && 1 <= d[14] <= 16
            &&& d[15] <= 2 && d[16] <= 2
        }),
        header_result(d) is Err ==> decode_result(d) is Err,
{
    if d.len() >= 64 {
        let m = domain::file_magic();
        if d.take(4) == m {
            assert(d.take(4)[0] == m[0] && d.take(4)[1] == m[1] && d.take(4)[2] == m[2]
                && d.take(4)[3] == m[3]);
        }
        if d[0] == 67 && d[1] == 82 && d[2] == 70 && d[3] == 0 {
            assert(d.take(4) =~= m);
        }
    }
}

proof fn lemma_frames_end(d: Seq<u8>, h: CrfHeader, n: nat)
    requires
        raw_frames(d, h, n) is Ok,
    ensures
        raw_frames(d, h, n)->Ok_0.1 >= frames_start(h),
        n > 0 ==> raw_frames(d, h, n)->Ok_0.1 <= d.len(),
    decreases n,
{
    if n > 0 {
        lemma_frames_end(d, h, (n - 1) as nat);
    }
}

proof fn lemma_frames_cut(d: Seq<u8>, h: CrfHeader, n: nat, k: int)
    requires
        raw_frames(d, h, n) is Ok,
        n > 0,
        0 <= k <= d.len(),
    ensures
        k < raw_frames(d, h, n)->Ok_0.1 ==> raw_frames(d.take(k), h, n) is Err,
        raw_frames(d, h, n)->Ok_0.1 <= k ==> raw_frames(d.take(k), h, n) == raw_frames(d, h, n),
    decreases n,
{
    let m = (n - 1) as nat;
    let e = d.take(k);
    let (rs, at) = raw_frames(d, h, m)->Ok_0;
    lemma_frames_end(d, h, m);
    if m > 0 {
        lemma_frames_cut(d, h, m, k);
    }
    if at + FRAME_HEADER_SIZE <= k {
        assert(le::le32_at(e, at) == le::le32_at(d, at));
        let end = at + FRAME_HEADER_SIZE + le::le32_at(d, at);
        if end <= k {
            assert(e.subrange(at, end) =~= d.subrange(at, end));
        }
    }
}

/// A file that was cut off before the end of its last frame is refused, and what comes behind that does
/// not matter.
pub proof fn law_cut_short(d: Seq<u8>, k: int)
    requires
        decode_result(d) is Ok,
        0 <= k <= d.len(),
    ensures
        ({
            let h = header_result(d)->Ok_0;
            let end = raw_frames(d, h, h.frame_count as nat)->Ok_0.1;
            &&& 64 <= end <= d.len()
            &&& k < end ==> decode_result(d.take(k)) is Err
            &&& end <= k ==> decode_result(d.take(k)) == decode_result(d)
        }),
{
    let h = header_result(d)->Ok_0;
    let n = h.frame_count as nat;
    let e = d.take(k);
    lemma_frames_end(d, h, n);
    lemma_frames_cut(d, h, n, k);
    if k >= HEADER_SIZE {
        assert(e.take(4) =~= d.take(4));
        assert(header_result(e) == header_result(d));
        if k >= frames_start(h) && h.flags.has_index {
            assert(index_result(e, h) is Ok);
            assert(index_result(e, h)->Ok_0 =~= index_result(d, h)->Ok_0);
        }
    }
}

} // verus!

//! Decoding a file frame by frame.

use vstd::prelude::*;
use crate::common::domain;
use crate::common::domain::{
    CrfHeader,
    FrameHeader,
    ImageData,
    FRAME_HEADER_SIZE,
    HEADER_SIZE,
    REF_GOLDEN,
    REF_PREV2,
};
use crate::common::error;
use crate::common::error::{CrfError, CrfResult, Fault};
use crate::decoder::packet::FramePacket;
use crate::decoder::reconstruct;
use crate::decoder::session;
use crate::decoder::session::{frame_end, read_header, undo_colours, DecodeSession};

verus! {

/// The first `n` frames of a file restored, and where they end.
pub open spec fn tape(d: Seq<u8>, h: CrfHeader, n: nat) -> Result<(Seq<Seq<i32>>, int), Fault>
    decreases n,
{
    if n == 0 {
        Ok((Seq::empty(), session::frames_start(h)))
    } else {
        match tape(d, h, (n - 1) as nat) {
            Err(f) => Err(f),
            Ok((out, at)) => match session::frame_at(d, at) {
                Err(f) => Err(f),
                Ok((b, end)) => match reconstruct::frame_result(b, reconstruct::setting_of(&h)) {
                    Err(f) => Err(f),
                    Ok(px) => match session::unmixed(h, n - 1, px) {
                        Err(f) => Err(f),
                        Ok(q) => Ok((out.push(played(out, n - 1, FrameHeader::parsed(b), q)), end)),
                    },
                },
            },
        }
    }
}

/// Frame `i` restored, where `out` are the frames before it.
pub open spec fn played(out: Seq<Seq<i32>>, i: int, head: FrameHeader, px: Seq<i32>) -> Seq<i32> {
    session::next_frame(
        out,
        i,
        px,
        head.reference_type == REF_GOLDEN,
        head.reference_type == REF_PREV2,
        (head.lic_a_num, head.lic_b),
    )
}

/// The frames of a file restored.
pub open spec fn stream_result(d: Seq<u8>) -> Result<Seq<Seq<i32>>, Fault> {
    match session::header_result(d) {
        Err(f) => Err(f),
        Ok(h) => match tape(d, h, h.frame_count as nat) {
            Err(f) => Err(f),
            Ok((out, _)) => Ok(out),
        },
    }
}

/// Frames can be handed out.
pub open spec fn ready<F: Fn(usize, &ImageData) -> CrfResult<()>>(on_frame: F) -> bool {
    forall|i: usize, f: ImageData| f.wf() ==> #[trigger] call_requires(on_frame, (i, &f))
}

/// Frame `i` of a file with the header `h` has been handed out, with the samples `px` and the answer
/// `r`.
pub open spec fn handed<F: Fn(usize, &ImageData) -> CrfResult<()>>(
    on_frame: F,
    h: CrfHeader,
    i: int,
    px: Seq<i32>,
    r: CrfResult<()>,
) -> bool {
    exists|f: ImageData|
        f.pixels@ == px && f.shape() == h.shape() && #[trigger] call_ensures(
            on_frame,
            (i as usize, &f),
            r,
        )
}

/// The frames `out` of a file with the header `h` have been handed out, each with the answer to go
/// on.
pub open spec fn all_handed<F: Fn(usize, &ImageData) -> CrfResult<()>>(
    on_frame: F,
    h: CrfHeader,
    out: Seq<Seq<i32>>,
) -> bool {
    forall|i: int| 0 <= i < out.len() ==> handed(on_frame, h, i, #[trigger] out[i], Ok(()))
}

/// The frame that is restored last, and those that later ones may refer to.
struct Deck {
    golden: Option<ImageData>,
    prev: Option<ImageData>,
    prev2: Option<ImageData>,
}

impl Deck {
    spec fn holds(&self, out: Seq<Seq<i32>>, h: CrfHeader) -> bool {
        let i = out.len() as int;
        &&& self.golden is Some <==> i >= 1
        &&& self.prev is Some <==> i >= 1
        &&& self.prev2 is Some <==> i >= 2
        &&& i >= 1 ==> self.golden->0.pixels@ == out[0] && self.prev->0.pixels@ == out[i - 1]
        &&& i >= 2 ==> self.prev2->0.pixels@ == out[i - 2]
        &&& forall|j: int| 0 <= j < i ==> (#[trigger] out[j]).len() == h.shape().samples()
    }

    fn base(&self, head: &FrameHeader, i: usize, Ghost(out): Ghost<Seq<Seq<i32>>>, Ghost(h): Ghost<
        CrfHeader,
    >) -> (r: Option<&ImageData>)
        requires
            self.holds(out, h),
            out.len() == i,
        ensures
            r is Some <==> i >= 1,
            r is Some ==> r->0.pixels@ == session::base_of(
                out,
                i as int,
                head.reference_type == REF_GOLDEN,
                head.reference_type == REF_PREV2,
            ),
    {
        if head.is_golden_ref() || (head.is_prev2_ref() && i < 2) {
            self.golden.as_ref()
        } else if head.is_prev2_ref() {
            self.prev2.as_ref()
        } else {
            self.prev.as_ref()
        }
    }
}

impl DecodeSession {
    fn next_image(data: &[u8], at: usize, end: usize, header: &CrfHeader, i: usize) -> (r: CrfResult<
        (ImageData, FrameHeader),
    >)
        requires
            header.is_valid(),
            at + FRAME_HEADER_SIZE <= end <= data@.len(),
        ensures
            ({
                let b = data@.subrange(at as int, end as int);
                let s = match reconstruct::frame_result(b, reconstruct::setting_of(header)) {
                    Err(f) => Err::<Seq<i32>, Fault>(f),
                    Ok(px) => session::unmixed(*header, i as int, px),
                };
                match r {
                    Ok(v) => s == Ok::<Seq<i32>, Fault>(v.0.pixels@) && v.0.shape()
                        == header.shape() && v.0.wf() && v.1 == FrameHeader::parsed(b),
                    Err(e) => s == Err::<Seq<i32>, Fault>(error::fault(e)),
                }
            }),
    {
        let bytes: &[u8] = vstd::slice::slice_subrange(data, at, end);
        let head: FrameHeader = match FrameHeader::from_bytes(bytes) {
            Ok(v) => v,
            Err(e) => {
                return Err(e);
            },
        };
        let m: usize = bytes.len();
        let payload: &[u8] = vstd::slice::slice_subrange(bytes, FRAME_HEADER_SIZE, m);
        let packet: FramePacket = FramePacket::new(head, payload, at);
        proof {
            domain::lemma_frame_header_back(bytes@);
            assert(packet.header.bytes() + packet.payload@ =~= bytes@);
        }
        let frame: ImageData = match DecodeSession::reconstruct_packet(&packet, header) {
            Ok(v) => v,
            Err(e) => {
                return Err(e);
            },
        };
        match undo_colours(header, i, frame.copy().pixels) {
            Ok(px) => Ok((frame.with_pixels(px), head)),
            Err(e) => Err(e),
        }
    }

    /// Decodes a file and restores its frames one by one, and hands each to `on_frame` with its
    /// number. Only the frames that later ones may refer to are kept. An error from `on_frame` ends
    /// the decoding.
    pub fn decode_bytes_streaming<F: Fn(usize, &ImageData) -> CrfResult<()>>(
        data: &[u8],
        on_frame: F,
    ) -> (r: CrfResult<()>)
        requires
            ready(on_frame),
        ensures
            match r {
                Ok(_) => stream_result(data@) is Ok && all_handed(
                    on_frame,
                    session::header_result(data@)->Ok_0,
                    stream_result(data@)->Ok_0,
                ),
                Err(e) => broken_off(on_frame, data@, e) || stopped(on_frame, data@, e),
            },
    {
        let header: CrfHeader = match read_header(data) {
            Ok(h) => h,
            Err(e) => {
                return Err(e);
            },
        };
        let n: usize = header.frame_count as usize;
        let mut at: usize = if header.flags.has_index() {
            HEADER_SIZE + 8 * n
        } else {
            HEADER_SIZE
        };
        let mut deck: Deck = Deck { golden: None, prev: None, prev2: None };
        let ghost mut out: Seq<Seq<i32>> = Seq::empty();
        let mut i: usize = 0;
        while i < n
            invariant
                ready(on_frame),
                i <= n,
                n == header.frame_count,
                header.is_valid(),
                session::header_result(data@) == Ok::<CrfHeader, Fault>(header),
                out.len() == i,
                tape(data@, header, i as nat) == Ok::<(Seq<Seq<i32>>, int), Fault>((out, at as int)),
                deck.holds(out, header),
                all_handed(on_frame, header, out),
            decreases n - i,
        {
            proof {
                lemma_tape_error(data@, header, (i + 1) as nat, n as nat);
            }
            let end: usize = match frame_end(data, at) {
                Ok(v) => v,
                Err(e) => {
                    assert(breaks_at(on_frame, data@, header, i as int));
                    return Err(e);
                },
            };
            let (frame, head): (ImageData, FrameHeader) = match DecodeSession::next_image(
                data,
                at,
                end,
                &header,
                i,
            ) {
                Ok(v) => v,
                Err(e) => {
                    assert(breaks_at(on_frame, data@, header, i as int));
                    return Err(e);
                },
            };
            let restored: ImageData = match deck.base(&head, i, Ghost(out), Ghost(header)) {
                Some(b) => DecodeSession::restore_referenced(
                    b,
                    &frame,
                    (head.lic_a_num, head.lic_b),
                ),
                None => frame,
            };
            let ghost px = restored.pixels@;
            proof {
                assert(px == played(out, i as int, head, frame.pixels@));
                assert(tape(data@, header, (i + 1) as nat) == Ok::<(Seq<Seq<i32>>, int), Fault>(
                    (out.push(px), end as int),
                ));
            }
            match on_frame(i, &restored) {
                Ok(u) => {
                    assert(u == ());
                    assert(call_ensures(on_frame, (i, &restored), Ok::<(), CrfError>(())));
                },
                Err(e) => {
                    proof {
                        assert(handed(on_frame, header, i as int, px, Err(e)));
                        assert(out.push(px)[i as int] == px);
                        assert(out.push(px).drop_last() =~= out);
                        assert(stops_at(on_frame, data@, header, i as int, e));
                    }
                    return Err(e);
                },
            }
            assert(handed(on_frame, header, i as int, px, Ok(())));
            let Deck { golden, prev, prev2 } = deck;
            let golden2: Option<ImageData> = match golden {
                Some(g) => Some(g),
                None => Some(restored.copy()),
            };
            deck = Deck { golden: golden2, prev: Some(restored), prev2: prev };
            proof {
                out = out.push(px);
            }
            at = end;
            i = i + 1;
        }
        Ok(())
    }
}

/// The answer to frame `i` ended the decoding.
pub open spec fn stops_at<F: Fn(usize, &ImageData) -> CrfResult<()>>(
    on_frame: F,
    d: Seq<u8>,
    h: CrfHeader,
    i: int,
    e: CrfError,
) -> bool {
    &&& 0 <= i < h.frame_count
    &&& tape(d, h, (i + 1) as nat) is Ok
    &&& all_handed(on_frame, h, tape(d, h, (i + 1) as nat)->Ok_0.0.drop_last())
    &&& handed(on_frame, h, i, tape(d, h, (i + 1) as nat)->Ok_0.0[i], Err(e))
}

/// The file ended the decoding: its header, or its frame `i` after all frames before that were handed
/// out.
pub open spec fn broken_off<F: Fn(usize, &ImageData) -> CrfResult<()>>(
    on_frame: F,
    d: Seq<u8>,
    e: CrfError,
) -> bool {
    &&& stream_result(d) == Err::<Seq<Seq<i32>>, Fault>(error::fault(e))
    &&& session::header_result(d) is Ok ==> exists|i: int|
        breaks_at(on_frame, d, session::header_result(d)->Ok_0, i)
}

/// Frame `i` cannot be restored; those before it were handed out.
pub open spec fn breaks_at<F: Fn(usize, &ImageData) -> CrfResult<()>>(
    on_frame: F,
    d: Seq<u8>,
    h: CrfHeader,
    i: int,
) -> bool {
    &&& 0 <= i < h.frame_count
    &&& tape(d, h, i as nat) is Ok
    &&& tape(d, h, (i + 1) as nat) is Err
    &&& all_handed(on_frame, h, tape(d, h, i as nat)->Ok_0.0)
}

/// The answer to a frame ended the decoding.
pub open spec fn stopped<F: Fn(usize, &ImageData) -> CrfResult<()>>(
    on_frame: F,
    d: Seq<u8>,
    e: CrfError,
) -> bool {
    session::header_result(d) is Ok && exists|i: int|
        stops_at(on_frame, d, session::header_result(d)->Ok_0, i, e)
}

proof fn lemma_tape_error(d: Seq<u8>, h: CrfHeader, m: nat, n: nat)
    requires
        m <= n,
    ensures
        tape(d, h, m) is Err ==> tape(d, h, n) == tape(d, h, m),
    decreases n,
{
    if m < n {
        lemma_tape_error(d, h, m, (n - 1) as nat);
    }
}

/// The first `n` frames of a decoded file restored.
pub open spec fn restored(x: session::Decoded, n: nat) -> Seq<Seq<i32>>
    decreases n,
{
    if n == 0 {
        Seq::empty()
    } else {
        let out = restored(x, (n - 1) as nat);
        out.push(played(out, n - 1, x.heads[n - 1], x.frames[n - 1]))
    }
}

/// As many frames are restored as are asked for.
pub proof fn lemma_restored_len(x: session::Decoded, n: nat)
    ensures
        restored(x, n).len() == n,
    decreases n,
{
    if n > 0 {
        lemma_restored_len(x, (n - 1) as nat);
    }
}

/// What restoring a decoded file gives.
pub proof fn lemma_restored(r: &session::DecodeResult, x: session::Decoded, n: nat)
    requires
        r.holds(x),
        x.heads.len() == x.frames.len(),
        n <= x.frames.len(),
    ensures
        r.restored(n) == restored(x, n),
    decreases n,
{
    if n > 0 {
        lemma_restored(r, x, (n - 1) as nat);
        let i = n - 1;
        assert(r.frame_golden_refs@[i] == (x.heads[i].reference_type == REF_GOLDEN));
        assert(r.frame_prev2_refs@[i] == (x.heads[i].reference_type == REF_PREV2));
        assert(r.frame_lic@[i] == (x.heads[i].lic_a_num, x.heads[i].lic_b));
        assert(r.samples()[i] == x.frames[i]);
    }
}

proof fn lemma_raw_len(d: Seq<u8>, h: CrfHeader, n: nat)
    ensures
        session::raw_frames(d, h, n) is Ok ==> session::raw_frames(d, h, n)->Ok_0.0.len() == n,
    decreases n,
{
    if n > 0 {
        lemma_raw_len(d, h, (n - 1) as nat);
    }
}

proof fn lemma_unmixed_prefix(
    h: CrfHeader,
    a: Seq<session::Raw>,
    b: Seq<session::Raw>,
    n: nat,
)
    requires
        n <= a.len(),
        n <= b.len(),
        forall|i: int| 0 <= i < n ==> a[i] == b[i],
    ensures
        session::unmixed_all(h, a, n) == session::unmixed_all(h, b, n),
        session::unmixed_all(h, a, n) is Ok ==> session::unmixed_all(h, a, n)->Ok_0.len() == n,
    decreases n,
{
    if n > 0 {
        lemma_unmixed_prefix(h, a, b, (n - 1) as nat);
    }
}

/// The frames of a decoded file.
spec fn so_far(d: Seq<u8>, h: CrfHeader, n: nat) -> session::Decoded {
    let rs = session::raw_frames(d, h, n)->Ok_0.0;
    session::Decoded {
        header: h,
        index: Seq::empty(),
        frames: session::unmixed_all(h, rs, n)->Ok_0,
        heads: Seq::new(n, |i: int| rs[i].head),
    }
}

proof fn lemma_same_frames(x: session::Decoded, y: session::Decoded, n: nat)
    requires
        n <= x.frames.len(),
        n <= y.frames.len(),
        n <= x.heads.len(),
        n <= y.heads.len(),
        forall|i: int| 0 <= i < n ==> x.frames[i] == y.frames[i],
        forall|i: int| 0 <= i < n ==> x.heads[i] == y.heads[i],
    ensures
        restored(x, n) == restored(y, n),
    decreases n,
{
    if n > 0 {
        lemma_same_frames(x, y, (n - 1) as nat);
    }
}

proof fn lemma_tape(d: Seq<u8>, h: CrfHeader, n: nat)
    ensures
        ({
            let raw = session::raw_frames(d, h, n);
            let good = raw is Ok && session::unmixed_all(h, raw->Ok_0.0, n) is Ok;
            &&& tape(d, h, n) is Ok <==> good
            &&& good ==> tape(d, h, n) == Ok::<(Seq<Seq<i32>>, int), Fault>(
                (restored(so_far(d, h, n), n), raw->Ok_0.1),
            )
        }),
    decreases n,
{
    lemma_raw_len(d, h, n);
    if n > 0 {
        let m = (n - 1) as nat;
        lemma_tape(d, h, m);
        lemma_raw_len(d, h, m);
        let raw = session::raw_frames(d, h, n);
        let before = session::raw_frames(d, h, m);
        if before is Ok && raw is Ok {
            let (rs, qs) = (raw->Ok_0.0, before->Ok_0.0);
            assert(rs.drop_last() =~= qs);
            assert forall|i: int| 0 <= i < m implies rs[i] == qs[i] by {
                assert(rs.drop_last()[i] == rs[i]);
            }
            lemma_unmixed_prefix(h, rs, qs, m);
            if session::unmixed_all(h, rs, n) is Ok {
                let (x, y) = (so_far(d, h, n), so_far(d, h, m));
                assert(x.frames.drop_last() =~= y.frames);
                assert forall|i: int| 0 <= i < m implies x.frames[i] == y.frames[i] by {
                    assert(x.frames.drop_last()[i] == x.frames[i]);
                }
                lemma_same_frames(x, y, m);
            }
        }
    }
}

/// Decoding frame by frame gives what decoding all frames and then restoring them gives, and fails
/// exactly where that fails.
pub proof fn law_streaming_restores(d: Seq<u8>)
    ensures
        stream_result(d) is Ok <==> session::decode_result(d) is Ok,
        stream_result(d) is Ok ==> stream_result(d)->Ok_0 == restored(
            session::decode_result(d)->Ok_0,
            session::decode_result(d)->Ok_0.frames.len(),
        ) && session::decode_result(d)->Ok_0.frames.len()
            == session::decode_result(d)->Ok_0.header.frame_count
            && session::decode_result(d)->Ok_0.heads.len()
            == session::decode_result(d)->Ok_0.frames.len(),
{
    let hr = session::header_result(d);
    if hr is Ok {
        let h = hr->Ok_0;
        let n = h.frame_count as nat;
        lemma_tape(d, h, n);
        lemma_tape_error(d, h, 1, n);
        lemma_raw_len(d, h, n);
        if tape(d, h, n) is Ok {
            assert(tape(d, h, 1) is Ok);
            assert(tape(d, h, 0) is Ok);
            assert(session::frame_at(d, session::frames_start(h)) is Ok) by {
                reveal_with_fuel(tape, 2);
            }
            assert(session::index_result(d, h) is Ok);
        }
        if session::decode_result(d) is Ok {
            let x = session::decode_result(d)->Ok_0;
            let y = so_far(d, h, n);
            let rs = session::raw_frames(d, h, n)->Ok_0.0;
            lemma_unmixed_prefix(h, rs, rs, n);
            lemma_same_frames(x, y, n);
        }
    }
}

} // verus!

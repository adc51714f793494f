//! Sequences of frames on their way into a file.

use vstd::prelude::*;
use crate::common::config::Setup;
use crate::common::domain::{
    ColorFormat,
    CrfHeader,
    ImageData,
    Shape,
    HEADER_SIZE,
    REF_GOLDEN,
};
use crate::common::error;
use crate::common::error::{invalid, CrfError, CrfResult, Fault};
use crate::common::par::par_map;
use crate::encoder::batch;
use crate::encoder::batch::{assemble_crf_output, place_frames, EncodedFrame};
use crate::encoder::chain;
use crate::encoder::chain::{
    choose_golden,
    follow_frame,
    join_frame,
    open_sequence,
    Choice,
    Memory,
    Past,
    Reel,
};
use crate::encoder::frame;

verus! {

/// More frames than this a file cannot hold.
pub const STREAMING_MAX_FRAMES: usize = 65535;

/// A frame to be coded.
pub struct Still {
    pub shape: Shape,
    pub px: Seq<i32>,
}

/// A frame to be coded.
pub open spec fn still(image: &ImageData) -> Still {
    Still { shape: image.shape(), px: image.pixels@ }
}

/// Frames to be coded.
pub open spec fn stills(images: Seq<ImageData>) -> Seq<Still> {
    Seq::new(images.len(), |i: int| still(&images[i]))
}

/// The frames coded so far, and what is remembered of them.
pub struct Film {
    pub reel: Reel,
    /// Bits per sample, as the first frame tells.
    pub depth: u8,
    /// Whether the colours of the first frame are left alone.
    pub plain: bool,
    pub past: Past,
    pub datas: Seq<Seq<u8>>,
}

/// The frame has the given width, height and colours.
pub open spec fn alike(x: Reel, s: Still) -> bool {
    x.width == s.shape.width && x.height == s.shape.height && x.format == s.shape.color_format
}

/// What is wrong with a frame of another size or with other colours.
pub open spec fn unlike(x: Reel, s: Still) -> Fault {
    Fault::Dimensions {
        width: x.width,
        height: x.height,
        other_width: s.shape.width,
        other_height: s.shape.height,
    }
}

/// A film that starts with the frame `s`.
pub open spec fn started(setup: Setup, s: Still) -> Result<Film, Fault> {
    let x = Reel {
        setup,
        width: s.shape.width,
        height: s.shape.height,
        format: s.shape.color_format,
    };
    if s.shape.width < 1 || s.shape.height < 1 {
        Err(Fault::Invalid)
    } else {
        match x.opened(s.px) {
            Err(f) => Err(f),
            Ok((d, plain, past)) => Ok(
                Film { reel: x, depth: s.shape.bit_depth, plain, past, datas: seq![d] },
            ),
        }
    }
}

impl Film {
    /// The film with another frame.
    pub open spec fn with(self, s: Still) -> Result<Film, Fault> {
        if self.datas.len() >= STREAMING_MAX_FRAMES {
            Err(Fault::FrameCount(STREAMING_MAX_FRAMES as u16))
        } else if !alike(self.reel, s) {
            Err(unlike(self.reel, s))
        } else {
            match self.reel.followed(s.px, self.past, self.datas.len() as int) {
                Err(f) => Err(f),
                Ok((d, past)) => Ok(Film { past, datas: self.datas.push(d), ..self }),
            }
        }
    }

    /// The film with the first `n` of some more frames.
    pub open spec fn with_all(self, s: Seq<Still>, n: nat) -> Result<Film, Fault>
        decreases n,
    {
        if n == 0 {
            Ok(self)
        } else {
            match self.with_all(s, (n - 1) as nat) {
                Err(f) => Err(f),
                Ok(x) => x.with(s[n - 1]),
            }
        }
    }

    /// The header of the film's file.
    pub open spec fn header(self) -> CrfHeader {
        self.reel.setup.header(
            self.datas.len() as u16,
            self.reel.width,
            self.reel.height,
            self.depth,
            self.reel.format,
            self.plain,
        )
    }

    /// The film's file. A film has at least two frames.
    pub open spec fn file(self) -> Result<Seq<u8>, Fault> {
        if self.datas.len() < 2 {
            Err(Fault::FrameCount(self.datas.len() as u16))
        } else if !self.header().is_valid() {
            Err(Fault::Invalid)
        } else {
            Ok(batch::file_bytes(self.header(), self.datas))
        }
    }

    pub open spec fn ok(self) -> bool {
        &&& self.reel.ok()
        &&& self.past.sized(self.reel.n())
        &&& 1 <= self.datas.len() <= STREAMING_MAX_FRAMES
    }
}

/// The film of all frames in `s`.
pub open spec fn filmed(setup: Setup, s: Seq<Still>) -> Result<Film, Fault> {
    match started(setup, s[0]) {
        Err(f) => Err(f),
        Ok(x) => x.with_all(s.skip(1), (s.len() - 1) as nat),
    }
}

/// Codes the frames of a sequence one after the other.
pub struct Recorder {
    setup: Setup,
    width: u16,
    height: u16,
    depth: u8,
    format: ColorFormat,
    plain: bool,
    memory: Memory,
    frames: Vec<EncodedFrame>,
}

impl Recorder {
    pub closed spec fn view(&self) -> Film {
        Film {
            reel: Reel {
                setup: self.setup,
                width: self.width,
                height: self.height,
                format: self.format,
            },
            depth: self.depth,
            plain: self.plain,
            past: self.memory@,
            datas: batch::datas_of(self.frames@),
        }
    }
}

/// What recording gives.
pub open spec fn agrees_film(r: CrfResult<Recorder>, s: Result<Film, Fault>) -> bool {
    match r {
        Ok(v) => s == Ok::<Film, Fault>(v@) && v@.ok(),
        Err(e) => s == Err::<Film, Fault>(error::fault(e)),
    }
}

proof fn lemma_reel(setup: &Setup, frame: &ImageData)
    requires
        frame::codable(frame),
    ensures
        chain::reel(setup, frame).ok(),
        chain::reel(setup, frame).n() == frame.pixels@.len(),
{
    chain::lemma_frame_size(frame);
}

/// Frame `k` can be looked at, with so many frames before the first.
pub open spec fn pick_ready(r: &Recorder, frames: &[ImageData], k: usize, first: usize) -> bool {
    r@.ok() && k < frames@.len() && frames@[k as int].wf() && first <= STREAMING_MAX_FRAMES
}

/// The code of frame `i` as a difference to the first frame.
pub open spec fn pick_ok(x: Film, s: Still, i: int, r: CrfResult<Choice>) -> bool {
    i < STREAMING_MAX_FRAMES ==> if !alike(x.reel, s) {
        r is Err && error::fault(r->Err_0) == unlike(x.reel, s)
    } else {
        chain::agrees_pick(r, x.reel.golden_pick(s.px, x.past.golden, i)) && (r is Ok
            ==> r->Ok_0.kind == REF_GOLDEN)
    }
}

/// A frame that fails stops all that come after it.
pub proof fn lemma_error_stays(x: Film, s: Seq<Still>, m: nat, n: nat)
    requires
        m <= n,
    ensures
        x.with_all(s, m) is Err ==> x.with_all(s, n) == x.with_all(s, m),
    decreases n,
{
    if m < n {
        lemma_error_stays(x, s, m, (n - 1) as nat);
    }
}

impl Recorder {
    /// Starts with the frame `frame`.
    pub fn start(setup: &Setup, frame: &ImageData) -> (r: CrfResult<Recorder>)
        requires
            frame.wf(),
        ensures
            agrees_film(r, started(*setup, still(frame))),
            r is Ok ==> r->Ok_0@.reel.setup == *setup,
    {
        if frame.width < 1 || frame.height < 1 {
            return Err(invalid("frame size"));
        }
        proof {
            lemma_reel(setup, frame);
        }
        let (data, plain, memory): (Vec<u8>, bool, Memory) = match open_sequence(setup, frame) {
            Ok(v) => v,
            Err(e) => {
                return Err(e);
            },
        };
        let mut frames: Vec<EncodedFrame> = Vec::new();
        let ghost d = data@;
        frames.push((data, 0, 0, false));
        assert(batch::datas_of(frames@) =~= seq![d]);
        Ok(
            Recorder {
                setup: *setup,
                width: frame.width,
                height: frame.height,
                depth: frame.bit_depth,
                format: frame.color_format,
                plain,
                memory,
                frames,
            },
        )
    }

    /// Number of frames so far.
    pub fn count(&self) -> (n: usize)
        ensures
            n == self@.datas.len(),
    {
        self.frames.len()
    }

    fn is_alike(&self, frame: &ImageData) -> (b: bool)
        ensures
            b == alike(self@.reel, still(frame)),
    {
        self.width == frame.width && self.height == frame.height && self.format.to_u8()
            == frame.color_format.to_u8()
    }

    fn mismatch(&self, frame: &ImageData) -> (e: CrfError)
        ensures
            error::fault(e) == unlike(self@.reel, still(frame)),
    {
        CrfError::ImageDimensionsMismatch {
            expected: (self.width, self.height),
            actual: (frame.width, frame.height),
        }
    }

    fn append(&mut self, data: Vec<u8>, px: Vec<i32>)
        requires
            old(self)@.ok(),
            old(self)@.datas.len() < STREAMING_MAX_FRAMES,
            px@.len() == old(self)@.reel.n(),
        ensures
            final(self)@ == (Film {
                past: old(self)@.past.with(px@),
                datas: old(self)@.datas.push(data@),
                ..old(self)@
            }),
            final(self)@.ok(),
    {
        let ghost before = self.frames@;
        let golden: bool = data.len() > 11 && data[11] == REF_GOLDEN;
        self.memory.remember(px);
        let ghost d = data@;
        self.frames.push((data, 0, 0, golden));
        assert(batch::datas_of(self.frames@) =~= batch::datas_of(before).push(d));
    }

    /// Adds a frame. If that fails, nothing changes.
    pub fn add_frame(&mut self, frame: &ImageData) -> (r: CrfResult<()>)
        requires
            old(self)@.ok(),
            frame.wf(),
        ensures
            match r {
                Ok(_) => old(self)@.with(still(frame)) == Ok::<Film, Fault>(final(self)@),
                Err(e) => *final(self) == *old(self) && old(self)@.with(still(frame)) == Err::<
                    Film,
                    Fault,
                >(error::fault(e)),
            },
            final(self)@.ok(),
    {
        let n: usize = self.frames.len();
        if n >= STREAMING_MAX_FRAMES {
            return Err(CrfError::FrameCountOutOfRange(STREAMING_MAX_FRAMES as u16));
        }
        if !self.is_alike(frame) {
            return Err(self.mismatch(frame));
        }
        proof {
            lemma_reel(&self.setup, frame);
            assert(chain::reel(&self.setup, frame) == self@.reel);
        }
        match follow_frame(&self.setup, frame, &self.memory, n) {
            Ok((data, px)) => {
                self.append(data, px);
                Ok(())
            },
            Err(e) => Err(e),
        }
    }

    /// Adds the frames of a batch. How each would be coded as a difference to the first frame is
    /// worked out by several threads at once.
    pub fn add_batch(self, frames: &[ImageData]) -> (r: CrfResult<Recorder>)
        requires
            self@.ok(),
            forall|i: int| 0 <= i < frames@.len() ==> (#[trigger] frames@[i]).wf(),
        ensures
            agrees_film(r, self@.with_all(stills(frames@), frames@.len())),
            r is Ok ==> r->Ok_0@.reel == self@.reel,
    {
        let ghost film = self@;
        let ghost all = stills(frames@);
        let n: usize = frames.len();
        let first: usize = self.frames.len();
        let mut order: Vec<usize> = Vec::new();
        let mut k: usize = n;
        while k > 0
            invariant
                k <= n,
                order@.len() == n - k,
                forall|t: int| 0 <= t < order@.len() ==> #[trigger] order@[t] == n - 1 - t,
            decreases k,
        {
            k = k - 1;
            order.push(k);
        }
        let mut out: Recorder = self;
        let mut picks: Vec<CrfResult<Choice>> = out.picks(frames, &order, first);
        let mut i: usize = 0;
        while i < n
            invariant
                i <= n,
                n == frames@.len(),
                all == stills(frames@),
                forall|j: int| 0 <= j < n ==> (#[trigger] frames@[j]).wf(),
                film == self@,
                film.ok(),
                first == film.datas.len(),
                out@.ok(),
                film.with_all(all, i as nat) == Ok::<Film, Fault>(out@),
                out@.reel == film.reel,
                out@.past.golden == film.past.golden,
                out@.datas.len() == first + i,
                picks@.len() == n - i,
                forall|t: int|
                    0 <= t < picks@.len() ==> pick_ok(
                        film,
                        all[n - 1 - t],
                        first + (n - 1 - t),
                        #[trigger] picks@[t],
                    ),
            decreases n - i,
        {
            let ghost now = out@;
            let ghost s = all[i as int];
            proof {
                lemma_error_stays(film, all, (i + 1) as nat, n as nat);
                assert(film.with_all(all, (i + 1) as nat) == now.with(s));
            }
            let pick: CrfResult<Choice> = match picks.pop() {
                Some(p) => p,
                None => Err(invalid("frame")),
            };
            assert(pick_ok(film, s, first + i, pick));
            let count: usize = out.frames.len();
            if count >= STREAMING_MAX_FRAMES {
                return Err(CrfError::FrameCountOutOfRange(STREAMING_MAX_FRAMES as u16));
            }
            let frame: &ImageData = &frames[i];
            assert(s == still(frame));
            let g: Choice = match pick {
                Ok(g) => g,
                Err(e) => {
                    return Err(e);
                },
            };
            proof {
                lemma_reel(&out.setup, frame);
                assert(chain::reel(&out.setup, frame) == out@.reel);
            }
            match join_frame(&out.setup, frame, &out.memory, g, count) {
                Ok((data, px)) => {
                    out.append(data, px);
                },
                Err(e) => {
                    return Err(e);
                },
            }
            i = i + 1;
        }
        Ok(out)
    }

    fn picks(&self, frames: &[ImageData], order: &Vec<usize>, first: usize) -> (picks: Vec<
        CrfResult<Choice>,
    >)
        requires
            self@.ok(),
            first <= STREAMING_MAX_FRAMES,
            forall|i: int| 0 <= i < frames@.len() ==> (#[trigger] frames@[i]).wf(),
            forall|t: int| 0 <= t < order@.len() ==> #[trigger] order@[t] < frames@.len(),
        ensures
            picks@.len() == order@.len(),
            forall|t: int|
                0 <= t < picks@.len() ==> pick_ok(
                    self@,
                    stills(frames@)[order@[t] as int],
                    first + order@[t],
                    #[trigger] picks@[t],
                ),
    {
        let f = |k: &usize| -> (r: CrfResult<Choice>)
            requires
                pick_ready(self, frames, *k, first),
            ensures
                pick_ok(self@, stills(frames@)[*k as int], first + *k, r),
            { self.pick(frames, *k, first) };
        par_map(order, f)
    }

    fn pick(&self, frames: &[ImageData], k: usize, first: usize) -> (r: CrfResult<Choice>)
        requires
            pick_ready(self, frames, k, first),
        ensures
            pick_ok(self@, stills(frames@)[k as int], first + k, r),
    {
        if k >= STREAMING_MAX_FRAMES - first {
            return Err(invalid("frame count"));
        }
        let frame: &ImageData = &frames[k];
        if !self.is_alike(frame) {
            return Err(self.mismatch(frame));
        }
        proof {
            lemma_reel(&self.setup, frame);
            assert(chain::reel(&self.setup, frame) == self@.reel);
        }
        choose_golden(&self.setup, frame, &self.memory.golden, first + k)
    }

    /// The header of the file as it stands.
    pub fn file_header(&self) -> (h: CrfHeader)
        requires
            self@.ok(),
        ensures
            h == self@.header(),
    {
        self.setup.make_header(
            self.frames.len() as u16,
            self.width,
            self.height,
            self.depth,
            self.format,
            self.plain,
        )
    }

    /// Puts the file together.
    pub fn into_file(self) -> (r: CrfResult<Vec<u8>>)
        requires
            self@.ok(),
        ensures
            frame::agrees_bytes(r, self@.file()),
    {
        let n: usize = self.frames.len();
        if n < 2 {
            return Err(CrfError::FrameCountOutOfRange(n as u16));
        }
        let header: CrfHeader = self.file_header();
        match header.validate() {
            Ok(_) => {},
            Err(e) => {
                return Err(e);
            },
        }
        let ghost datas = self@.datas;
        let mut frames: Vec<EncodedFrame> = self.frames;
        place_frames(&mut frames);
        assemble_crf_output(&header, HEADER_SIZE + 8 * n, &frames)
    }
}

} // verus!

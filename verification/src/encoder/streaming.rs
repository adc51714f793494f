//! Encoding frame by frame, for sequences too long to hold in memory.

use vstd::prelude::*;
use crate::common::config;
use crate::common::config::{parse_compression_type, resolve_setup, EncodeParams, Setup, Switches};
use crate::common::domain::ImageData;
use crate::common::error;
use crate::common::error::{invalid, CrfError, CrfResult, Fault};
use crate::encoder::film;
use crate::encoder::film::{Film, Recorder, Still};
use crate::encoder::frame;
use crate::encoder::sequence;

verus! {

/// What has been encoded so far: nothing, or a film. Without a setup nothing can be.
pub struct Stream {
    pub setup: Option<Setup>,
    pub film: Option<Film>,
}

impl Stream {
    /// The stream with another frame.
    pub open spec fn with(self, s: Still) -> Result<Stream, Fault> {
        match self.film {
            Some(x) => match x.with(s) {
                Ok(y) => Ok(Stream { setup: self.setup, film: Some(y) }),
                Err(f) => Err(f),
            },
            None => match self.setup {
                None => Err(Fault::Invalid),
                Some(u) => match film::started(u, s) {
                    Ok(y) => Ok(Stream { setup: self.setup, film: Some(y) }),
                    Err(f) => Err(f),
                },
            },
        }
    }

    /// The file of the stream.
    pub open spec fn file(self) -> Result<Seq<u8>, Fault> {
        match self.film {
            Some(x) => x.file(),
            None => Err(Fault::FrameCount(0)),
        }
    }
}

/// The stream with the first `n` of some more frames.
pub open spec fn streamed(x: Stream, s: Seq<Still>, n: nat) -> Result<Stream, Fault>
    decreases n,
{
    if n == 0 {
        Ok(x)
    } else {
        match streamed(x, s, (n - 1) as nat) {
            Err(f) => Err(f),
            Ok(y) => y.with(s[n - 1]),
        }
    }
}

proof fn lemma_streamed(u: Setup, s: Seq<Still>, n: nat)
    requires
        1 <= n <= s.len(),
    ensures
        streamed(Stream { setup: Some(u), film: None }, s, n) == match film::started(u, s[0]) {
            Err(f) => Err(f),
            Ok(x) => match x.with_all(s.skip(1), (n - 1) as nat) {
                Err(f) => Err(f),
                Ok(y) => Ok(Stream { setup: Some(u), film: Some(y) }),
            },
        },
    decreases n,
{
    let e = Stream { setup: Some(u), film: None };
    if n == 1 {
        assert(streamed(e, s, 0) == Ok::<Stream, Fault>(e));
    } else {
        lemma_streamed(u, s, (n - 1) as nat);
        assert(s.skip(1)[n - 2] == s[n - 1]);
    }
}

/// Pushing frames one by one gives the same file, byte for byte, as encoding them all at once, and
/// fails in the same way.
pub proof fn law_streaming_is_batch(u: Setup, s: Seq<Still>)
    requires
        s.len() >= 1,
    ensures
        match streamed(Stream { setup: Some(u), film: None }, s, s.len()) {
            Err(f) => sequence::film_file(u, s) == Err::<Seq<u8>, Fault>(f),
            Ok(y) => sequence::film_file(u, s) == y.file(),
        },
{
    lemma_streamed(u, s, s.len());
}

/// Encodes frame by frame: the first frame pushed is the one that all may refer to, and only the
/// frames that later ones may refer to are kept besides the code.
pub struct StreamingEncoder {
    setup: Option<Setup>,
    film: Option<Recorder>,
}

impl StreamingEncoder {
    pub closed spec fn view(&self) -> Stream {
        Stream {
            setup: self.setup,
            film: match self.film {
                Some(r) => Some(r@),
                None => None,
            },
        }
    }

    pub closed spec fn wf(&self) -> bool {
        self.film is Some ==> self.film->0@.ok()
    }

    /// An encoder with the given parameters and all ways of coding.
    pub fn new(params: &EncodeParams) -> (r: CrfResult<StreamingEncoder>)
        ensures
            r is Ok <==> config::type_named(params.compression_type@) is Some,
            r is Err ==> r->Err_0 is InvalidCodingParams,
            r is Ok ==> r->Ok_0.wf() && r->Ok_0@.film is None && r->Ok_0@.setup
                == if params.valid() {
                Some(config::setup_of(params, Switches::spec_all()))
            } else {
                None
            },
    {
        StreamingEncoder::with_switches(params, Switches::all())
    }

    /// An encoder with the given parameters and the ways of coding that `on` leaves.
    pub fn with_switches(params: &EncodeParams, on: Switches) -> (r: CrfResult<StreamingEncoder>)
        ensures
            r is Ok <==> config::type_named(params.compression_type@) is Some,
            r is Err ==> r->Err_0 is InvalidCodingParams,
            r is Ok ==> r->Ok_0.wf() && r->Ok_0@.film is None && r->Ok_0@.setup
                == if params.valid() {
                Some(config::setup_of(params, on))
            } else {
                None
            },
    {
        if parse_compression_type(&params.compression_type).is_none() {
            return Err(CrfError::InvalidCodingParams(params.compression_type.clone()));
        }
        match resolve_setup(params, on) {
            Ok(u) => Ok(StreamingEncoder { setup: Some(u), film: None }),
            Err(_) => Ok(StreamingEncoder { setup: None, film: None }),
        }
    }

    /// Adds a frame. If that fails, nothing changes.
    pub fn push_frame(&mut self, frame: &ImageData) -> (r: CrfResult<()>)
        requires
            old(self).wf(),
            frame.wf(),
        ensures
            final(self).wf(),
            match r {
                Ok(_) => old(self)@.with(film::still(frame)) == Ok::<Stream, Fault>(final(self)@),
                Err(e) => final(self)@ == old(self)@ && old(self)@.with(film::still(frame)) == Err::<
                    Stream,
                    Fault,
                >(error::fault(e)),
            },
    {
        if let Some(rec) = &mut self.film {
            return rec.add_frame(frame);
        }
        let setup: Setup = match self.setup {
            Some(u) => u,
            None => {
                return Err(invalid("quality"));
            },
        };
        match Recorder::start(&setup, frame) {
            Ok(rec) => {
                self.film = Some(rec);
                Ok(())
            },
            Err(e) => Err(e),
        }
    }

    /// Puts the file together.
    pub fn finish(self) -> (r: CrfResult<Vec<u8>>)
        requires
            self.wf(),
        ensures
            frame::agrees_bytes(r, self@.file()),
    {
        match self.film {
            Some(rec) => rec.into_file(),
            None => Err(CrfError::FrameCountOutOfRange(0)),
        }
    }
}

} // verus!

//! The frames that an encoder may refer to.

use vstd::prelude::*;
use crate::common::domain::ImageData;

verus! {

/// The first frame and the one before, as a decoder has them.
#[derive(Debug)]
pub struct EncodeReferenceState {
    pub golden: Option<ImageData>,
    pub previous: Option<ImageData>,
}

impl Default for EncodeReferenceState {
    fn default() -> (s: EncodeReferenceState)
        ensures
            s.golden is None,
            s.previous is None,
    {
        EncodeReferenceState { golden: None, previous: None }
    }
}

impl EncodeReferenceState {
    /// No frames yet.
    pub fn new() -> (s: EncodeReferenceState)
        ensures
            s.golden is None,
            s.previous is None,
    {
        EncodeReferenceState::default()
    }

    /// Sets the first frame.
    pub fn set_golden(&mut self, frame: ImageData)
        ensures
            final(self).golden == Some(frame),
            final(self).previous == old(self).previous,
    {
        self.golden = Some(frame);
    }

    /// The samples of the first frame, if it is set.
    pub fn golden_pixels(&self) -> (r: Option<&[i32]>)
        ensures
            r is Some <==> self.golden is Some,
            r is Some ==> r->0@ == self.golden->0.pixels@,
    {
        match &self.golden {
            Some(f) => Some(f.pixels.as_slice()),
            None => None,
        }
    }
}

} // verus!

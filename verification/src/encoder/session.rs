//! One request to encode.

use vstd::prelude::*;
use crate::common::config::{EncodeParams, Switches};
use crate::common::domain::ImageData;
use crate::common::error::CrfResult;
use crate::encoder::film;
use crate::encoder::frame;
use crate::encoder::sequence;
use crate::encoder::sequence::encode_sequence;

verus! {

/// Encodes sequences.
pub struct EncodeSession;

impl EncodeSession {
    /// Encodes a sequence.
    pub fn encode_sequence(frames: &[ImageData], params: &EncodeParams) -> (r: CrfResult<Vec<u8>>)
        requires
            forall|i: int| 0 <= i < frames@.len() ==> (#[trigger] frames@[i]).wf(),
        ensures
            frame::agrees_bytes(
                r,
                sequence::sequence_result(params, Switches::spec_all(), film::stills(frames@)),
            ),
    {
        encode_sequence(frames, params)
    }
}

} // verus!

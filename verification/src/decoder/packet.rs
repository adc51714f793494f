//! A frame as it stands in a file.

use vstd::prelude::*;
use crate::common::domain::{FrameHeader, FRAME_HEADER_SIZE};

verus! {

/// Part of a file.
#[derive(Clone, Copy, PartialEq, Eq, Debug, Structural)]
pub struct ByteRange {
    pub offset: usize,
    pub len: usize,
}

impl ByteRange {
    pub fn new(offset: usize, len: usize) -> (r: ByteRange)
        ensures
            r.offset == offset,
            r.len == len,
    {
        ByteRange { offset, len }
    }
}

/// The header and the code of a frame, and where both stand in the file.
#[derive(Debug)]
pub struct FramePacket<'a> {
    pub header: FrameHeader,
    pub payload: &'a [u8],
    pub range: ByteRange,
}

impl<'a> FramePacket<'a> {
    /// A frame that starts at byte `file_offset` of the file.
    pub fn new(header: FrameHeader, payload: &'a [u8], file_offset: usize) -> (p: FramePacket<'a>)
        requires
            payload@.len() + FRAME_HEADER_SIZE <= usize::MAX,
        ensures
            p.header == header,
            p.payload@ == payload@,
            p.range.offset == file_offset,
            p.range.len == FRAME_HEADER_SIZE + payload@.len(),
    {
        FramePacket {
            header,
            payload,
            range: ByteRange::new(file_offset, FRAME_HEADER_SIZE + payload.len()),
        }
    }
}

} // verus!

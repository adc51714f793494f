//! Errors of the codec.

use vstd::prelude::*;

verus! {

/// What can go wrong while encoding or decoding.
#[allow(inconsistent_fields)]
#[derive(Debug)]
pub enum CrfError {
    /// The data end before the byte that is needed.
    InsufficientData { expected: usize, actual: usize },
    /// A parameter, or a field of the stream, has a value without meaning.
    InvalidCodingParams(String),
    /// The checksum in the footer is not that of the data.
    CrcChecksumFailed { expected: u32, actual: u32 },
    /// The number of frames is outside what the format or the interface allows.
    FrameCountOutOfRange(u16),
    /// A frame's size differs from that of the first frame.
    ImageDimensionsMismatch { expected: (u16, u16), actual: (u16, u16) },
    /// The data do not start with the file magic.
    InvalidMagic,
}

/// Result of a codec operation.
pub type CrfResult<T> = Result<T, CrfError>;

/// What is wrong with some data, without the words.
#[allow(inconsistent_fields)]
pub enum Fault {
    Short { expected: int, actual: int },
    Invalid,
    Checksum { expected: u32, actual: u32 },
    FrameCount(u16),
    /// The width and height that the first frame has, and those of the frame at fault.
    Dimensions { width: u16, height: u16, other_width: u16, other_height: u16 },
    Magic,
}

/// What an error says is wrong.
pub open spec fn fault(e: CrfError) -> Fault {
    match e {
        CrfError::InsufficientData { expected, actual } => Fault::Short {
            expected: expected as int,
            actual: actual as int,
        },
        CrfError::InvalidCodingParams(_) => Fault::Invalid,
        CrfError::CrcChecksumFailed { expected, actual } => Fault::Checksum { expected, actual },
        CrfError::FrameCountOutOfRange(n) => Fault::FrameCount(n),
        CrfError::ImageDimensionsMismatch { expected, actual } => Fault::Dimensions {
            width: expected.0,
            height: expected.1,
            other_width: actual.0,
            other_height: actual.1,
        },
        CrfError::InvalidMagic => Fault::Magic,
    }
}

/// The samples or the error `r` are those of `s`.
pub open spec fn agrees(r: CrfResult<Vec<i32>>, s: Result<Seq<i32>, Fault>) -> bool {
    match r {
        Ok(v) => s == Ok::<Seq<i32>, Fault>(v@),
        Err(e) => s == Err::<Seq<i32>, Fault>(fault(e)),
    }
}

/// A number as far as a machine word holds it.
pub open spec fn word(n: int) -> int {
    if n > usize::MAX {
        usize::MAX as int
    } else {
        n
    }
}

/// The error for data that end too early.
pub fn short(at: usize, more: usize, actual: usize) -> (e: CrfError)
    ensures
        fault(e) == (Fault::Short { expected: word(at + more), actual: actual as int }),
{
    let expected: usize = if more > usize::MAX - at {
        usize::MAX
    } else {
        at + more
    };
    CrfError::InsufficientData { expected, actual }
}

/// The error for data that make no sense.
pub fn invalid(what: &str) -> (e: CrfError)
    ensures
        fault(e) == Fault::Invalid,
{
    CrfError::InvalidCodingParams(what.to_string())
}

} // verus!

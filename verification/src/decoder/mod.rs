//! The decoder.

pub mod banded;
pub mod coeff_cabac;
pub mod dispatcher;
pub mod exact;
pub mod exp_golomb;
pub mod fidelity;
pub mod footer;
pub mod golomb;
pub mod image_export;
pub mod intra_transform;
pub mod intrabc;
pub mod lossless;
pub mod packet;
pub mod palette;
pub mod planar;
pub mod playback;
pub mod reader;
pub mod readable;
pub mod reconstruct;
pub mod restored;
pub mod rle_golomb;
pub mod rle_cabac;
pub mod roundtrip;
pub mod session;
pub mod streaming;
pub mod transform;

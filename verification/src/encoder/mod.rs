//! The encoder.

pub mod adaptive;
pub mod banded;
pub mod batch;
pub mod candidate;
pub mod chain;
pub mod coeff_cabac;
pub mod coeff_coder;
pub mod cost;
pub mod dct_path;
pub mod exp_golomb;
pub mod film;
pub mod frame;
pub mod frame_form;
pub mod golomb;
pub mod intra_probe;
pub mod intrabc;
pub mod intra_transform;
pub mod lengths;
pub mod palette;
pub mod planar;
pub mod ranking;
pub mod rdoq;
pub mod rle_golomb;
pub mod rle_cabac;
pub mod reference;
pub mod scratch;
pub mod sequence;
pub mod sequence_batched;
pub mod sequence_tools;
pub mod session;
pub mod streaming;
pub mod transform;

//! CRF (Compressing Residual Frames): a codec for sequences of near-identical images.

pub mod common;
pub mod decoder;
pub mod encoder;

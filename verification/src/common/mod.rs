//! Definitions shared by the encoder and the decoder.

pub mod arith;
pub mod bits;
pub mod block_copy;
pub mod blocks;
pub mod bounds;
pub mod cabac_syntax;
pub mod choose_k;
pub mod close;
pub mod codes;
pub mod coeff_syntax;
pub mod config;
pub mod context;
pub mod crc;
pub mod dct;
pub mod digits;
pub mod domain;
pub mod error;
pub mod framing;
pub mod intra8;
pub mod le;
pub mod lic;
pub mod noise;
pub mod par;
pub mod plane;
pub mod predict;
pub mod quant;
pub mod range_coder;
pub mod transform;
pub mod zigzag;

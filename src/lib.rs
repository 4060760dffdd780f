//! Lossless FPC-style compression of runs of IEEE-754 doubles, given by their
//! 64-bit patterns: two context predictors (FCM and DFCM) guess each value,
//! and only the significant bytes of the better guess's xor residual are kept.
use vstd::prelude::*;

pub mod bytes;
pub mod decoder;
pub mod encoder;
pub mod format;
pub mod laws;
pub mod predictor;

pub use decoder::{decompress, decompress_into};
pub use encoder::{compress, compress_into};
pub use format::{FPCCompressedBlock, FpcError, DEFAULT_TABLE_SIZE};

verus! {

} // verus!

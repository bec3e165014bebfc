//! Lossless codec for sequences of 16-bit depth samples.
//!
//! The format exploits two structural properties of depth images: long runs
//! of the zero sentinel ("no data"), and small deltas between consecutive
//! non-zero samples.  An encoded stream alternates a zero-run count and a
//! non-zero-run count, followed by the zigzag-encoded deltas of the non-zero
//! run; every integer is serialized as a variable-length sequence of 4-bit
//! nibbles (3 value bits plus a continuation bit), and nibbles are packed
//! eight to a 32-bit word, words laid out as little-endian byte groups.

pub mod model;
pub mod codec;
pub mod laws;

pub use codec::RVLCodec;
pub use codec::RvlError;

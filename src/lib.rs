//! Arithmetic coding on top of a carry-less range coder.
//!
//! The coder keeps a shrinking interval of 32-bit code values, narrows it by the
//! probability range of each symbol that a [`model::Model`] hands out, and settles
//! the leading bytes of the interval as output. Every emitted byte is final: the
//! interval is clipped at a byte boundary instead of ever carrying into bytes
//! that were already written.
use vstd::prelude::*;

pub mod coding;
pub mod model;
pub mod range;
pub mod round_trip;
pub mod stream;

pub use crate::coding::{decode, encode};
pub use crate::model::{FrequencyTable, Model};
pub use crate::range::RangeEncoder;
pub use crate::stream::{CodingError, Decoder, Encoder};

verus! {

/// A unit of the code stream.
pub type Symbol = u8;

/// A bound of the coding interval, and the decoder's running code value.
pub type Border = u32;

/// The interval width that the coder keeps, unless a caller asks for another.
pub const RANGE_DEFAULT_THRESHOLD: u32 = 16384;

} // verus!

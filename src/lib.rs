//! Variable-length 32-bit integers: one to five bytes, seven data bits per
//! byte, least significant first, the high bit of every byte but the last
//! set. Decoding accepts non-minimal encodings and normalizes them.
use vstd::prelude::*;

pub mod format;
pub mod laws;
pub mod parse;
pub mod read;
pub mod varint;

pub use format::DecodeError;
pub use read::{PartialVarInt, ReadEvent, ReadStep};
pub use varint::{
    LooseVarInt, TryFromLooseSliceError, TryFromVarIntInnerError, TryFromVarIntSliceError, VarInt,
    VarIntFindResult, VarIntInner,
};

verus! {

} // verus!

//! Buffer-oriented binary codecs: fixed-width integers in big-, little- or
//! native-endian byte order, LEB128 integers, and ZigZag LEB128 integers,
//! over caller-managed byte slices.

use vstd::prelude::*;

pub mod binary_codec;
pub mod laws;
pub mod leb128_codec;
pub mod leb128_decode_error;
pub mod leb128_decode_policy;
pub mod leb128_spec;
mod sealed;
pub mod zig_zag_codec;

pub use binary_codec::BinaryCodec;
pub use leb128_codec::Leb128Codec;
pub use leb128_decode_error::{Leb128DecodeError, Leb128DecodeErrorKind, Leb128DecodeErrorView};
pub use leb128_decode_policy::{Leb128DecodePolicy, NonStrict, Strict};
pub use zig_zag_codec::ZigZagCodec;

verus! {

} // verus!

use vstd::prelude::*;
use vstd::arithmetic::power2::*;
use core::marker::PhantomData;

use crate::leb128_codec::{uleb_encoded_len, Leb128Codec};
use crate::leb128_decode_error::{Leb128DecodeError, Leb128DecodeErrorView};
use crate::leb128_decode_policy::{Leb128DecodePolicy, NonStrict};
use crate::leb128_spec::{
    lemma_platform_widths, lemma_pow2_facts, lemma_uleb_encoding_facts,
    lemma_uleb_encoding_within_units, signed_fits, uleb_decode, uleb_encoding, written,
};

verus! {

/// ZigZag mapping of a signed value to an unsigned one: `0, -1, 1, -2, ...`
/// map to `0, 1, 2, 3, ...`.
pub open spec fn zigzag(v: int) -> nat {
    if v >= 0 {
        (2 * v) as nat
    } else {
        (-2 * v - 1) as nat
    }
}

/// Inverse of [`zigzag`].
pub open spec fn unzigzag(u: nat) -> int {
    if u % 2 == 0 {
        (u / 2) as int
    } else {
        -((u / 2) as int) - 1
    }
}

/// Result of decoding a ZigZag LEB128 integer of `bits` bits from `input`
/// at `index`: the unsigned LEB128 result with its value mapped back.
pub open spec fn zigzag_decode(input: Seq<u8>, index: int, bits: nat, strict: bool) -> Result<
    (int, usize),
    Leb128DecodeErrorView,
> {
    match uleb_decode(input, index, bits, strict) {
        Ok((u, consumed)) => Ok((unzigzag(u as nat), consumed)),
        Err(e) => Err(e),
    }
}

/// ZigZag is a bijection between the signed and the unsigned values of
/// each width.
pub proof fn lemma_zigzag_bijection(v: int, u: nat, bits: nat)
    requires
        bits >= 1,
    ensures
        unzigzag(zigzag(v)) == v,
        zigzag(unzigzag(u)) == u,
        signed_fits(v, bits) ==> zigzag(v) < pow2(bits),
        u < pow2(bits) ==> signed_fits(unzigzag(u), bits),
{
    lemma_pow2_adds((bits - 1) as nat, 1);
    lemma2_to64();
    assert(((bits - 1) as nat + 1) as nat == bits);
}

/// Maps a signed value to its ZigZag form.
fn zigzag_encode_wide(value: i128) -> (encoded: u128)
    ensures
        encoded == zigzag(value as int),
{
    proof {
        assert((((value as u128) << 1u32) ^ ((value >> 127u32) as u128)) as int == (if value >= 0 {
            2 * (value as int)
        } else {
            -2 * (value as int) - 1
        })) by (bit_vector);
    }
    ((value as u128) << 1u32) ^ ((value >> 127u32) as u128)
}

/// Maps a ZigZag form back to its signed value.
fn zigzag_decode_wide(encoded: u128) -> (value: i128)
    ensures
        value == unzigzag(encoded as nat),
{
    proof {
        assert(encoded & 1 == encoded % 2) by (bit_vector);
        assert((encoded >> 1u32) == encoded / 2) by (bit_vector);
        lemma_pow2_facts();
    }
    let half = (encoded >> 1u32) as i128;
    let sign = -((encoded & 1) as i128);
    proof {
        assert(half ^ 0i128 == half) by (bit_vector);
        assert(half ^ -1i128 == -1i128 - half) by (bit_vector);
    }
    half ^ sign
}

} // verus!

// ---- per-type API ----

verus! {

/// Type-level ZigZag codec: a signed value is mapped by ZigZag to an
/// unsigned one, which is written as unsigned LEB128.
///
/// `P` is the decoding policy of the unsigned LEB128 payload.
#[derive(Copy, Debug, PartialEq, Eq)]
pub struct ZigZagCodec<T, P = NonStrict> {
    marker: PhantomData<(T, P)>,
}

impl<T, P> Clone for ZigZagCodec<T, P> {
    fn clone(&self) -> (r: Self) {
        ZigZagCodec { marker: PhantomData }
    }
}

impl<T, P> Default for ZigZagCodec<T, P> {
    fn default() -> (r: Self) {
        ZigZagCodec { marker: PhantomData }
    }
}

impl<P: Leb128DecodePolicy> ZigZagCodec<i8, P> {
    /// Minimum number of bytes that can represent a complete value.
    pub const MIN_UNITS_PER_VALUE: usize = 1;

    /// Maximum number of bytes emitted when encoding this type.
    pub const MAX_ENCODE_UNITS_PER_VALUE: usize = 2;

    /// Maximum number of bytes consumed when decoding this type.
    pub const MAX_DECODE_UNITS_PER_VALUE: usize = 2;

    /// Decodes a ZigZag LEB128 `i8` starting at `input_index`.
    ///
    /// Returns the value and the non-zero number of consumed bytes, or the
    /// error of the underlying unsigned LEB128 payload. At least one byte
    /// must be readable at `input_index`.
    pub fn decode(input: &[u8], input_index: usize) -> (r: Result<(i8, usize), Leb128DecodeError>)
        requires
            input_index < input@.len(),
        ensures
            match r {
                Ok((value, consumed)) => zigzag_decode(input@, input_index as int, 8, P::strict_flag())
                    == Ok::<(int, usize), Leb128DecodeErrorView>((value as int, consumed)),
                Err(e) => zigzag_decode(input@, input_index as int, 8, P::strict_flag())
                    == Err::<(int, usize), Leb128DecodeErrorView>(e@),
            },
    {
        match Leb128Codec::<u8, P>::decode(input, input_index) {
            Ok((encoded, consumed)) => {
                let value = zigzag_decode_wide(encoded as u128);
                proof {
                    lemma_pow2_facts();
                    lemma_zigzag_bijection(0, encoded as nat, 8);
                }
                Ok((value as i8, consumed))
            },
            Err(error) => Err(error),
        }
    }

    /// Encodes `value` as ZigZag LEB128 at `output_index` and returns the
    /// number of written bytes.
    ///
    /// The canonical width of the ZigZag form of `value` must be writable at
    /// `output_index`; reserving `MAX_ENCODE_UNITS_PER_VALUE` bytes always
    /// suffices.
    pub fn encode(value: i8, output: &mut [u8], output_index: usize) -> (written_len: usize)
        requires
            output_index + uleb_encoding(zigzag(value as int)).len() <= old(output)@.len(),
        ensures
            written_len == uleb_encoding(zigzag(value as int)).len(),
            written_len <= Self::MAX_ENCODE_UNITS_PER_VALUE,
            final(output)@ == written(old(output)@, output_index as int, uleb_encoding(zigzag(value as int))),
    {
        proof {
            lemma_pow2_facts();
            lemma_zigzag_bijection(value as int, 0, 8);
        }
        let encoded = zigzag_encode_wide(value as i128) as u8;
        Leb128Codec::<u8, NonStrict>::encode(encoded, output, output_index)
    }

    /// Returns the canonical ZigZag LEB128 byte width of `value`.
    pub fn encode_len(&self, value: &i8) -> (len: usize)
        ensures
            len == uleb_encoding(zigzag(*value as int)).len(),
            1 <= len <= Self::MAX_ENCODE_UNITS_PER_VALUE,
    {
        proof {
            lemma_pow2_facts();
            lemma_zigzag_bijection(*value as int, 0, 8);
            lemma_uleb_encoding_within_units(zigzag(*value as int), 8);
            lemma_uleb_encoding_facts(zigzag(*value as int));
        }
        let encoded = zigzag_encode_wide(*value as i128);
        uleb_encoded_len(encoded)
    }
}

impl<P: Leb128DecodePolicy> ZigZagCodec<i16, P> {
    /// Minimum number of bytes that can represent a complete value.
    pub const MIN_UNITS_PER_VALUE: usize = 1;

    /// Maximum number of bytes emitted when encoding this type.
    pub const MAX_ENCODE_UNITS_PER_VALUE: usize = 3;

    /// Maximum number of bytes consumed when decoding this type.
    pub const MAX_DECODE_UNITS_PER_VALUE: usize = 3;

    /// Decodes a ZigZag LEB128 `i16` starting at `input_index`.
    ///
    /// Returns the value and the non-zero number of consumed bytes, or the
    /// error of the underlying unsigned LEB128 payload. At least one byte
    /// must be readable at `input_index`.
    pub fn decode(input: &[u8], input_index: usize) -> (r: Result<(i16, usize), Leb128DecodeError>)
        requires
            input_index < input@.len(),
        ensures
            match r {
                Ok((value, consumed)) => zigzag_decode(input@, input_index as int, 16, P::strict_flag())
                    == Ok::<(int, usize), Leb128DecodeErrorView>((value as int, consumed)),
                Err(e) => zigzag_decode(input@, input_index as int, 16, P::strict_flag())
                    == Err::<(int, usize), Leb128DecodeErrorView>(e@),
            },
    {
        match Leb128Codec::<u16, P>::decode(input, input_index) {
            Ok((encoded, consumed)) => {
                let value = zigzag_decode_wide(encoded as u128);
                proof {
                    lemma_pow2_facts();
                    lemma_zigzag_bijection(0, encoded as nat, 16);
                }
                Ok((value as i16, consumed))
            },
            Err(error) => Err(error),
        }
    }

    /// Encodes `value` as ZigZag LEB128 at `output_index` and returns the
    /// number of written bytes.
    ///
    /// The canonical width of the ZigZag form of `value` must be writable at
    /// `output_index`; reserving `MAX_ENCODE_UNITS_PER_VALUE` bytes always
    /// suffices.
    pub fn encode(value: i16, output: &mut [u8], output_index: usize) -> (written_len: usize)
        requires
            output_index + uleb_encoding(zigzag(value as int)).len() <= old(output)@.len(),
        ensures
            written_len == uleb_encoding(zigzag(value as int)).len(),
            written_len <= Self::MAX_ENCODE_UNITS_PER_VALUE,
            final(output)@ == written(old(output)@, output_index as int, uleb_encoding(zigzag(value as int))),
    {
        proof {
            lemma_pow2_facts();
            lemma_zigzag_bijection(value as int, 0, 16);
        }
        let encoded = zigzag_encode_wide(value as i128) as u16;
        Leb128Codec::<u16, NonStrict>::encode(encoded, output, output_index)
    }

    /// Returns the canonical ZigZag LEB128 byte width of `value`.
    pub fn encode_len(&self, value: &i16) -> (len: usize)
        ensures
            len == uleb_encoding(zigzag(*value as int)).len(),
            1 <= len <= Self::MAX_ENCODE_UNITS_PER_VALUE,
    {
        proof {
            lemma_pow2_facts();
            lemma_zigzag_bijection(*value as int, 0, 16);
            lemma_uleb_encoding_within_units(zigzag(*value as int), 16);
            lemma_uleb_encoding_facts(zigzag(*value as int));
        }
        let encoded = zigzag_encode_wide(*value as i128);
        uleb_encoded_len(encoded)
    }
}

impl<P: Leb128DecodePolicy> ZigZagCodec<i32, P> {
    /// Minimum number of bytes that can represent a complete value.
    pub const MIN_UNITS_PER_VALUE: usize = 1;

    /// Maximum number of bytes emitted when encoding this type.
    pub const MAX_ENCODE_UNITS_PER_VALUE: usize = 5;

    /// Maximum number of bytes consumed when decoding this type.
    pub const MAX_DECODE_UNITS_PER_VALUE: usize = 5;

    /// Decodes a ZigZag LEB128 `i32` starting at `input_index`.
    ///
    /// Returns the value and the non-zero number of consumed bytes, or the
    /// error of the underlying unsigned LEB128 payload. At least one byte
    /// must be readable at `input_index`.
    pub fn decode(input: &[u8], input_index: usize) -> (r: Result<(i32, usize), Leb128DecodeError>)
        requires
            input_index < input@.len(),
        ensures
            match r {
                Ok((value, consumed)) => zigzag_decode(input@, input_index as int, 32, P::strict_flag())
                    == Ok::<(int, usize), Leb128DecodeErrorView>((value as int, consumed)),
                Err(e) => zigzag_decode(input@, input_index as int, 32, P::strict_flag())
                    == Err::<(int, usize), Leb128DecodeErrorView>(e@),
            },
    {
        match Leb128Codec::<u32, P>::decode(input, input_index) {
            Ok((encoded, consumed)) => {
                let value = zigzag_decode_wide(encoded as u128);
                proof {
                    lemma_pow2_facts();
                    lemma_zigzag_bijection(0, encoded as nat, 32);
                }
                Ok((value as i32, consumed))
            },
            Err(error) => Err(error),
        }
    }

    /// Encodes `value` as ZigZag LEB128 at `output_index` and returns the
    /// number of written bytes.
    ///
    /// The canonical width of the ZigZag form of `value` must be writable at
    /// `output_index`; reserving `MAX_ENCODE_UNITS_PER_VALUE` bytes always
    /// suffices.
    pub fn encode(value: i32, output: &mut [u8], output_index: usize) -> (written_len: usize)
        requires
            output_index + uleb_encoding(zigzag(value as int)).len() <= old(output)@.len(),
        ensures
            written_len == uleb_encoding(zigzag(value as int)).len(),
            written_len <= Self::MAX_ENCODE_UNITS_PER_VALUE,
            final(output)@ == written(old(output)@, output_index as int, uleb_encoding(zigzag(value as int))),
    {
        proof {
            lemma_pow2_facts();
            lemma_zigzag_bijection(value as int, 0, 32);
        }
        let encoded = zigzag_encode_wide(value as i128) as u32;
        Leb128Codec::<u32, NonStrict>::encode(encoded, output, output_index)
    }

    /// Returns the canonical ZigZag LEB128 byte width of `value`.
    pub fn encode_len(&self, value: &i32) -> (len: usize)
        ensures
            len == uleb_encoding(zigzag(*value as int)).len(),
            1 <= len <= Self::MAX_ENCODE_UNITS_PER_VALUE,
    {
        proof {
            lemma_pow2_facts();
            lemma_zigzag_bijection(*value as int, 0, 32);
            lemma_uleb_encoding_within_units(zigzag(*value as int), 32);
            lemma_uleb_encoding_facts(zigzag(*value as int));
        }
        let encoded = zigzag_encode_wide(*value as i128);
        uleb_encoded_len(encoded)
    }
}

impl<P: Leb128DecodePolicy> ZigZagCodec<i64, P> {
    /// Minimum number of bytes that can represent a complete value.
    pub const MIN_UNITS_PER_VALUE: usize = 1;

    /// Maximum number of bytes emitted when encoding this type.
    pub const MAX_ENCODE_UNITS_PER_VALUE: usize = 10;

    /// Maximum number of bytes consumed when decoding this type.
    pub const MAX_DECODE_UNITS_PER_VALUE: usize = 10;

    /// Decodes a ZigZag LEB128 `i64` starting at `input_index`.
    ///
    /// Returns the value and the non-zero number of consumed bytes, or the
    /// error of the underlying unsigned LEB128 payload. At least one byte
    /// must be readable at `input_index`.
    pub fn decode(input: &[u8], input_index: usize) -> (r: Result<(i64, usize), Leb128DecodeError>)
        requires
            input_index < input@.len(),
        ensures
            match r {
                Ok((value, consumed)) => zigzag_decode(input@, input_index as int, 64, P::strict_flag())
                    == Ok::<(int, usize), Leb128DecodeErrorView>((value as int, consumed)),
                Err(e) => zigzag_decode(input@, input_index as int, 64, P::strict_flag())
                    == Err::<(int, usize), Leb128DecodeErrorView>(e@),
            },
    {
        match Leb128Codec::<u64, P>::decode(input, input_index) {
            Ok((encoded, consumed)) => {
                let value = zigzag_decode_wide(encoded as u128);
                proof {
                    lemma_pow2_facts();
                    lemma_zigzag_bijection(0, encoded as nat, 64);
                }
                Ok((value as i64, consumed))
            },
            Err(error) => Err(error),
        }
    }

    /// Encodes `value` as ZigZag LEB128 at `output_index` and returns the
    /// number of written bytes.
    ///
    /// The canonical width of the ZigZag form of `value` must be writable at
    /// `output_index`; reserving `MAX_ENCODE_UNITS_PER_VALUE` bytes always
    /// suffices.
    pub fn encode(value: i64, output: &mut [u8], output_index: usize) -> (written_len: usize)
        requires
            output_index + uleb_encoding(zigzag(value as int)).len() <= old(output)@.len(),
        ensures
            written_len == uleb_encoding(zigzag(value as int)).len(),
            written_len <= Self::MAX_ENCODE_UNITS_PER_VALUE,
            final(output)@ == written(old(output)@, output_index as int, uleb_encoding(zigzag(value as int))),
    {
        proof {
            lemma_pow2_facts();
            lemma_zigzag_bijection(value as int, 0, 64);
        }
        let encoded = zigzag_encode_wide(value as i128) as u64;
        Leb128Codec::<u64, NonStrict>::encode(encoded, output, output_index)
    }

    /// Returns the canonical ZigZag LEB128 byte width of `value`.
    pub fn encode_len(&self, value: &i64) -> (len: usize)
        ensures
            len == uleb_encoding(zigzag(*value as int)).len(),
            1 <= len <= Self::MAX_ENCODE_UNITS_PER_VALUE,
    {
        proof {
            lemma_pow2_facts();
            lemma_zigzag_bijection(*value as int, 0, 64);
            lemma_uleb_encoding_within_units(zigzag(*value as int), 64);
            lemma_uleb_encoding_facts(zigzag(*value as int));
        }
        let encoded = zigzag_encode_wide(*value as i128);
        uleb_encoded_len(encoded)
    }
}

impl<P: Leb128DecodePolicy> ZigZagCodec<i128, P> {
    /// Minimum number of bytes that can represent a complete value.
    pub const MIN_UNITS_PER_VALUE: usize = 1;

    /// Maximum number of bytes emitted when encoding this type.
    pub const MAX_ENCODE_UNITS_PER_VALUE: usize = 19;

    /// Maximum number of bytes consumed when decoding this type.
    pub const MAX_DECODE_UNITS_PER_VALUE: usize = 19;

    /// Decodes a ZigZag LEB128 `i128` starting at `input_index`.
    ///
    /// Returns the value and the non-zero number of consumed bytes, or the
    /// error of the underlying unsigned LEB128 payload. At least one byte
    /// must be readable at `input_index`.
    pub fn decode(input: &[u8], input_index: usize) -> (r: Result<(i128, usize), Leb128DecodeError>)
        requires
            input_index < input@.len(),
        ensures
            match r {
                Ok((value, consumed)) => zigzag_decode(input@, input_index as int, 128, P::strict_flag())
                    == Ok::<(int, usize), Leb128DecodeErrorView>((value as int, consumed)),
                Err(e) => zigzag_decode(input@, input_index as int, 128, P::strict_flag())
                    == Err::<(int, usize), Leb128DecodeErrorView>(e@),
            },
    {
        match Leb128Codec::<u128, P>::decode(input, input_index) {
            Ok((encoded, consumed)) => {
                let value = zigzag_decode_wide(encoded as u128);
                proof {
                    lemma_pow2_facts();
                    lemma_zigzag_bijection(0, encoded as nat, 128);
                }
                Ok((value as i128, consumed))
            },
            Err(error) => Err(error),
        }
    }

    /// Encodes `value` as ZigZag LEB128 at `output_index` and returns the
    /// number of written bytes.
    ///
    /// The canonical width of the ZigZag form of `value` must be writable at
    /// `output_index`; reserving `MAX_ENCODE_UNITS_PER_VALUE` bytes always
    /// suffices.
    pub fn encode(value: i128, output: &mut [u8], output_index: usize) -> (written_len: usize)
        requires
            output_index + uleb_encoding(zigzag(value as int)).len() <= old(output)@.len(),
        ensures
            written_len == uleb_encoding(zigzag(value as int)).len(),
            written_len <= Self::MAX_ENCODE_UNITS_PER_VALUE,
            final(output)@ == written(old(output)@, output_index as int, uleb_encoding(zigzag(value as int))),
    {
        proof {
            lemma_pow2_facts();
            lemma_zigzag_bijection(value as int, 0, 128);
        }
        let encoded = zigzag_encode_wide(value as i128) as u128;
        Leb128Codec::<u128, NonStrict>::encode(encoded, output, output_index)
    }

    /// Returns the canonical ZigZag LEB128 byte width of `value`.
    pub fn encode_len(&self, value: &i128) -> (len: usize)
        ensures
            len == uleb_encoding(zigzag(*value as int)).len(),
            1 <= len <= Self::MAX_ENCODE_UNITS_PER_VALUE,
    {
        proof {
            lemma_pow2_facts();
            lemma_zigzag_bijection(*value as int, 0, 128);
            lemma_uleb_encoding_within_units(zigzag(*value as int), 128);
            lemma_uleb_encoding_facts(zigzag(*value as int));
        }
        let encoded = zigzag_encode_wide(*value as i128);
        uleb_encoded_len(encoded)
    }
}

impl<P: Leb128DecodePolicy> ZigZagCodec<isize, P> {
    /// Minimum number of bytes that can represent a complete value.
    pub const MIN_UNITS_PER_VALUE: usize = 1;

    /// Maximum number of bytes emitted when encoding this type.
    pub const MAX_ENCODE_UNITS_PER_VALUE: usize = (usize::BITS as usize + 6) / 7;

    /// Maximum number of bytes consumed when decoding this type.
    pub const MAX_DECODE_UNITS_PER_VALUE: usize = (usize::BITS as usize + 6) / 7;

    /// Decodes a ZigZag LEB128 `isize` starting at `input_index`.
    ///
    /// Returns the value and the non-zero number of consumed bytes, or the
    /// error of the underlying unsigned LEB128 payload. At least one byte
    /// must be readable at `input_index`.
    pub fn decode(input: &[u8], input_index: usize) -> (r: Result<(isize, usize), Leb128DecodeError>)
        requires
            input_index < input@.len(),
        ensures
            match r {
                Ok((value, consumed)) => zigzag_decode(input@, input_index as int, (usize::BITS as nat), P::strict_flag())
                    == Ok::<(int, usize), Leb128DecodeErrorView>((value as int, consumed)),
                Err(e) => zigzag_decode(input@, input_index as int, (usize::BITS as nat), P::strict_flag())
                    == Err::<(int, usize), Leb128DecodeErrorView>(e@),
            },
    {
        match Leb128Codec::<usize, P>::decode(input, input_index) {
            Ok((encoded, consumed)) => {
                let value = zigzag_decode_wide(encoded as u128);
                proof {
                    lemma_pow2_facts();
            lemma_platform_widths();
                    lemma_zigzag_bijection(0, encoded as nat, (usize::BITS as nat));
                }
                Ok((value as isize, consumed))
            },
            Err(error) => Err(error),
        }
    }

    /// Encodes `value` as ZigZag LEB128 at `output_index` and returns the
    /// number of written bytes.
    ///
    /// The canonical width of the ZigZag form of `value` must be writable at
    /// `output_index`; reserving `MAX_ENCODE_UNITS_PER_VALUE` bytes always
    /// suffices.
    pub fn encode(value: isize, output: &mut [u8], output_index: usize) -> (written_len: usize)
        requires
            output_index + uleb_encoding(zigzag(value as int)).len() <= old(output)@.len(),
        ensures
            written_len == uleb_encoding(zigzag(value as int)).len(),
            written_len <= Self::MAX_ENCODE_UNITS_PER_VALUE,
            final(output)@ == written(old(output)@, output_index as int, uleb_encoding(zigzag(value as int))),
    {
        proof {
            lemma_pow2_facts();
            lemma_platform_widths();
            lemma_zigzag_bijection(value as int, 0, (usize::BITS as nat));
        }
        let encoded = zigzag_encode_wide(value as i128) as usize;
        Leb128Codec::<usize, NonStrict>::encode(encoded, output, output_index)
    }

    /// Returns the canonical ZigZag LEB128 byte width of `value`.
    pub fn encode_len(&self, value: &isize) -> (len: usize)
        ensures
            len == uleb_encoding(zigzag(*value as int)).len(),
            1 <= len <= Self::MAX_ENCODE_UNITS_PER_VALUE,
    {
        proof {
            lemma_pow2_facts();
            lemma_platform_widths();
            lemma_zigzag_bijection(*value as int, 0, (usize::BITS as nat));
            lemma_uleb_encoding_within_units(zigzag(*value as int), (usize::BITS as nat));
            lemma_uleb_encoding_facts(zigzag(*value as int));
        }
        let encoded = zigzag_encode_wide(*value as i128);
        uleb_encoded_len(encoded)
    }
}

} // verus!

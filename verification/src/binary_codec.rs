use vstd::prelude::*;
use vstd::arithmetic::power2::*;
use vstd::arithmetic::div_mod::*;
use core::marker::PhantomData;

use qubit_codec::{BigEndian, LittleEndian, NativeEndian};

use crate::leb128_spec::{lemma_pow2_facts, written};
use vstd::endian::{endianness, Endian};

verus! {

// ---------------------------------------------------------------------------
// Byte-order markers of `qubit_codec`
// ---------------------------------------------------------------------------

/// `qubit_codec::BigEndian`, a type-level marker for big-endian byte order.
#[verifier::external_type_specification]
#[verifier::external_body]
pub struct ExBigEndian(BigEndian);

/// `qubit_codec::LittleEndian`, a type-level marker for little-endian byte
/// order.
#[verifier::external_type_specification]
#[verifier::external_body]
pub struct ExLittleEndian(LittleEndian);

/// `qubit_codec::NativeEndian`, a type-level marker for the platform's byte
/// order.
#[verifier::external_type_specification]
#[verifier::external_body]
pub struct ExNativeEndian(NativeEndian);

// ---------------------------------------------------------------------------
// Fixed-width wire format
// ---------------------------------------------------------------------------

/// The `w` little-endian bytes of `v` (the bytes of `v mod 2^(8w)`).
pub open spec fn le_bytes(v: nat, w: nat) -> Seq<u8>
    decreases w,
{
    if w == 0 {
        Seq::empty()
    } else {
        seq![(v % 256) as u8] + le_bytes(v / 256, (w - 1) as nat)
    }
}

/// The `w` big-endian bytes of `v` (the bytes of `v mod 2^(8w)`).
pub open spec fn be_bytes(v: nat, w: nat) -> Seq<u8>
    decreases w,
{
    if w == 0 {
        Seq::empty()
    } else {
        be_bytes(v / 256, (w - 1) as nat).push((v % 256) as u8)
    }
}

/// The unsigned value of little-endian bytes.
pub open spec fn le_value(s: Seq<u8>) -> nat
    decreases s.len(),
{
    if s.len() == 0 {
        0
    } else {
        s[0] as nat + 256 * le_value(s.drop_first())
    }
}

/// The unsigned value of big-endian bytes.
pub open spec fn be_value(s: Seq<u8>) -> nat
    decreases s.len(),
{
    if s.len() == 0 {
        0
    } else {
        be_value(s.drop_last()) * 256 + s.last() as nat
    }
}

/// Two's complement bit pattern of `v` in `w` bytes.
pub open spec fn twos_complement(v: int, w: nat) -> nat {
    if v >= 0 {
        v as nat
    } else {
        (v + pow2(8 * w)) as nat
    }
}

/// Signed value of the `w`-byte two's complement bit pattern `u`.
pub open spec fn from_twos_complement(u: nat, w: nat) -> int {
    if u < pow2((8 * w - 1) as nat) {
        u as int
    } else {
        u - pow2(8 * w)
    }
}

/// `256^w` as a power of two.
proof fn lemma_byte_weight_step(w: nat)
    ensures
        pow2(8 * (w + 1)) == 256 * pow2(8 * w),
        pow2(8 * w) > 0,
{
    lemma_pow2_adds(8 * w, 8);
    assert(8 * (w + 1) == 8 * w + 8) by (nonlinear_arith);
    lemma2_to64();
    lemma_pow2_pos(8 * w);
}

/// Little-endian bytes read back as the value they were made from.
pub proof fn lemma_le_roundtrip(v: nat, w: nat)
    requires
        v < pow2(8 * w),
    ensures
        le_bytes(v, w).len() == w,
        le_value(le_bytes(v, w)) == v,
    decreases w,
{
    lemma_byte_weight_step((w - 1) as nat);
    if w == 0 {
        lemma2_to64();
    } else {
        lemma_byte_weight_step((w - 1) as nat);
        lemma_le_roundtrip(v / 256, (w - 1) as nat);
        let b = le_bytes(v, w);
        assert(b.drop_first() =~= le_bytes(v / 256, (w - 1) as nat));
        lemma_fundamental_div_mod(v as int, 256);
    }
}

/// Big-endian bytes read back as the value they were made from.
pub proof fn lemma_be_roundtrip(v: nat, w: nat)
    requires
        v < pow2(8 * w),
    ensures
        be_bytes(v, w).len() == w,
        be_value(be_bytes(v, w)) == v,
    decreases w,
{
    if w == 0 {
        lemma2_to64();
    } else {
        lemma_byte_weight_step((w - 1) as nat);
        lemma_be_roundtrip(v / 256, (w - 1) as nat);
        let b = be_bytes(v, w);
        assert(b.drop_last() =~= be_bytes(v / 256, (w - 1) as nat));
        lemma_fundamental_div_mod(v as int, 256);
    }
}

/// The value of `w` bytes is below `2^(8w)`.
pub proof fn lemma_byte_values_bound(s: Seq<u8>)
    ensures
        le_value(s) < pow2(8 * s.len()),
        be_value(s) < pow2(8 * s.len()),
    decreases s.len(),
{
    lemma_byte_weight_step(s.len());
    if s.len() == 0 {
        lemma2_to64();
    } else {
        lemma_byte_weight_step((s.len() - 1) as nat);
        lemma_byte_values_bound(s.drop_first());
        lemma_byte_values_bound(s.drop_last());
    }
}

/// Two's complement patterns and signed values correspond one to one.
pub proof fn lemma_twos_complement(v: int, u: nat, w: nat)
    requires
        w >= 1,
    ensures
        -pow2((8 * w - 1) as nat) <= v < pow2((8 * w - 1) as nat) ==> twos_complement(v, w) < pow2(
            8 * w,
        ) && from_twos_complement(twos_complement(v, w), w) == v,
        u < pow2(8 * w) ==> -pow2((8 * w - 1) as nat) <= from_twos_complement(u, w) < pow2(
            (8 * w - 1) as nat,
        ) && twos_complement(from_twos_complement(u, w), w) == u,
{
    lemma_pow2_adds((8 * w - 1) as nat, 1);
    lemma2_to64();
    assert(((8 * w - 1) as nat + 1) as nat == 8 * w);
}

// ---------------------------------------------------------------------------
// Byte loops
// ---------------------------------------------------------------------------

/// Writes the `width` big-endian bytes of `value` at `index`.
fn write_be(output: &mut [u8], index: usize, value: u128, width: usize)
    requires
        index + width <= old(output)@.len(),
        value < pow2((8 * width) as nat),
    ensures
        final(output)@ == written(old(output)@, index as int, be_bytes(value as nat, width as nat)),
{
    let ghost before = output@;
    let output_len = output.len();
    let mut remaining = value;
    let mut i = width;
    proof {
        assert(output@.subrange(index + width, index + width) =~= Seq::<u8>::empty());
        assert(be_bytes(value as nat, width as nat) =~= be_bytes(value as nat, width as nat)
            + Seq::<u8>::empty());
    }
    while i > 0
        invariant
            before == old(output)@,
            output_len == before.len(),
            index + width <= before.len(),
            output@.len() == before.len(),
            i <= width,
            be_bytes(value as nat, width as nat) == be_bytes(remaining as nat, i as nat)
                + output@.subrange(index + i, index + width),
            forall|j: int| 0 <= j < index + i ==> output@[j] == before[j],
            forall|j: int| index + width <= j < before.len() ==> output@[j] == before[j],
        decreases i,
    {
        let ghost tail = output@.subrange(index + i, index + width);
        let byte = (remaining % 256) as u8;
        output[index + i - 1] = byte;
        proof {
            assert(be_bytes(remaining as nat, i as nat) =~= be_bytes(
                (remaining / 256) as nat,
                (i - 1) as nat,
            ).push(byte));
            assert(output@.subrange(index + i - 1, index + width) =~= seq![byte] + tail);
        }
        remaining = remaining / 256;
        i = i - 1;
    }
    proof {
        assert(be_bytes(remaining as nat, 0) =~= Seq::<u8>::empty());
        assert(output@ =~= written(before, index as int, be_bytes(value as nat, width as nat)));
    }
}

/// Writes the `width` little-endian bytes of `value` at `index`.
fn write_le(output: &mut [u8], index: usize, value: u128, width: usize)
    requires
        index + width <= old(output)@.len(),
        value < pow2((8 * width) as nat),
    ensures
        final(output)@ == written(old(output)@, index as int, le_bytes(value as nat, width as nat)),
{
    let ghost before = output@;
    let output_len = output.len();
    let mut remaining = value;
    let mut i: usize = 0;
    proof {
        assert(output@.subrange(index as int, index as int) =~= Seq::<u8>::empty());
    }
    while i < width
        invariant
            before == old(output)@,
            output_len == before.len(),
            index + width <= before.len(),
            output@.len() == before.len(),
            i <= width,
            le_bytes(value as nat, width as nat) == output@.subrange(index as int, index + i)
                + le_bytes(remaining as nat, (width - i) as nat),
            forall|j: int| 0 <= j < index ==> output@[j] == before[j],
            forall|j: int| index + i <= j < before.len() ==> output@[j] == before[j],
        decreases width - i,
    {
        let ghost head = output@.subrange(index as int, index + i);
        let byte = (remaining % 256) as u8;
        output[index + i] = byte;
        proof {
            assert(le_bytes(remaining as nat, (width - i) as nat) =~= seq![byte] + le_bytes(
                (remaining / 256) as nat,
                (width - i - 1) as nat,
            ));
            assert(output@.subrange(index as int, index + i + 1) =~= head.push(byte));
        }
        remaining = remaining / 256;
        i = i + 1;
    }
    proof {
        assert(le_bytes(remaining as nat, 0) =~= Seq::<u8>::empty());
        assert(output@ =~= written(before, index as int, le_bytes(value as nat, width as nat)));
    }
}

/// Reads `width` big-endian bytes at `index`.
fn read_be(input: &[u8], index: usize, width: usize) -> (value: u128)
    requires
        index + width <= input@.len(),
        width <= 16,
    ensures
        value == be_value(input@.subrange(index as int, index + width)),
{
    let input_len = input.len();
    let mut value: u128 = 0;
    let mut i: usize = 0;
    proof {
        assert(input@.subrange(index as int, index as int) =~= Seq::<u8>::empty());
    }
    while i < width
        invariant
            index + width <= input@.len(),
            input_len == input@.len(),
            width <= 16,
            i <= width,
            value == be_value(input@.subrange(index as int, index + i)),
        decreases width - i,
    {
        let ghost head = input@.subrange(index as int, index + i);
        let byte = input[index + i];
        proof {
            let next = input@.subrange(index as int, index + i + 1);
            assert(next.drop_last() =~= head);
            lemma_byte_values_bound(head);
            lemma_byte_weight_step(i as nat);
            lemma_pow2_facts();
            if i + 1 < 16 {
                lemma_pow2_strictly_increases(8 * (i + 1) as nat, 128);
            }
        }
        value = value * 256 + byte as u128;
        i = i + 1;
    }
    value
}

/// Reads `width` little-endian bytes at `index`.
fn read_le(input: &[u8], index: usize, width: usize) -> (value: u128)
    requires
        index + width <= input@.len(),
        width <= 16,
    ensures
        value == le_value(input@.subrange(index as int, index + width)),
{
    let input_len = input.len();
    let mut value: u128 = 0;
    let mut i = width;
    proof {
        assert(input@.subrange(index + width, index + width) =~= Seq::<u8>::empty());
    }
    while i > 0
        invariant
            index + width <= input@.len(),
            input_len == input@.len(),
            width <= 16,
            i <= width,
            value == le_value(input@.subrange(index + i, index + width)),
        decreases i,
    {
        let ghost tail = input@.subrange(index + i, index + width);
        let byte = input[index + i - 1];
        proof {
            let next = input@.subrange(index + i - 1, index + width);
            assert(next.drop_first() =~= tail);
            lemma_byte_values_bound(tail);
            lemma_byte_weight_step((width - i) as nat);
            lemma_pow2_facts();
            if width - i + 1 < 16 {
                lemma_pow2_strictly_increases(8 * (width - i + 1) as nat, 128);
            }
        }
        value = byte as u128 + value * 256;
        i = i - 1;
    }
    value
}

} // verus!

// ---- per-type API ----

verus! {

// ---------------------------------------------------------------------------
// Two's complement conversions
// ---------------------------------------------------------------------------

/// The two's complement bit pattern of a `i8`.
fn i8_to_bits(value: i8) -> (bits: u8)
    ensures
        bits == twos_complement(value as int, 1),
{
    proof {
        lemma_pow2_facts();
        assert((value as u8) as int == (if value >= 0 {
            value as int
        } else {
            value as int + 0x100
        })) by (bit_vector);
    }
    value as u8
}

/// The `i8` whose two's complement bit pattern is `bits`.
fn i8_from_bits(bits: u8) -> (value: i8)
    ensures
        value == from_twos_complement(bits as nat, 1),
{
    proof {
        lemma_pow2_facts();
        assert((bits as i8) as int == (if bits < 0x80 {
            bits as int
        } else {
            bits as int - 0x100
        })) by (bit_vector);
    }
    bits as i8
}

/// The two's complement bit pattern of a `i16`.
fn i16_to_bits(value: i16) -> (bits: u16)
    ensures
        bits == twos_complement(value as int, 2),
{
    proof {
        lemma_pow2_facts();
        assert((value as u16) as int == (if value >= 0 {
            value as int
        } else {
            value as int + 0x10000
        })) by (bit_vector);
    }
    value as u16
}

/// The `i16` whose two's complement bit pattern is `bits`.
fn i16_from_bits(bits: u16) -> (value: i16)
    ensures
        value == from_twos_complement(bits as nat, 2),
{
    proof {
        lemma_pow2_facts();
        assert((bits as i16) as int == (if bits < 0x8000 {
            bits as int
        } else {
            bits as int - 0x10000
        })) by (bit_vector);
    }
    bits as i16
}

/// The two's complement bit pattern of a `i32`.
fn i32_to_bits(value: i32) -> (bits: u32)
    ensures
        bits == twos_complement(value as int, 4),
{
    proof {
        lemma_pow2_facts();
        assert((value as u32) as int == (if value >= 0 {
            value as int
        } else {
            value as int + 0x100000000
        })) by (bit_vector);
    }
    value as u32
}

/// The `i32` whose two's complement bit pattern is `bits`.
fn i32_from_bits(bits: u32) -> (value: i32)
    ensures
        value == from_twos_complement(bits as nat, 4),
{
    proof {
        lemma_pow2_facts();
        assert((bits as i32) as int == (if bits < 0x80000000 {
            bits as int
        } else {
            bits as int - 0x100000000
        })) by (bit_vector);
    }
    bits as i32
}

/// The two's complement bit pattern of a `i64`.
fn i64_to_bits(value: i64) -> (bits: u64)
    ensures
        bits == twos_complement(value as int, 8),
{
    proof {
        lemma_pow2_facts();
        assert((value as u64) as int == (if value >= 0 {
            value as int
        } else {
            value as int + 0x10000000000000000
        })) by (bit_vector);
    }
    value as u64
}

/// The `i64` whose two's complement bit pattern is `bits`.
fn i64_from_bits(bits: u64) -> (value: i64)
    ensures
        value == from_twos_complement(bits as nat, 8),
{
    proof {
        lemma_pow2_facts();
        assert((bits as i64) as int == (if bits < 0x8000000000000000 {
            bits as int
        } else {
            bits as int - 0x10000000000000000
        })) by (bit_vector);
    }
    bits as i64
}

/// The two's complement bit pattern of a `i128`.
fn i128_to_bits(value: i128) -> (bits: u128)
    ensures
        bits == twos_complement(value as int, 16),
{
    proof {
        lemma_pow2_facts();
        assert((value as u128) as int == (if value >= 0 {
            value as int
        } else {
            value as int + 0x100000000000000000000000000000000
        })) by (bit_vector);
    }
    value as u128
}

/// The `i128` whose two's complement bit pattern is `bits`.
fn i128_from_bits(bits: u128) -> (value: i128)
    ensures
        value == from_twos_complement(bits as nat, 16),
{
    proof {
        lemma_pow2_facts();
        assert((bits as i128) as int == (if bits < 0x80000000000000000000000000000000 {
            bits as int
        } else {
            bits as int - 0x100000000000000000000000000000000
        })) by (bit_vector);
    }
    bits as i128
}

// ---------------------------------------------------------------------------
// Platform byte order
// ---------------------------------------------------------------------------

/// Whether the running machine stores the least significant byte first:
/// vstd's `endianness()`, the byte order of the executing hardware, which
/// is one and the same for every call.
pub open spec fn native_little_endian() -> bool {
    endianness() is Little
}

/// The unsigned value of bytes in the machine's byte order.
pub open spec fn ne_value(s: Seq<u8>) -> nat {
    if native_little_endian() {
        le_value(s)
    } else {
        be_value(s)
    }
}

/// The `w` bytes of `v` in the machine's byte order.
pub open spec fn ne_bytes(v: nat, w: nat) -> Seq<u8> {
    if native_little_endian() {
        le_bytes(v, w)
    } else {
        be_bytes(v, w)
    }
}

/// `u16::from_ne_bytes`: the value of two bytes in the platform's native
/// byte order, little-endian where vstd's `endianness()` (the executing
/// hardware's byte order) is `Little`, big-endian otherwise.
#[verifier::external_body]
fn u16_from_ne_bytes(bytes: [u8; 2]) -> (value: u16)
    ensures
        value == (if native_little_endian() {
            bytes@[0] + 256 * bytes@[1]
        } else {
            256 * bytes@[0] + bytes@[1]
        }),
{
    u16::from_ne_bytes(bytes)
}

/// Whether the platform stores the least significant byte first.
fn native_is_little_endian() -> (b: bool)
    ensures
        b == native_little_endian(),
{
    u16_from_ne_bytes([1, 0]) == 1
}

// ---------------------------------------------------------------------------
// The codec
// ---------------------------------------------------------------------------

/// Type-level fixed-width binary codec for one integer type `T` and one
/// byte order `O` (`BigEndian`, `LittleEndian` or `NativeEndian` of
/// `qubit_codec`). Single-byte types accept any marker.
#[derive(Copy, Debug, PartialEq, Eq, Hash)]
pub struct BinaryCodec<T, O> {
    marker: PhantomData<(T, O)>,
}

impl<T, O> Clone for BinaryCodec<T, O> {
    fn clone(&self) -> (r: Self) {
        BinaryCodec { marker: PhantomData }
    }
}

impl<T, O> Default for BinaryCodec<T, O> {
    fn default() -> (r: Self) {
        BinaryCodec { marker: PhantomData }
    }
}

impl<O> BinaryCodec<u8, O> {
    /// Minimum number of bytes required to encode or decode this type.
    pub const MIN_UNITS_PER_VALUE: usize = 1;

    /// Maximum number of bytes emitted when encoding this type.
    pub const MAX_ENCODE_UNITS_PER_VALUE: usize = 1;

    /// Maximum number of bytes consumed when decoding this type.
    pub const MAX_DECODE_UNITS_PER_VALUE: usize = 1;

    /// Decodes the byte at `input_index`; returns it and the consumed count.
    pub fn decode(input: &[u8], input_index: usize) -> (r: (u8, usize))
        requires
            input_index + 1 <= input@.len(),
        ensures
            r.0 == input@[input_index as int],
            r.1 == 1,
    {
        (input[input_index], Self::MIN_UNITS_PER_VALUE)
    }

    /// Writes `value` at `output_index`; returns the written count.
    pub fn encode(value: u8, output: &mut [u8], output_index: usize) -> (written_len: usize)
        requires
            output_index + 1 <= old(output)@.len(),
        ensures
            written_len == 1,
            final(output)@ == written(old(output)@, output_index as int, seq![value]),
    {
        output[output_index] = value;
        proof {
            assert(output@ =~= written(old(output)@, output_index as int, seq![value]));
        }
        Self::MAX_ENCODE_UNITS_PER_VALUE
    }
}

impl<O> BinaryCodec<i8, O> {
    /// Minimum number of bytes required to encode or decode this type.
    pub const MIN_UNITS_PER_VALUE: usize = 1;

    /// Maximum number of bytes emitted when encoding this type.
    pub const MAX_ENCODE_UNITS_PER_VALUE: usize = 1;

    /// Maximum number of bytes consumed when decoding this type.
    pub const MAX_DECODE_UNITS_PER_VALUE: usize = 1;

    /// Decodes the byte at `input_index` as a two's complement `i8`; returns
    /// it and the consumed count.
    pub fn decode(input: &[u8], input_index: usize) -> (r: (i8, usize))
        requires
            input_index + 1 <= input@.len(),
        ensures
            r.0 == from_twos_complement(input@[input_index as int] as nat, 1),
            r.1 == 1,
    {
        (i8_from_bits(input[input_index]), Self::MIN_UNITS_PER_VALUE)
    }

    /// Writes the two's complement byte of `value` at `output_index`;
    /// returns the written count.
    pub fn encode(value: i8, output: &mut [u8], output_index: usize) -> (written_len: usize)
        requires
            output_index + 1 <= old(output)@.len(),
        ensures
            written_len == 1,
            final(output)@ == written(
                old(output)@,
                output_index as int,
                seq![twos_complement(value as int, 1) as u8],
            ),
    {
        output[output_index] = i8_to_bits(value);
        proof {
            assert(output@ =~= written(
                old(output)@,
                output_index as int,
                seq![twos_complement(value as int, 1) as u8],
            ));
        }
        Self::MAX_ENCODE_UNITS_PER_VALUE
    }
}

impl BinaryCodec<u16, BigEndian> {
    /// Minimum number of bytes required to encode or decode this type.
    pub const MIN_UNITS_PER_VALUE: usize = 2;

    /// Maximum number of bytes emitted when encoding this type.
    pub const MAX_ENCODE_UNITS_PER_VALUE: usize = 2;

    /// Maximum number of bytes consumed when decoding this type.
    pub const MAX_DECODE_UNITS_PER_VALUE: usize = 2;

    /// Decodes the 2 big-endian bytes at `input_index`; returns the value and
    /// the consumed count.
    pub fn decode(input: &[u8], input_index: usize) -> (r: (u16, usize))
        requires
            input_index + 2 <= input@.len(),
        ensures
            r.0 == be_value(input@.subrange(input_index as int, input_index + 2)),
            r.1 == 2,
    {
        proof {
            lemma_pow2_facts();
            lemma_byte_values_bound(input@.subrange(input_index as int, input_index + 2));
        }
        (read_be(input, input_index, 2) as u16, Self::MIN_UNITS_PER_VALUE)
    }

    /// Writes the 2 big-endian bytes of `value` at `output_index`; returns
    /// the written count.
    pub fn encode(value: u16, output: &mut [u8], output_index: usize) -> (written_len: usize)
        requires
            output_index + 2 <= old(output)@.len(),
        ensures
            written_len == 2,
            final(output)@ == written(old(output)@, output_index as int, be_bytes(value as nat, 2)),
    {
        proof {
            lemma_pow2_facts();
        }
        write_be(output, output_index, value as u128, 2);
        Self::MAX_ENCODE_UNITS_PER_VALUE
    }
}

impl BinaryCodec<u16, LittleEndian> {
    /// Minimum number of bytes required to encode or decode this type.
    pub const MIN_UNITS_PER_VALUE: usize = 2;

    /// Maximum number of bytes emitted when encoding this type.
    pub const MAX_ENCODE_UNITS_PER_VALUE: usize = 2;

    /// Maximum number of bytes consumed when decoding this type.
    pub const MAX_DECODE_UNITS_PER_VALUE: usize = 2;

    /// Decodes the 2 little-endian bytes at `input_index`; returns the value and
    /// the consumed count.
    pub fn decode(input: &[u8], input_index: usize) -> (r: (u16, usize))
        requires
            input_index + 2 <= input@.len(),
        ensures
            r.0 == le_value(input@.subrange(input_index as int, input_index + 2)),
            r.1 == 2,
    {
        proof {
            lemma_pow2_facts();
            lemma_byte_values_bound(input@.subrange(input_index as int, input_index + 2));
        }
        (read_le(input, input_index, 2) as u16, Self::MIN_UNITS_PER_VALUE)
    }

    /// Writes the 2 little-endian bytes of `value` at `output_index`; returns
    /// the written count.
    pub fn encode(value: u16, output: &mut [u8], output_index: usize) -> (written_len: usize)
        requires
            output_index + 2 <= old(output)@.len(),
        ensures
            written_len == 2,
            final(output)@ == written(old(output)@, output_index as int, le_bytes(value as nat, 2)),
    {
        proof {
            lemma_pow2_facts();
        }
        write_le(output, output_index, value as u128, 2);
        Self::MAX_ENCODE_UNITS_PER_VALUE
    }
}

impl BinaryCodec<u16, NativeEndian> {
    /// Minimum number of bytes required to encode or decode this type.
    pub const MIN_UNITS_PER_VALUE: usize = 2;

    /// Maximum number of bytes emitted when encoding this type.
    pub const MAX_ENCODE_UNITS_PER_VALUE: usize = 2;

    /// Maximum number of bytes consumed when decoding this type.
    pub const MAX_DECODE_UNITS_PER_VALUE: usize = 2;

    /// Decodes the 2 bytes at `input_index` in the platform's byte order;
    /// returns the value and the consumed count.
    pub fn decode(input: &[u8], input_index: usize) -> (r: (u16, usize))
        requires
            input_index + 2 <= input@.len(),
        ensures
            r.0 == ne_value(input@.subrange(input_index as int, input_index + 2)),
            r.1 == 2,
    {
        proof {
            lemma_pow2_facts();
            lemma_byte_values_bound(input@.subrange(input_index as int, input_index + 2));
        }
        if native_is_little_endian() {
            BinaryCodec::<u16, LittleEndian>::decode(input, input_index)
        } else {
            BinaryCodec::<u16, BigEndian>::decode(input, input_index)
        }
    }

    /// Writes the 2 bytes of `value` at `output_index` in the platform's
    /// byte order; returns the written count.
    pub fn encode(value: u16, output: &mut [u8], output_index: usize) -> (written_len: usize)
        requires
            output_index + 2 <= old(output)@.len(),
        ensures
            written_len == 2,
            final(output)@ == written(old(output)@, output_index as int, ne_bytes(value as nat, 2)),
    {
        if native_is_little_endian() {
            BinaryCodec::<u16, LittleEndian>::encode(value, output, output_index)
        } else {
            BinaryCodec::<u16, BigEndian>::encode(value, output, output_index)
        }
    }
}

impl BinaryCodec<u32, BigEndian> {
    /// Minimum number of bytes required to encode or decode this type.
    pub const MIN_UNITS_PER_VALUE: usize = 4;

    /// Maximum number of bytes emitted when encoding this type.
    pub const MAX_ENCODE_UNITS_PER_VALUE: usize = 4;

    /// Maximum number of bytes consumed when decoding this type.
    pub const MAX_DECODE_UNITS_PER_VALUE: usize = 4;

    /// Decodes the 4 big-endian bytes at `input_index`; returns the value and
    /// the consumed count.
    pub fn decode(input: &[u8], input_index: usize) -> (r: (u32, usize))
        requires
            input_index + 4 <= input@.len(),
        ensures
            r.0 == be_value(input@.subrange(input_index as int, input_index + 4)),
            r.1 == 4,
    {
        proof {
            lemma_pow2_facts();
            lemma_byte_values_bound(input@.subrange(input_index as int, input_index + 4));
        }
        (read_be(input, input_index, 4) as u32, Self::MIN_UNITS_PER_VALUE)
    }

    /// Writes the 4 big-endian bytes of `value` at `output_index`; returns
    /// the written count.
    pub fn encode(value: u32, output: &mut [u8], output_index: usize) -> (written_len: usize)
        requires
            output_index + 4 <= old(output)@.len(),
        ensures
            written_len == 4,
            final(output)@ == written(old(output)@, output_index as int, be_bytes(value as nat, 4)),
    {
        proof {
            lemma_pow2_facts();
        }
        write_be(output, output_index, value as u128, 4);
        Self::MAX_ENCODE_UNITS_PER_VALUE
    }
}

impl BinaryCodec<u32, LittleEndian> {
    /// Minimum number of bytes required to encode or decode this type.
    pub const MIN_UNITS_PER_VALUE: usize = 4;

    /// Maximum number of bytes emitted when encoding this type.
    pub const MAX_ENCODE_UNITS_PER_VALUE: usize = 4;

    /// Maximum number of bytes consumed when decoding this type.
    pub const MAX_DECODE_UNITS_PER_VALUE: usize = 4;

    /// Decodes the 4 little-endian bytes at `input_index`; returns the value and
    /// the consumed count.
    pub fn decode(input: &[u8], input_index: usize) -> (r: (u32, usize))
        requires
            input_index + 4 <= input@.len(),
        ensures
            r.0 == le_value(input@.subrange(input_index as int, input_index + 4)),
            r.1 == 4,
    {
        proof {
            lemma_pow2_facts();
            lemma_byte_values_bound(input@.subrange(input_index as int, input_index + 4));
        }
        (read_le(input, input_index, 4) as u32, Self::MIN_UNITS_PER_VALUE)
    }

    /// Writes the 4 little-endian bytes of `value` at `output_index`; returns
    /// the written count.
    pub fn encode(value: u32, output: &mut [u8], output_index: usize) -> (written_len: usize)
        requires
            output_index + 4 <= old(output)@.len(),
        ensures
            written_len == 4,
            final(output)@ == written(old(output)@, output_index as int, le_bytes(value as nat, 4)),
    {
        proof {
            lemma_pow2_facts();
        }
        write_le(output, output_index, value as u128, 4);
        Self::MAX_ENCODE_UNITS_PER_VALUE
    }
}

impl BinaryCodec<u32, NativeEndian> {
    /// Minimum number of bytes required to encode or decode this type.
    pub const MIN_UNITS_PER_VALUE: usize = 4;

    /// Maximum number of bytes emitted when encoding this type.
    pub const MAX_ENCODE_UNITS_PER_VALUE: usize = 4;

    /// Maximum number of bytes consumed when decoding this type.
    pub const MAX_DECODE_UNITS_PER_VALUE: usize = 4;

    /// Decodes the 4 bytes at `input_index` in the platform's byte order;
    /// returns the value and the consumed count.
    pub fn decode(input: &[u8], input_index: usize) -> (r: (u32, usize))
        requires
            input_index + 4 <= input@.len(),
        ensures
            r.0 == ne_value(input@.subrange(input_index as int, input_index + 4)),
            r.1 == 4,
    {
        proof {
            lemma_pow2_facts();
            lemma_byte_values_bound(input@.subrange(input_index as int, input_index + 4));
        }
        if native_is_little_endian() {
            BinaryCodec::<u32, LittleEndian>::decode(input, input_index)
        } else {
            BinaryCodec::<u32, BigEndian>::decode(input, input_index)
        }
    }

    /// Writes the 4 bytes of `value` at `output_index` in the platform's
    /// byte order; returns the written count.
    pub fn encode(value: u32, output: &mut [u8], output_index: usize) -> (written_len: usize)
        requires
            output_index + 4 <= old(output)@.len(),
        ensures
            written_len == 4,
            final(output)@ == written(old(output)@, output_index as int, ne_bytes(value as nat, 4)),
    {
        if native_is_little_endian() {
            BinaryCodec::<u32, LittleEndian>::encode(value, output, output_index)
        } else {
            BinaryCodec::<u32, BigEndian>::encode(value, output, output_index)
        }
    }
}

impl BinaryCodec<u64, BigEndian> {
    /// Minimum number of bytes required to encode or decode this type.
    pub const MIN_UNITS_PER_VALUE: usize = 8;

    /// Maximum number of bytes emitted when encoding this type.
    pub const MAX_ENCODE_UNITS_PER_VALUE: usize = 8;

    /// Maximum number of bytes consumed when decoding this type.
    pub const MAX_DECODE_UNITS_PER_VALUE: usize = 8;

    /// Decodes the 8 big-endian bytes at `input_index`; returns the value and
    /// the consumed count.
    pub fn decode(input: &[u8], input_index: usize) -> (r: (u64, usize))
        requires
            input_index + 8 <= input@.len(),
        ensures
            r.0 == be_value(input@.subrange(input_index as int, input_index + 8)),
            r.1 == 8,
    {
        proof {
            lemma_pow2_facts();
            lemma_byte_values_bound(input@.subrange(input_index as int, input_index + 8));
        }
        (read_be(input, input_index, 8) as u64, Self::MIN_UNITS_PER_VALUE)
    }

    /// Writes the 8 big-endian bytes of `value` at `output_index`; returns
    /// the written count.
    pub fn encode(value: u64, output: &mut [u8], output_index: usize) -> (written_len: usize)
        requires
            output_index + 8 <= old(output)@.len(),
        ensures
            written_len == 8,
            final(output)@ == written(old(output)@, output_index as int, be_bytes(value as nat, 8)),
    {
        proof {
            lemma_pow2_facts();
        }
        write_be(output, output_index, value as u128, 8);
        Self::MAX_ENCODE_UNITS_PER_VALUE
    }
}

impl BinaryCodec<u64, LittleEndian> {
    /// Minimum number of bytes required to encode or decode this type.
    pub const MIN_UNITS_PER_VALUE: usize = 8;

    /// Maximum number of bytes emitted when encoding this type.
    pub const MAX_ENCODE_UNITS_PER_VALUE: usize = 8;

    /// Maximum number of bytes consumed when decoding this type.
    pub const MAX_DECODE_UNITS_PER_VALUE: usize = 8;

    /// Decodes the 8 little-endian bytes at `input_index`; returns the value and
    /// the consumed count.
    pub fn decode(input: &[u8], input_index: usize) -> (r: (u64, usize))
        requires
            input_index + 8 <= input@.len(),
        ensures
            r.0 == le_value(input@.subrange(input_index as int, input_index + 8)),
            r.1 == 8,
    {
        proof {
            lemma_pow2_facts();
            lemma_byte_values_bound(input@.subrange(input_index as int, input_index + 8));
        }
        (read_le(input, input_index, 8) as u64, Self::MIN_UNITS_PER_VALUE)
    }

    /// Writes the 8 little-endian bytes of `value` at `output_index`; returns
    /// the written count.
    pub fn encode(value: u64, output: &mut [u8], output_index: usize) -> (written_len: usize)
        requires
            output_index + 8 <= old(output)@.len(),
        ensures
            written_len == 8,
            final(output)@ == written(old(output)@, output_index as int, le_bytes(value as nat, 8)),
    {
        proof {
            lemma_pow2_facts();
        }
        write_le(output, output_index, value as u128, 8);
        Self::MAX_ENCODE_UNITS_PER_VALUE
    }
}

impl BinaryCodec<u64, NativeEndian> {
    /// Minimum number of bytes required to encode or decode this type.
    pub const MIN_UNITS_PER_VALUE: usize = 8;

    /// Maximum number of bytes emitted when encoding this type.
    pub const MAX_ENCODE_UNITS_PER_VALUE: usize = 8;

    /// Maximum number of bytes consumed when decoding this type.
    pub const MAX_DECODE_UNITS_PER_VALUE: usize = 8;

    /// Decodes the 8 bytes at `input_index` in the platform's byte order;
    /// returns the value and the consumed count.
    pub fn decode(input: &[u8], input_index: usize) -> (r: (u64, usize))
        requires
            input_index + 8 <= input@.len(),
        ensures
            r.0 == ne_value(input@.subrange(input_index as int, input_index + 8)),
            r.1 == 8,
    {
        proof {
            lemma_pow2_facts();
            lemma_byte_values_bound(input@.subrange(input_index as int, input_index + 8));
        }
        if native_is_little_endian() {
            BinaryCodec::<u64, LittleEndian>::decode(input, input_index)
        } else {
            BinaryCodec::<u64, BigEndian>::decode(input, input_index)
        }
    }

    /// Writes the 8 bytes of `value` at `output_index` in the platform's
    /// byte order; returns the written count.
    pub fn encode(value: u64, output: &mut [u8], output_index: usize) -> (written_len: usize)
        requires
            output_index + 8 <= old(output)@.len(),
        ensures
            written_len == 8,
            final(output)@ == written(old(output)@, output_index as int, ne_bytes(value as nat, 8)),
    {
        if native_is_little_endian() {
            BinaryCodec::<u64, LittleEndian>::encode(value, output, output_index)
        } else {
            BinaryCodec::<u64, BigEndian>::encode(value, output, output_index)
        }
    }
}

impl BinaryCodec<u128, BigEndian> {
    /// Minimum number of bytes required to encode or decode this type.
    pub const MIN_UNITS_PER_VALUE: usize = 16;

    /// Maximum number of bytes emitted when encoding this type.
    pub const MAX_ENCODE_UNITS_PER_VALUE: usize = 16;

    /// Maximum number of bytes consumed when decoding this type.
    pub const MAX_DECODE_UNITS_PER_VALUE: usize = 16;

    /// Decodes the 16 big-endian bytes at `input_index`; returns the value and
    /// the consumed count.
    pub fn decode(input: &[u8], input_index: usize) -> (r: (u128, usize))
        requires
            input_index + 16 <= input@.len(),
        ensures
            r.0 == be_value(input@.subrange(input_index as int, input_index + 16)),
            r.1 == 16,
    {
        proof {
            lemma_pow2_facts();
            lemma_byte_values_bound(input@.subrange(input_index as int, input_index + 16));
        }
        (read_be(input, input_index, 16) as u128, Self::MIN_UNITS_PER_VALUE)
    }

    /// Writes the 16 big-endian bytes of `value` at `output_index`; returns
    /// the written count.
    pub fn encode(value: u128, output: &mut [u8], output_index: usize) -> (written_len: usize)
        requires
            output_index + 16 <= old(output)@.len(),
        ensures
            written_len == 16,
            final(output)@ == written(old(output)@, output_index as int, be_bytes(value as nat, 16)),
    {
        proof {
            lemma_pow2_facts();
        }
        write_be(output, output_index, value as u128, 16);
        Self::MAX_ENCODE_UNITS_PER_VALUE
    }
}

impl BinaryCodec<u128, LittleEndian> {
    /// Minimum number of bytes required to encode or decode this type.
    pub const MIN_UNITS_PER_VALUE: usize = 16;

    /// Maximum number of bytes emitted when encoding this type.
    pub const MAX_ENCODE_UNITS_PER_VALUE: usize = 16;

    /// Maximum number of bytes consumed when decoding this type.
    pub const MAX_DECODE_UNITS_PER_VALUE: usize = 16;

    /// Decodes the 16 little-endian bytes at `input_index`; returns the value and
    /// the consumed count.
    pub fn decode(input: &[u8], input_index: usize) -> (r: (u128, usize))
        requires
            input_index + 16 <= input@.len(),
        ensures
            r.0 == le_value(input@.subrange(input_index as int, input_index + 16)),
            r.1 == 16,
    {
        proof {
            lemma_pow2_facts();
            lemma_byte_values_bound(input@.subrange(input_index as int, input_index + 16));
        }
        (read_le(input, input_index, 16) as u128, Self::MIN_UNITS_PER_VALUE)
    }

    /// Writes the 16 little-endian bytes of `value` at `output_index`; returns
    /// the written count.
    pub fn encode(value: u128, output: &mut [u8], output_index: usize) -> (written_len: usize)
        requires
            output_index + 16 <= old(output)@.len(),
        ensures
            written_len == 16,
            final(output)@ == written(old(output)@, output_index as int, le_bytes(value as nat, 16)),
    {
        proof {
            lemma_pow2_facts();
        }
        write_le(output, output_index, value as u128, 16);
        Self::MAX_ENCODE_UNITS_PER_VALUE
    }
}

impl BinaryCodec<u128, NativeEndian> {
    /// Minimum number of bytes required to encode or decode this type.
    pub const MIN_UNITS_PER_VALUE: usize = 16;

    /// Maximum number of bytes emitted when encoding this type.
    pub const MAX_ENCODE_UNITS_PER_VALUE: usize = 16;

    /// Maximum number of bytes consumed when decoding this type.
    pub const MAX_DECODE_UNITS_PER_VALUE: usize = 16;

    /// Decodes the 16 bytes at `input_index` in the platform's byte order;
    /// returns the value and the consumed count.
    pub fn decode(input: &[u8], input_index: usize) -> (r: (u128, usize))
        requires
            input_index + 16 <= input@.len(),
        ensures
            r.0 == ne_value(input@.subrange(input_index as int, input_index + 16)),
            r.1 == 16,
    {
        proof {
            lemma_pow2_facts();
            lemma_byte_values_bound(input@.subrange(input_index as int, input_index + 16));
        }
        if native_is_little_endian() {
            BinaryCodec::<u128, LittleEndian>::decode(input, input_index)
        } else {
            BinaryCodec::<u128, BigEndian>::decode(input, input_index)
        }
    }

    /// Writes the 16 bytes of `value` at `output_index` in the platform's
    /// byte order; returns the written count.
    pub fn encode(value: u128, output: &mut [u8], output_index: usize) -> (written_len: usize)
        requires
            output_index + 16 <= old(output)@.len(),
        ensures
            written_len == 16,
            final(output)@ == written(old(output)@, output_index as int, ne_bytes(value as nat, 16)),
    {
        if native_is_little_endian() {
            BinaryCodec::<u128, LittleEndian>::encode(value, output, output_index)
        } else {
            BinaryCodec::<u128, BigEndian>::encode(value, output, output_index)
        }
    }
}

impl BinaryCodec<i16, BigEndian> {
    /// Minimum number of bytes required to encode or decode this type.
    pub const MIN_UNITS_PER_VALUE: usize = 2;

    /// Maximum number of bytes emitted when encoding this type.
    pub const MAX_ENCODE_UNITS_PER_VALUE: usize = 2;

    /// Maximum number of bytes consumed when decoding this type.
    pub const MAX_DECODE_UNITS_PER_VALUE: usize = 2;

    /// Decodes the 2 bytes at `input_index` as big-endian two's complement; returns the
    /// value and the consumed count.
    pub fn decode(input: &[u8], input_index: usize) -> (r: (i16, usize))
        requires
            input_index + 2 <= input@.len(),
        ensures
            r.0 == from_twos_complement(be_value(input@.subrange(input_index as int, input_index + 2)), 2),
            r.1 == 2,
    {
        let (bits, consumed) = BinaryCodec::<u16, BigEndian>::decode(input, input_index);
        (i16_from_bits(bits), consumed)
    }

    /// Writes the 2 two's complement bytes of `value` at `output_index`
    /// in big-endian order; returns the written count.
    pub fn encode(value: i16, output: &mut [u8], output_index: usize) -> (written_len: usize)
        requires
            output_index + 2 <= old(output)@.len(),
        ensures
            written_len == 2,
            final(output)@ == written(old(output)@, output_index as int, be_bytes(twos_complement(value as int, 2), 2)),
    {
        BinaryCodec::<u16, BigEndian>::encode(i16_to_bits(value), output, output_index)
    }
}

impl BinaryCodec<i16, LittleEndian> {
    /// Minimum number of bytes required to encode or decode this type.
    pub const MIN_UNITS_PER_VALUE: usize = 2;

    /// Maximum number of bytes emitted when encoding this type.
    pub const MAX_ENCODE_UNITS_PER_VALUE: usize = 2;

    /// Maximum number of bytes consumed when decoding this type.
    pub const MAX_DECODE_UNITS_PER_VALUE: usize = 2;

    /// Decodes the 2 bytes at `input_index` as little-endian two's complement; returns the
    /// value and the consumed count.
    pub fn decode(input: &[u8], input_index: usize) -> (r: (i16, usize))
        requires
            input_index + 2 <= input@.len(),
        ensures
            r.0 == from_twos_complement(le_value(input@.subrange(input_index as int, input_index + 2)), 2),
            r.1 == 2,
    {
        let (bits, consumed) = BinaryCodec::<u16, LittleEndian>::decode(input, input_index);
        (i16_from_bits(bits), consumed)
    }

    /// Writes the 2 two's complement bytes of `value` at `output_index`
    /// in little-endian order; returns the written count.
    pub fn encode(value: i16, output: &mut [u8], output_index: usize) -> (written_len: usize)
        requires
            output_index + 2 <= old(output)@.len(),
        ensures
            written_len == 2,
            final(output)@ == written(old(output)@, output_index as int, le_bytes(twos_complement(value as int, 2), 2)),
    {
        BinaryCodec::<u16, LittleEndian>::encode(i16_to_bits(value), output, output_index)
    }
}

impl BinaryCodec<i16, NativeEndian> {
    /// Minimum number of bytes required to encode or decode this type.
    pub const MIN_UNITS_PER_VALUE: usize = 2;

    /// Maximum number of bytes emitted when encoding this type.
    pub const MAX_ENCODE_UNITS_PER_VALUE: usize = 2;

    /// Maximum number of bytes consumed when decoding this type.
    pub const MAX_DECODE_UNITS_PER_VALUE: usize = 2;

    /// Decodes the 2 bytes at `input_index` in the platform's byte order; returns the
    /// value and the consumed count.
    pub fn decode(input: &[u8], input_index: usize) -> (r: (i16, usize))
        requires
            input_index + 2 <= input@.len(),
        ensures
            r.0 == from_twos_complement(ne_value(input@.subrange(input_index as int, input_index + 2)), 2),
            r.1 == 2,
    {
        let (bits, consumed) = BinaryCodec::<u16, NativeEndian>::decode(input, input_index);
        (i16_from_bits(bits), consumed)
    }

    /// Writes the 2 two's complement bytes of `value` at `output_index`
    /// in the platform's byte order; returns the written count.
    pub fn encode(value: i16, output: &mut [u8], output_index: usize) -> (written_len: usize)
        requires
            output_index + 2 <= old(output)@.len(),
        ensures
            written_len == 2,
            final(output)@ == written(old(output)@, output_index as int, ne_bytes(twos_complement(value as int, 2), 2)),
    {
        BinaryCodec::<u16, NativeEndian>::encode(i16_to_bits(value), output, output_index)
    }
}

impl BinaryCodec<i32, BigEndian> {
    /// Minimum number of bytes required to encode or decode this type.
    pub const MIN_UNITS_PER_VALUE: usize = 4;

    /// Maximum number of bytes emitted when encoding this type.
    pub const MAX_ENCODE_UNITS_PER_VALUE: usize = 4;

    /// Maximum number of bytes consumed when decoding this type.
    pub const MAX_DECODE_UNITS_PER_VALUE: usize = 4;

    /// Decodes the 4 bytes at `input_index` as big-endian two's complement; returns the
    /// value and the consumed count.
    pub fn decode(input: &[u8], input_index: usize) -> (r: (i32, usize))
        requires
            input_index + 4 <= input@.len(),
        ensures
            r.0 == from_twos_complement(be_value(input@.subrange(input_index as int, input_index + 4)), 4),
            r.1 == 4,
    {
        let (bits, consumed) = BinaryCodec::<u32, BigEndian>::decode(input, input_index);
        (i32_from_bits(bits), consumed)
    }

    /// Writes the 4 two's complement bytes of `value` at `output_index`
    /// in big-endian order; returns the written count.
    pub fn encode(value: i32, output: &mut [u8], output_index: usize) -> (written_len: usize)
        requires
            output_index + 4 <= old(output)@.len(),
        ensures
            written_len == 4,
            final(output)@ == written(old(output)@, output_index as int, be_bytes(twos_complement(value as int, 4), 4)),
    {
        BinaryCodec::<u32, BigEndian>::encode(i32_to_bits(value), output, output_index)
    }
}

impl BinaryCodec<i32, LittleEndian> {
    /// Minimum number of bytes required to encode or decode this type.
    pub const MIN_UNITS_PER_VALUE: usize = 4;

    /// Maximum number of bytes emitted when encoding this type.
    pub const MAX_ENCODE_UNITS_PER_VALUE: usize = 4;

    /// Maximum number of bytes consumed when decoding this type.
    pub const MAX_DECODE_UNITS_PER_VALUE: usize = 4;

    /// Decodes the 4 bytes at `input_index` as little-endian two's complement; returns the
    /// value and the consumed count.
    pub fn decode(input: &[u8], input_index: usize) -> (r: (i32, usize))
        requires
            input_index + 4 <= input@.len(),
        ensures
            r.0 == from_twos_complement(le_value(input@.subrange(input_index as int, input_index + 4)), 4),
            r.1 == 4,
    {
        let (bits, consumed) = BinaryCodec::<u32, LittleEndian>::decode(input, input_index);
        (i32_from_bits(bits), consumed)
    }

    /// Writes the 4 two's complement bytes of `value` at `output_index`
    /// in little-endian order; returns the written count.
    pub fn encode(value: i32, output: &mut [u8], output_index: usize) -> (written_len: usize)
        requires
            output_index + 4 <= old(output)@.len(),
        ensures
            written_len == 4,
            final(output)@ == written(old(output)@, output_index as int, le_bytes(twos_complement(value as int, 4), 4)),
    {
        BinaryCodec::<u32, LittleEndian>::encode(i32_to_bits(value), output, output_index)
    }
}

impl BinaryCodec<i32, NativeEndian> {
    /// Minimum number of bytes required to encode or decode this type.
    pub const MIN_UNITS_PER_VALUE: usize = 4;

    /// Maximum number of bytes emitted when encoding this type.
    pub const MAX_ENCODE_UNITS_PER_VALUE: usize = 4;

    /// Maximum number of bytes consumed when decoding this type.
    pub const MAX_DECODE_UNITS_PER_VALUE: usize = 4;

    /// Decodes the 4 bytes at `input_index` in the platform's byte order; returns the
    /// value and the consumed count.
    pub fn decode(input: &[u8], input_index: usize) -> (r: (i32, usize))
        requires
            input_index + 4 <= input@.len(),
        ensures
            r.0 == from_twos_complement(ne_value(input@.subrange(input_index as int, input_index + 4)), 4),
            r.1 == 4,
    {
        let (bits, consumed) = BinaryCodec::<u32, NativeEndian>::decode(input, input_index);
        (i32_from_bits(bits), consumed)
    }

    /// Writes the 4 two's complement bytes of `value` at `output_index`
    /// in the platform's byte order; returns the written count.
    pub fn encode(value: i32, output: &mut [u8], output_index: usize) -> (written_len: usize)
        requires
            output_index + 4 <= old(output)@.len(),
        ensures
            written_len == 4,
            final(output)@ == written(old(output)@, output_index as int, ne_bytes(twos_complement(value as int, 4), 4)),
    {
        BinaryCodec::<u32, NativeEndian>::encode(i32_to_bits(value), output, output_index)
    }
}

impl BinaryCodec<i64, BigEndian> {
    /// Minimum number of bytes required to encode or decode this type.
    pub const MIN_UNITS_PER_VALUE: usize = 8;

    /// Maximum number of bytes emitted when encoding this type.
    pub const MAX_ENCODE_UNITS_PER_VALUE: usize = 8;

    /// Maximum number of bytes consumed when decoding this type.
    pub const MAX_DECODE_UNITS_PER_VALUE: usize = 8;

    /// Decodes the 8 bytes at `input_index` as big-endian two's complement; returns the
    /// value and the consumed count.
    pub fn decode(input: &[u8], input_index: usize) -> (r: (i64, usize))
        requires
            input_index + 8 <= input@.len(),
        ensures
            r.0 == from_twos_complement(be_value(input@.subrange(input_index as int, input_index + 8)), 8),
            r.1 == 8,
    {
        let (bits, consumed) = BinaryCodec::<u64, BigEndian>::decode(input, input_index);
        (i64_from_bits(bits), consumed)
    }

    /// Writes the 8 two's complement bytes of `value` at `output_index`
    /// in big-endian order; returns the written count.
    pub fn encode(value: i64, output: &mut [u8], output_index: usize) -> (written_len: usize)
        requires
            output_index + 8 <= old(output)@.len(),
        ensures
            written_len == 8,
            final(output)@ == written(old(output)@, output_index as int, be_bytes(twos_complement(value as int, 8), 8)),
    {
        BinaryCodec::<u64, BigEndian>::encode(i64_to_bits(value), output, output_index)
    }
}

impl BinaryCodec<i64, LittleEndian> {
    /// Minimum number of bytes required to encode or decode this type.
    pub const MIN_UNITS_PER_VALUE: usize = 8;

    /// Maximum number of bytes emitted when encoding this type.
    pub const MAX_ENCODE_UNITS_PER_VALUE: usize = 8;

    /// Maximum number of bytes consumed when decoding this type.
    pub const MAX_DECODE_UNITS_PER_VALUE: usize = 8;

    /// Decodes the 8 bytes at `input_index` as little-endian two's complement; returns the
    /// value and the consumed count.
    pub fn decode(input: &[u8], input_index: usize) -> (r: (i64, usize))
        requires
            input_index + 8 <= input@.len(),
        ensures
            r.0 == from_twos_complement(le_value(input@.subrange(input_index as int, input_index + 8)), 8),
            r.1 == 8,
    {
        let (bits, consumed) = BinaryCodec::<u64, LittleEndian>::decode(input, input_index);
        (i64_from_bits(bits), consumed)
    }

    /// Writes the 8 two's complement bytes of `value` at `output_index`
    /// in little-endian order; returns the written count.
    pub fn encode(value: i64, output: &mut [u8], output_index: usize) -> (written_len: usize)
        requires
            output_index + 8 <= old(output)@.len(),
        ensures
            written_len == 8,
            final(output)@ == written(old(output)@, output_index as int, le_bytes(twos_complement(value as int, 8), 8)),
    {
        BinaryCodec::<u64, LittleEndian>::encode(i64_to_bits(value), output, output_index)
    }
}

impl BinaryCodec<i64, NativeEndian> {
    /// Minimum number of bytes required to encode or decode this type.
    pub const MIN_UNITS_PER_VALUE: usize = 8;

    /// Maximum number of bytes emitted when encoding this type.
    pub const MAX_ENCODE_UNITS_PER_VALUE: usize = 8;

    /// Maximum number of bytes consumed when decoding this type.
    pub const MAX_DECODE_UNITS_PER_VALUE: usize = 8;

    /// Decodes the 8 bytes at `input_index` in the platform's byte order; returns the
    /// value and the consumed count.
    pub fn decode(input: &[u8], input_index: usize) -> (r: (i64, usize))
        requires
            input_index + 8 <= input@.len(),
        ensures
            r.0 == from_twos_complement(ne_value(input@.subrange(input_index as int, input_index + 8)), 8),
            r.1 == 8,
    {
        let (bits, consumed) = BinaryCodec::<u64, NativeEndian>::decode(input, input_index);
        (i64_from_bits(bits), consumed)
    }

    /// Writes the 8 two's complement bytes of `value` at `output_index`
    /// in the platform's byte order; returns the written count.
    pub fn encode(value: i64, output: &mut [u8], output_index: usize) -> (written_len: usize)
        requires
            output_index + 8 <= old(output)@.len(),
        ensures
            written_len == 8,
            final(output)@ == written(old(output)@, output_index as int, ne_bytes(twos_complement(value as int, 8), 8)),
    {
        BinaryCodec::<u64, NativeEndian>::encode(i64_to_bits(value), output, output_index)
    }
}

impl BinaryCodec<i128, BigEndian> {
    /// Minimum number of bytes required to encode or decode this type.
    pub const MIN_UNITS_PER_VALUE: usize = 16;

    /// Maximum number of bytes emitted when encoding this type.
    pub const MAX_ENCODE_UNITS_PER_VALUE: usize = 16;

    /// Maximum number of bytes consumed when decoding this type.
    pub const MAX_DECODE_UNITS_PER_VALUE: usize = 16;

    /// Decodes the 16 bytes at `input_index` as big-endian two's complement; returns the
    /// value and the consumed count.
    pub fn decode(input: &[u8], input_index: usize) -> (r: (i128, usize))
        requires
            input_index + 16 <= input@.len(),
        ensures
            r.0 == from_twos_complement(be_value(input@.subrange(input_index as int, input_index + 16)), 16),
            r.1 == 16,
    {
        let (bits, consumed) = BinaryCodec::<u128, BigEndian>::decode(input, input_index);
        (i128_from_bits(bits), consumed)
    }

    /// Writes the 16 two's complement bytes of `value` at `output_index`
    /// in big-endian order; returns the written count.
    pub fn encode(value: i128, output: &mut [u8], output_index: usize) -> (written_len: usize)
        requires
            output_index + 16 <= old(output)@.len(),
        ensures
            written_len == 16,
            final(output)@ == written(old(output)@, output_index as int, be_bytes(twos_complement(value as int, 16), 16)),
    {
        BinaryCodec::<u128, BigEndian>::encode(i128_to_bits(value), output, output_index)
    }
}

impl BinaryCodec<i128, LittleEndian> {
    /// Minimum number of bytes required to encode or decode this type.
    pub const MIN_UNITS_PER_VALUE: usize = 16;

    /// Maximum number of bytes emitted when encoding this type.
    pub const MAX_ENCODE_UNITS_PER_VALUE: usize = 16;

    /// Maximum number of bytes consumed when decoding this type.
    pub const MAX_DECODE_UNITS_PER_VALUE: usize = 16;

    /// Decodes the 16 bytes at `input_index` as little-endian two's complement; returns the
    /// value and the consumed count.
    pub fn decode(input: &[u8], input_index: usize) -> (r: (i128, usize))
        requires
            input_index + 16 <= input@.len(),
        ensures
            r.0 == from_twos_complement(le_value(input@.subrange(input_index as int, input_index + 16)), 16),
            r.1 == 16,
    {
        let (bits, consumed) = BinaryCodec::<u128, LittleEndian>::decode(input, input_index);
        (i128_from_bits(bits), consumed)
    }

    /// Writes the 16 two's complement bytes of `value` at `output_index`
    /// in little-endian order; returns the written count.
    pub fn encode(value: i128, output: &mut [u8], output_index: usize) -> (written_len: usize)
        requires
            output_index + 16 <= old(output)@.len(),
        ensures
            written_len == 16,
            final(output)@ == written(old(output)@, output_index as int, le_bytes(twos_complement(value as int, 16), 16)),
    {
        BinaryCodec::<u128, LittleEndian>::encode(i128_to_bits(value), output, output_index)
    }
}

impl BinaryCodec<i128, NativeEndian> {
    /// Minimum number of bytes required to encode or decode this type.
    pub const MIN_UNITS_PER_VALUE: usize = 16;

    /// Maximum number of bytes emitted when encoding this type.
    pub const MAX_ENCODE_UNITS_PER_VALUE: usize = 16;

    /// Maximum number of bytes consumed when decoding this type.
    pub const MAX_DECODE_UNITS_PER_VALUE: usize = 16;

    /// Decodes the 16 bytes at `input_index` in the platform's byte order; returns the
    /// value and the consumed count.
    pub fn decode(input: &[u8], input_index: usize) -> (r: (i128, usize))
        requires
            input_index + 16 <= input@.len(),
        ensures
            r.0 == from_twos_complement(ne_value(input@.subrange(input_index as int, input_index + 16)), 16),
            r.1 == 16,
    {
        let (bits, consumed) = BinaryCodec::<u128, NativeEndian>::decode(input, input_index);
        (i128_from_bits(bits), consumed)
    }

    /// Writes the 16 two's complement bytes of `value` at `output_index`
    /// in the platform's byte order; returns the written count.
    pub fn encode(value: i128, output: &mut [u8], output_index: usize) -> (written_len: usize)
        requires
            output_index + 16 <= old(output)@.len(),
        ensures
            written_len == 16,
            final(output)@ == written(old(output)@, output_index as int, ne_bytes(twos_complement(value as int, 16), 16)),
    {
        BinaryCodec::<u128, NativeEndian>::encode(i128_to_bits(value), output, output_index)
    }
}

} // verus!

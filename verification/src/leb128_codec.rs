use vstd::prelude::*;
use vstd::arithmetic::power2::*;
use vstd::arithmetic::mul::*;
use vstd::bits::*;
use core::marker::PhantomData;

use crate::leb128_decode_error::{Leb128DecodeError, Leb128DecodeErrorView};
use crate::leb128_decode_policy::Leb128DecodePolicy;
use crate::leb128_spec::{
    group_weight, is_continuation, lemma_first_terminal_at, lemma_group_weight_monotone,
    lemma_group_weight_step, lemma_max_units, lemma_payload_value_bound, lemma_payload_value_take,
    lemma_pow2_facts, max_units, payload, payload_value, redundant_sleb_terminal,
    redundant_uleb_terminal, signed_fits, signed_payload_value, sleb_decode, sleb_scan,
    uleb_decode, uleb_scan, uleb_encoding, sleb_encoding, sleb_group_is_last, written,
    lemma_uleb_encoding_facts, lemma_uleb_encoding_len, lemma_sleb_encoding_facts,
    lemma_sleb_encoding_len, lemma_sleb_rest_shrinks, lemma_uleb_encoding_within_units,
    lemma_sleb_encoding_within_units, lemma_platform_widths,
};

verus! {

/// View of a scan result over an unsigned accumulator.
pub open spec fn uscan_view(r: Result<Option<(u128, usize)>, Leb128DecodeError>) -> Result<
    Option<(int, usize)>,
    Leb128DecodeErrorView,
> {
    match r {
        Ok(Some((v, c))) => Ok(Some((v as int, c))),
        Ok(None) => Ok(None),
        Err(e) => Err(e@),
    }
}

/// View of a scan result over a signed accumulator.
pub open spec fn sscan_view(r: Result<Option<(i128, usize)>, Leb128DecodeError>) -> Result<
    Option<(int, usize)>,
    Leb128DecodeErrorView,
> {
    match r {
        Ok(Some((v, c))) => Ok(Some((v as int, c))),
        Ok(None) => Ok(None),
        Err(e) => Err(e@),
    }
}

/// View of a decode result over an unsigned accumulator.
pub open spec fn udecode_view(r: Result<(u128, usize), Leb128DecodeError>) -> Result<
    (int, usize),
    Leb128DecodeErrorView,
> {
    match r {
        Ok((v, c)) => Ok((v as int, c)),
        Err(e) => Err(e@),
    }
}

/// View of a decode result over a signed accumulator.
pub open spec fn sdecode_view(r: Result<(i128, usize), Leb128DecodeError>) -> Result<
    (int, usize),
    Leb128DecodeErrorView,
> {
    match r {
        Ok((v, c)) => Ok((v as int, c)),
        Err(e) => Err(e@),
    }
}

/// Bit-level facts about the flag and payload bits of a byte.
proof fn lemma_byte_bits(b: u8)
    ensures
        b & 0x7F == b % 128,
        (b & 0x80 == 0) == (b < 128),
        (b & 0x40 != 0) == (b % 128 >= 64),
{
    assert(b & 0x7F == b % 128) by (bit_vector);
    assert((b & 0x80 == 0) == (b < 128)) by (bit_vector);
    assert((b & 0x40 != 0) == (b % 128 >= 64)) by (bit_vector);
}

/// In the last group of a `bits`-bit unsigned value, the value fits exactly
/// when the group's payload fits in the bits left over.
proof fn lemma_unsigned_last_group(low: nat, p: nat, k: nat, bits: nat)
    requires
        low < group_weight(k),
        p < 128,
        7 * k < bits <= 7 * k + 7,
    ensures
        (low + p * group_weight(k) < pow2(bits)) == (p < pow2((bits - 7 * k) as nat)),
{
    let u = (bits - 7 * k) as nat;
    let w = group_weight(k);
    lemma_pow2_adds(7 * k, u);
    assert(pow2(bits) == w * pow2(u));
    let t = pow2(u);
    if p < t {
        assert(low + p * w < t * w) by (nonlinear_arith)
            requires
                low < w,
                p < t,
                p >= 0,
        ;
        lemma_mul_is_commutative(t as int, w as int);
    } else {
        assert(low + p * w >= t * w) by (nonlinear_arith)
            requires
                low >= 0,
                p >= t,
                w >= 0,
        ;
        lemma_mul_is_commutative(t as int, w as int);
    }
}

/// A value whose groups all lie below the last possible group fits in
/// `bits` bits, signed or unsigned.
proof fn lemma_early_group_fits(k: nat, bits: nat)
    requires
        bits >= 1,
        k + 1 <= max_units(bits) - 1,
    ensures
        group_weight(k + 1) <= pow2((bits - 1) as nat),
        pow2((bits - 1) as nat) < pow2(bits),
{
    lemma_max_units(bits);
    lemma_group_weight_monotone(k + 1, (max_units(bits) - 1) as nat);
    let e = (7 * (max_units(bits) - 1)) as nat;
    if e < bits - 1 {
        lemma_pow2_strictly_increases(e, (bits - 1) as nat);
    }
    lemma_pow2_strictly_increases((bits - 1) as nat, bits);
}

/// Every group of a value of at most `max_units(bits)` groups has a weight
/// of at most `2^126`, and a group below the last one weighs at most half
/// the value range of the signed type.
proof fn lemma_early_group_fits_or_last(k: nat, bits: nat)
    requires
        1 <= bits <= 128,
        k < max_units(bits),
    ensures
        group_weight(k) <= pow2(126),
        k + 1 <= max_units(bits) - 1 ==> 128 * group_weight(k) <= pow2((bits - 1) as nat),
        pow2((bits - 1) as nat) <= pow2(127),
{
    lemma_max_units(bits);
    lemma_group_weight_monotone(k, 18);
    lemma_group_weight_step(k);
    if k + 1 <= max_units(bits) - 1 {
        lemma_early_group_fits(k, bits);
    }
    if bits < 128 {
        lemma_pow2_strictly_increases((bits - 1) as nat, 127);
    }
}

/// Checks whether the final unsigned LEB128 byte at group `offset` fits the
/// target width: its payload bits above the bits left over are all zero.
fn unsigned_final_payload_fits(byte: u8, bits: u32, offset: usize) -> (fits: bool)
    requires
        7 * offset < bits <= 7 * offset + 7,
        bits <= 128,
        byte < 128,
    ensures
        fits == (payload(byte) < pow2((bits - 7 * offset) as nat)),
{
    let used_bits = bits - offset as u32 * 7;
    proof {
        assert(1 <= used_bits <= 7);
        assert(1 <= used_bits <= 7 ==> ((byte >> used_bits == 0) <==> (byte as u32) < (1u32
            << used_bits))) by (bit_vector);
        lemma2_to64();
        lemma_pow2_strictly_increases(used_bits as nat, 32);
        lemma_u32_shl_is_mul(1, used_bits);
    }
    byte >> used_bits == 0
}

/// In the last group of a `bits`-bit signed value, the value fits exactly
/// when the group's payload bits above the bits left over repeat the sign
/// bit of those bits.
proof fn lemma_signed_last_group(low: nat, p: nat, k: nat, bits: nat)
    requires
        low < group_weight(k),
        p < 128,
        7 * k < bits <= 7 * k + 7,
    ensures
        signed_fits(
            low + p * group_weight(k) - (if p >= 64 {
                128 * group_weight(k)
            } else {
                0
            }),
            bits,
        ) == (p < pow2((bits - 7 * k - 1) as nat) || p >= 128 - pow2((bits - 7 * k - 1) as nat)),
        (p < pow2((bits - 7 * k - 1) as nat) || p >= 128 - pow2((bits - 7 * k - 1) as nat)) ==> -pow2(
            (bits - 1) as nat,
        ) <= (if p >= 64 {
            (p - 128) * group_weight(k)
        } else {
            (p * group_weight(k)) as int
        }) < pow2((bits - 1) as nat),
{
    let w = group_weight(k);
    let e = (bits - 7 * k - 1) as nat;
    lemma_pow2_adds(7 * k, e);
    assert((bits - 1) as nat == 7 * k + e);
    let h = pow2(e);
    assert(pow2((bits - 1) as nat) == w * h);
    lemma2_to64();
    if e < 6 {
        lemma_pow2_strictly_increases(e, 6);
    }
    assert(1 <= h <= 64) by {
        lemma_pow2_pos(e);
    }
    lemma_mul_is_commutative(h as int, w as int);
    if p < 64 {
        if p < h {
            assert(low + p * w < h * w) by (nonlinear_arith)
                requires
                    low < w,
                    p < h,
                    p >= 0,
            ;
            assert(0 <= p * w < h * w) by (nonlinear_arith)
                requires
                    p < h,
                    p >= 0,
                    w > 0,
            ;
        } else {
            assert(low + p * w >= h * w) by (nonlinear_arith)
                requires
                    low >= 0,
                    p >= h,
                    w >= 0,
            ;
        }
        assert(low + p * w >= 0) by (nonlinear_arith)
            requires
                low >= 0,
                p >= 0,
                w >= 0,
        ;
    } else {
        let v = low + p * w - 128 * w;
        assert(v == low + (p - 128) * w) by (nonlinear_arith)
            requires
                v == low + p * w - 128 * w,
        ;
        assert(v < 0) by (nonlinear_arith)
            requires
                v == low + (p - 128) * w,
                low < w,
                p < 128,
        ;
        if p >= 128 - h {
            assert(v >= -(h * w)) by (nonlinear_arith)
                requires
                    v == low + (p - 128) * w,
                    low >= 0,
                    p - 128 >= -h,
                    w >= 0,
            ;
            assert(-(h * w) <= (p - 128) * w < 0) by (nonlinear_arith)
                requires
                    p - 128 >= -h,
                    p < 128,
                    w > 0,
            ;
        } else {
            assert(v < -(h * w)) by (nonlinear_arith)
                requires
                    v == low + (p - 128) * w,
                    low < w,
                    p - 128 <= -h - 1,
                    w >= 0,
            ;
        }
    }
}

/// A signed value whose groups all lie below the last possible group fits
/// in `bits` bits.
proof fn lemma_signed_early_fits(low: nat, p: nat, k: nat, bits: nat)
    requires
        low < group_weight(k),
        p < 128,
        bits >= 1,
        k + 1 <= max_units(bits) - 1,
    ensures
        signed_fits(
            low + p * group_weight(k) - (if p >= 64 {
                128 * group_weight(k)
            } else {
                0
            }),
            bits,
        ),
        -pow2((bits - 1) as nat) <= (if p >= 64 {
            (p - 128) * group_weight(k)
        } else {
            (p * group_weight(k)) as int
        }) < pow2((bits - 1) as nat),
{
    let w = group_weight(k);
    lemma_early_group_fits(k, bits);
    assert(-64 * w <= (if p >= 64 {
        (p - 128) * w
    } else {
        (p * w) as int
    }) < 64 * w) by (nonlinear_arith)
        requires
            0 <= p < 128,
            w > 0,
    ;
    lemma_group_weight_step(k);
    let v = low + p * w - (if p >= 64 {
        128 * w
    } else {
        0
    });
    assert(-64 * w <= v < 64 * w) by (nonlinear_arith)
        requires
            v == low + p * w - (if p >= 64 {
                128 * w
            } else {
                0
            }),
            0 <= low < w,
            0 <= p < 128,
    ;
}

/// Checks whether the final signed LEB128 byte at group `offset` fits the
/// target width: its payload bits above the bits left over repeat the
/// highest of those bits, the sign bit.
fn signed_final_payload_fits(byte: u8, bits: u32, offset: usize) -> (fits: bool)
    requires
        7 * offset < bits <= 7 * offset + 7,
        bits <= 128,
    ensures
        fits == (payload(byte) < pow2((bits - 7 * offset - 1) as nat) || payload(byte) >= 128
            - pow2((bits - 7 * offset - 1) as nat)),
{
    let used_bits = bits - offset as u32 * 7;
    proof {
        assert(1 <= used_bits <= 7);
        assert(1 <= used_bits <= 7 ==> (1u16 << used_bits) >= 1) by (bit_vector);
    }
    let payload = byte & 0x7F;
    let used_mask = ((1u16 << used_bits) - 1) as u8;
    let unused_mask = 0x7F & !used_mask;
    let sign_shift = used_bits - 1;
    let sign_bit = 1u8 << sign_shift;
    let fits = if payload & sign_bit == 0 {
        payload & unused_mask == 0
    } else {
        payload & unused_mask == unused_mask
    };
    proof {
        lemma_byte_bits(byte);
        assert(1 <= used_bits <= 7 ==> (fits <==> ((byte & 0x7F) as u32) < (1u32 << sign_shift)
            || ((byte & 0x7F) as u32) >= 128 - (1u32 << sign_shift))) by (bit_vector)
            requires
                sign_shift == used_bits - 1,
                payload == byte & 0x7F,
                used_mask == ((1u16 << used_bits) - 1) as u8,
                unused_mask == 0x7F & !used_mask,
                sign_bit == 1u8 << sign_shift,
                fits == (if payload & sign_bit == 0 {
                    payload & unused_mask == 0
                } else {
                    payload & unused_mask == unused_mask
                }),
        ;
        lemma2_to64();
        lemma_pow2_strictly_increases(sign_shift as nat, 32);
        lemma_u32_shl_is_mul(1, sign_shift);
    }
    fits
}

/// Checks whether a signed LEB128 terminal byte is canonical: it is the only
/// byte, or it does more than repeat the sign bit of the preceding byte.
fn is_canonical_sleb_terminal(offset: usize, previous_byte: u8, byte: u8) -> (canonical: bool)
    ensures
        canonical == (offset == 0 || !redundant_sleb_terminal(previous_byte, byte)),
{
    if offset == 0 {
        return true;
    }
    proof {
        lemma_byte_bits(byte);
        lemma_byte_bits(previous_byte);
    }
    let payload = byte & 0x7F;
    !((payload == 0 && previous_byte & 0x40 == 0) || (payload == 0x7F && previous_byte & 0x40 != 0))
}

/// Checks whether an unsigned LEB128 terminal byte is canonical: it is the
/// only byte, or its payload is not zero.
fn is_canonical_uleb_terminal(offset: usize, byte: u8) -> (canonical: bool)
    ensures
        canonical == (offset == 0 || !redundant_uleb_terminal(byte)),
{
    proof {
        lemma_byte_bits(byte);
    }
    offset == 0 || byte & 0x7F != 0
}

/// Builds a malformed LEB128 error.
fn malformed_decode_error(start_index: usize, error_index: usize, consumed: usize) -> (e:
    Leb128DecodeError)
    requires
        consumed > 0,
        start_index + consumed - 1 <= usize::MAX,
        start_index <= error_index <= start_index + consumed - 1,
    ensures
        e@ == Leb128DecodeErrorView::malformed(start_index, error_index, consumed),
{
    Leb128DecodeError::malformed(start_index, error_index, consumed)
}

/// Builds a non-canonical LEB128 error.
fn noncanonical_decode_error(index: usize, consumed: usize) -> (e: Leb128DecodeError)
    requires
        consumed > 0,
        index + consumed - 1 <= usize::MAX,
    ensures
        e@ == Leb128DecodeErrorView::noncanonical(index, consumed),
{
    Leb128DecodeError::noncanonical(index, consumed)
}

/// Tries to decode an unsigned LEB128 value from the `available` bytes
/// currently readable at `index`.
fn read_uleb_prefix<P: Leb128DecodePolicy>(
    input: &[u8],
    index: usize,
    bits: u32,
    max_bytes: usize,
    available: usize,
) -> (r: Result<Option<(u128, usize)>, Leb128DecodeError>)
    requires
        1 <= bits <= 128,
        max_bytes == max_units(bits as nat),
        available <= max_bytes,
        index + available <= input@.len(),
    ensures
        uscan_view(r) == uleb_scan(
            input@.subrange(index as int, index + available),
            index as int,
            bits as nat,
            P::strict_flag(),
        ),
{
    let ghost window = input@.subrange(index as int, index + available);
    proof {
        lemma_max_units(bits as nat);
        lemma_pow2_facts();
        lemma_group_weight_step(0);
        assert(window.take(0) =~= Seq::<u8>::empty());
    }
    let input_len = input.len();
    let mut value: u128 = 0;
    let mut weight: u128 = 1;
    let mut offset: usize = 0;
    while offset < available
        invariant
            input_len == input@.len(),
            1 <= bits <= 128,
            max_bytes == max_units(bits as nat),
            7 * (max_bytes - 1) < bits <= 7 * max_bytes,
            available <= max_bytes,
            index + available <= input@.len(),
            window == input@.subrange(index as int, index + available),
            pow2(128) == u128::MAX + 1,
            offset <= available,
            forall|i: int| 0 <= i < offset ==> is_continuation(#[trigger] window[i]),
            offset < available ==> weight == group_weight(offset as nat) && value == payload_value(
                window.take(offset as int),
            ),
        decreases available - offset,
    {
        let byte = input[index + offset];
        proof {
            lemma_byte_bits(byte);
            assert(byte == window[offset as int]);
            lemma_payload_value_bound(window.take(offset as int));
            lemma_payload_value_bound(window.take(offset + 1));
            lemma_payload_value_take(window, offset as int);
            lemma_group_weight_step(offset as nat);
            if bits < 128 {
                lemma_pow2_strictly_increases(bits as nat, 128);
            }
        }
        let payload = (byte & 0x7F) as u128;
        if byte & 0x80 == 0 {
            proof {
                lemma_first_terminal_at(window, offset as int);
                if offset + 1 <= max_bytes - 1 {
                    lemma_early_group_fits(offset as nat, bits as nat);
                } else {
                    lemma_unsigned_last_group(value as nat, payload as nat, offset as nat, bits as nat);
                }
            }
            if offset == max_bytes - 1 && !unsigned_final_payload_fits(byte, bits, offset) {
                return Err(malformed_decode_error(index, index + offset, offset + 1));
            }
            let consumed = offset + 1;
            if P::is_strict() && !is_canonical_uleb_terminal(offset, byte) {
                return Err(noncanonical_decode_error(index, consumed));
            }
            return Ok(Some((value + payload * weight, consumed)));
        }
        if offset + 1 < available {
            proof {
                lemma_early_group_fits(offset as nat, bits as nat);
                lemma_pow2_strictly_increases((bits - 1) as nat, 128);
                assert(value + payload * weight < 128 * weight) by (nonlinear_arith)
                    requires
                        value < weight,
                        payload < 128,
                ;
            }
            value = value + payload * weight;
            weight = weight * 128;
        }
        offset += 1;
    }
    proof {
        lemma_first_terminal_at(window, available as int);
    }
    if available < max_bytes {
        return Ok(None);
    }
    Err(malformed_decode_error(index, index + max_bytes - 1, max_bytes))
}

/// Decodes an unsigned LEB128 value of `bits` bits starting at `index`.
fn read_uleb<P: Leb128DecodePolicy>(input: &[u8], index: usize, bits: u32, max_bytes: usize) -> (r:
    Result<(u128, usize), Leb128DecodeError>)
    requires
        index < input@.len(),
        1 <= bits <= 128,
        max_bytes == max_units(bits as nat),
    ensures
        udecode_view(r) == uleb_decode(input@, index as int, bits as nat, P::strict_flag()),
{
    let remaining = input.len() - index;
    let available = if remaining < max_bytes {
        remaining
    } else {
        max_bytes
    };
    match read_uleb_prefix::<P>(input, index, bits, max_bytes, available) {
        Ok(Some((value, consumed))) => Ok((value, consumed)),
        Ok(None) => Err(Leb128DecodeError::incomplete(index, available + 1, available)),
        Err(error) => Err(error),
    }
}

/// Tries to decode a signed LEB128 value from the `available` bytes
/// currently readable at `index`.
fn read_sleb_prefix<P: Leb128DecodePolicy>(
    input: &[u8],
    index: usize,
    bits: u32,
    max_bytes: usize,
    available: usize,
) -> (r: Result<Option<(i128, usize)>, Leb128DecodeError>)
    requires
        1 <= bits <= 128,
        max_bytes == max_units(bits as nat),
        available <= max_bytes,
        index + available <= input@.len(),
    ensures
        sscan_view(r) == sleb_scan(
            input@.subrange(index as int, index + available),
            index as int,
            bits as nat,
            P::strict_flag(),
        ),
{
    let ghost window = input@.subrange(index as int, index + available);
    proof {
        lemma_max_units(bits as nat);
        lemma_pow2_facts();
        lemma_group_weight_step(0);
        assert(window.take(0) =~= Seq::<u8>::empty());
    }
    let input_len = input.len();
    let mut low: u128 = 0;
    let mut weight: u128 = 1;
    let mut previous_byte: u8 = 0;
    let mut offset: usize = 0;
    while offset < available
        invariant
            input_len == input@.len(),
            1 <= bits <= 128,
            max_bytes == max_units(bits as nat),
            7 * (max_bytes - 1) < bits <= 7 * max_bytes,
            available <= max_bytes,
            index + available <= input@.len(),
            window == input@.subrange(index as int, index + available),
            pow2(128) == u128::MAX + 1,
            pow2(127) == i128::MAX + 1,
            offset <= available,
            forall|i: int| 0 <= i < offset ==> is_continuation(#[trigger] window[i]),
            offset > 0 ==> previous_byte == window[offset - 1],
            offset < available ==> weight == group_weight(offset as nat) && low == payload_value(
                window.take(offset as int),
            ),
        decreases available - offset,
    {
        let byte = input[index + offset];
        proof {
            lemma_byte_bits(byte);
            assert(byte == window[offset as int]);
            lemma_payload_value_bound(window.take(offset as int));
            lemma_payload_value_take(window, offset as int);
            lemma_group_weight_step(offset as nat);
            lemma_group_weight_step((offset + 1) as nat);
            lemma_early_group_fits_or_last(offset as nat, bits as nat);
            lemma_pow2_facts();
        }
        let payload = byte & 0x7F;
        if byte & 0x80 == 0 {
            let ghost value_spec = low + payload * weight - (if payload >= 64 {
                128 * weight
            } else {
                0
            });
            proof {
                lemma_first_terminal_at(window, offset as int);
                let prefix = window.take(offset + 1);
                assert(signed_payload_value(prefix) == value_spec);
                if offset + 1 <= max_bytes - 1 {
                    lemma_signed_early_fits(low as nat, payload as nat, offset as nat, bits as nat);
                } else {
                    lemma_signed_last_group(low as nat, payload as nat, offset as nat, bits as nat);
                }
            }
            if offset == max_bytes - 1 && !signed_final_payload_fits(byte, bits, offset) {
                return Err(malformed_decode_error(index, index + offset, offset + 1));
            }
            let consumed = offset + 1;
            if P::is_strict() && !is_canonical_sleb_terminal(offset, previous_byte, byte) {
                return Err(noncanonical_decode_error(index, consumed));
            }
            proof {
                assert(weight <= pow2(126)) by {
                    lemma_group_weight_monotone(offset as nat, 18);
                }
                assert(low < pow2(126));
                assert(weight == group_weight(offset as nat));
                let pw: int = if payload >= 64 {
                    (payload - 128) * weight
                } else {
                    payload * weight
                };
                assert(-pow2((bits - 1) as nat) <= pw < pow2((bits - 1) as nat));
                assert(-pow2(127) <= pw < pow2(127));
                assert(value_spec == low + pw) by (nonlinear_arith)
                    requires
                        value_spec == low + payload * weight - (if payload >= 64 {
                            128 * weight
                        } else {
                            0
                        }),
                        pw == (if payload >= 64 {
                            (payload - 128) * weight
                        } else {
                            payload * weight
                        }),
                ;
                assert(signed_fits(value_spec, bits as nat));
                assert(-pow2(127) <= low + pw < pow2(127));
            }
            let value: i128 = if payload >= 64 {
                low as i128 + (payload as i128 - 128) * weight as i128
            } else {
                low as i128 + payload as i128 * weight as i128
            };
            return Ok(Some((value, consumed)));
        }
        if offset + 1 < available {
            proof {
                assert(low + payload * weight < 128 * weight) by (nonlinear_arith)
                    requires
                        low < weight,
                        payload < 128,
                ;
            }
            low = low + payload as u128 * weight;
            weight = weight * 128;
        }
        previous_byte = byte;
        offset += 1;
    }
    proof {
        lemma_first_terminal_at(window, available as int);
    }
    if available < max_bytes {
        return Ok(None);
    }
    Err(malformed_decode_error(index, index + max_bytes - 1, max_bytes))
}

/// Decodes a signed LEB128 value of `bits` bits starting at `index`.
fn read_sleb<P: Leb128DecodePolicy>(input: &[u8], index: usize, bits: u32, max_bytes: usize) -> (r:
    Result<(i128, usize), Leb128DecodeError>)
    requires
        index < input@.len(),
        1 <= bits <= 128,
        max_bytes == max_units(bits as nat),
    ensures
        sdecode_view(r) == sleb_decode(input@, index as int, bits as nat, P::strict_flag()),
{
    let remaining = input.len() - index;
    let available = if remaining < max_bytes {
        remaining
    } else {
        max_bytes
    };
    match read_sleb_prefix::<P>(input, index, bits, max_bytes, available) {
        Ok(Some((value, consumed))) => Ok((value, consumed)),
        Ok(None) => Err(Leb128DecodeError::incomplete(index, available + 1, available)),
        Err(error) => Err(error),
    }
}

} // verus!

verus! {

/// Facts about the bit operations the encoders use on one seven-bit group.
proof fn lemma_group_bits(value: u128, byte: u8)
    ensures
        value & 0x7F == value % 128,
        value >> 7 == value / 128,
        byte < 128 ==> byte | 0x80 == byte + 128,
{
    assert(value & 0x7F == value % 128) by (bit_vector);
    lemma_u128_shr_is_div(value, 7);
    lemma2_to64();
    assert(byte < 128 ==> byte | 0x80 == byte + 128) by (bit_vector);
}

/// Encodes an unsigned integer as canonical LEB128 at `index`.
fn write_uleb(output: &mut [u8], index: usize, value: u128) -> (n: usize)
    requires
        index + uleb_encoding(value as nat).len() <= old(output)@.len(),
    ensures
        n == uleb_encoding(value as nat).len(),
        final(output)@ == written(old(output)@, index as int, uleb_encoding(value as nat)),
{
    let ghost original = value as nat;
    let ghost before = output@;
    let output_len = output.len();
    let mut remaining = value;
    let mut offset: usize = 0;
    proof {
        assert(output@.subrange(index as int, index as int) =~= Seq::<u8>::empty());
    }
    loop
        invariant
            original == value as nat,
            before == old(output)@,
            index + uleb_encoding(original).len() <= before.len(),
            output@.len() == before.len(),
            output_len == before.len(),
            offset + uleb_encoding(remaining as nat).len() == uleb_encoding(original).len(),
            uleb_encoding(original) == output@.subrange(index as int, index + offset)
                + uleb_encoding(remaining as nat),
            forall|i: int| 0 <= i < index ==> output@[i] == before[i],
            forall|i: int| index + offset <= i < before.len() ==> output@[i] == before[i],
        decreases remaining,
    {
        let ghost current = remaining as nat;
        let mut byte = (remaining & 0x7F) as u8;
        proof {
            lemma_group_bits(remaining, byte);
            lemma_uleb_encoding_facts(current);
        }
        remaining >>= 7;
        if remaining != 0 {
            byte |= 0x80;
        }
        proof {
            if current >= 128 {
                assert(uleb_encoding(current) =~= seq![byte] + uleb_encoding(remaining as nat));
            } else {
                assert(uleb_encoding(current) =~= seq![byte]);
            }
        }
        output[index + offset] = byte;
        proof {
            assert(output@.subrange(index as int, index + offset + 1) =~= output@.subrange(
                index as int,
                index + offset,
            ).push(byte));
        }
        offset += 1;
        if remaining == 0 {
            proof {
                let e = uleb_encoding(original);
                assert(output@.subrange(index as int, index + offset) =~= e);
                assert(output@ =~= written(before, index as int, e));
            }
            return offset;
        }
    }
}

/// Computes the canonical unsigned LEB128 byte width of `value`.
pub(crate) fn uleb_encoded_len(value: u128) -> (n: usize)
    ensures
        n == uleb_encoding(value as nat).len(),
{
    let ghost original = value as nat;
    proof {
        lemma_pow2_facts();
        lemma_pow2_adds(126, 7);
        lemma_uleb_encoding_len(original, 19);
    }
    let mut remaining = value;
    let mut len: usize = 0;
    loop
        invariant
            original == value as nat,
            len + uleb_encoding(remaining as nat).len() == uleb_encoding(original).len(),
            uleb_encoding(original).len() <= 19,
        decreases remaining,
    {
        let ghost current = remaining as nat;
        proof {
            lemma_group_bits(remaining, 0);
            lemma_uleb_encoding_facts(current);
        }
        remaining >>= 7;
        proof {
            if current < 128 {
                assert(uleb_encoding(current).len() == 1);
            } else {
                assert(uleb_encoding(current).len() == 1 + uleb_encoding(current / 128).len());
            }
        }
        len += 1;
        if remaining == 0 {
            return len;
        }
    }
}

} // verus!

verus! {

/// Facts about the bit operations the signed encoder uses on one group.
proof fn lemma_signed_group_bits(value: i128)
    ensures
        (value & 0x7F) as int == (value as int) % 128,
        (value >> 7) as int == (value as int) / 128,
{
    assert((value & 0x7F) as int == (value as int) % 128) by (bit_vector);
    assert((value >> 7) as int == (value as int) / 128) by (bit_vector);
}

/// Encodes a signed integer as canonical LEB128 at `index`.
fn write_sleb(output: &mut [u8], index: usize, value: i128) -> (n: usize)
    requires
        index + sleb_encoding(value as int).len() <= old(output)@.len(),
    ensures
        n == sleb_encoding(value as int).len(),
        final(output)@ == written(old(output)@, index as int, sleb_encoding(value as int)),
{
    let ghost original = value as int;
    let ghost before = output@;
    let output_len = output.len();
    let mut remaining = value;
    let mut offset: usize = 0;
    proof {
        assert(output@.subrange(index as int, index as int) =~= Seq::<u8>::empty());
    }
    loop
        invariant
            original == value as int,
            before == old(output)@,
            index + sleb_encoding(original).len() <= before.len(),
            output@.len() == before.len(),
            output_len == before.len(),
            offset + sleb_encoding(remaining as int).len() == sleb_encoding(original).len(),
            sleb_encoding(original) == output@.subrange(index as int, index + offset)
                + sleb_encoding(remaining as int),
            forall|i: int| 0 <= i < index ==> output@[i] == before[i],
            forall|i: int| index + offset <= i < before.len() ==> output@[i] == before[i],
        decreases (if remaining >= 0 {
            remaining as int
        } else {
            -remaining
        }),
    {
        let ghost current = remaining as int;
        proof {
            lemma_signed_group_bits(remaining);
            lemma_sleb_encoding_facts(current);
        }
        let mut byte = (remaining & 0x7F) as u8;
        proof {
            lemma_byte_bits(byte);
            lemma_group_bits(0, byte);
        }
        let sign_bit_set = byte & 0x40 != 0;
        remaining >>= 7;
        let done = (remaining == 0 && !sign_bit_set) || (remaining == -1 && sign_bit_set);
        proof {
            assert(done == sleb_group_is_last(current));
        }
        if !done {
            byte |= 0x80;
        }
        proof {
            if done {
                assert(sleb_encoding(current) =~= seq![byte]);
            } else {
                lemma_sleb_rest_shrinks(current);
                assert(sleb_encoding(current) =~= seq![byte] + sleb_encoding(remaining as int));
            }
        }
        output[index + offset] = byte;
        proof {
            assert(output@.subrange(index as int, index + offset + 1) =~= output@.subrange(
                index as int,
                index + offset,
            ).push(byte));
        }
        offset += 1;
        if done {
            proof {
                let e = sleb_encoding(original);
                assert(output@.subrange(index as int, index + offset) =~= e);
                assert(output@ =~= written(before, index as int, e));
            }
            return offset;
        }
    }
}

/// Computes the canonical signed LEB128 byte width of `value`.
fn sleb_encoded_len(value: i128) -> (n: usize)
    ensures
        n == sleb_encoding(value as int).len(),
{
    let ghost original = value as int;
    proof {
        lemma_pow2_facts();
        lemma_group_weight_step(18);
        lemma_sleb_encoding_len(original, 19);
    }
    let mut remaining = value;
    let mut len: usize = 0;
    loop
        invariant
            original == value as int,
            len + sleb_encoding(remaining as int).len() == sleb_encoding(original).len(),
            sleb_encoding(original).len() <= 19,
        decreases (if remaining >= 0 {
            remaining as int
        } else {
            -remaining
        }),
    {
        let ghost current = remaining as int;
        proof {
            lemma_signed_group_bits(remaining);
            lemma_sleb_encoding_facts(current);
        }
        let byte = (remaining & 0x7F) as u8;
        proof {
            lemma_byte_bits(byte);
        }
        let sign_bit_set = byte & 0x40 != 0;
        remaining >>= 7;
        let done = (remaining == 0 && !sign_bit_set) || (remaining == -1 && sign_bit_set);
        proof {
            assert(done == sleb_group_is_last(current));
            if done {
                assert(sleb_encoding(current).len() == 1);
            } else {
                lemma_sleb_rest_shrinks(current);
                assert(sleb_encoding(current).len() == 1 + sleb_encoding(current / 128).len());
            }
        }
        len += 1;
        if done {
            return len;
        }
    }
}

} // verus!

// ---- per-type API ----

verus! {

/// Type-level LEB128 codec for one integer type `T` and one decoding
/// policy `P`.
///
/// Encoding is always canonical and does not depend on `P`; `P` only
/// decides whether decoding rejects non-canonical input. Encoding-only
/// callers conventionally use [`NonStrict`](crate::NonStrict).
#[derive(Copy, Debug, PartialEq, Eq)]
pub struct Leb128Codec<T, P> {
    marker: PhantomData<(T, P)>,
}

impl<T, P> Clone for Leb128Codec<T, P> {
    fn clone(&self) -> (r: Self) {
        Leb128Codec { marker: PhantomData }
    }
}

impl<T, P> Default for Leb128Codec<T, P> {
    fn default() -> (r: Self) {
        Leb128Codec { marker: PhantomData }
    }
}

impl<P: Leb128DecodePolicy> Leb128Codec<u8, P> {
    /// Minimum number of bytes that can represent a complete value.
    pub const MIN_UNITS_PER_VALUE: usize = 1;

    /// Maximum number of bytes emitted when encoding this type.
    pub const MAX_ENCODE_UNITS_PER_VALUE: usize = 2;

    /// Maximum number of bytes consumed when decoding this type.
    pub const MAX_DECODE_UNITS_PER_VALUE: usize = 2;

    /// Decodes an unsigned LEB128 `u8` starting at `input_index`.
    ///
    /// Returns the value and the non-zero number of consumed bytes, or the
    /// error for incomplete, malformed or (under a strict policy)
    /// non-canonical input. At least one byte must be readable at
    /// `input_index`.
    pub fn decode(input: &[u8], input_index: usize) -> (r: Result<(u8, usize), Leb128DecodeError>)
        requires
            input_index < input@.len(),
        ensures
            match r {
                Ok((value, consumed)) => uleb_decode(input@, input_index as int, 8, P::strict_flag())
                    == Ok::<(int, usize), Leb128DecodeErrorView>((value as int, consumed)),
                Err(e) => uleb_decode(input@, input_index as int, 8, P::strict_flag())
                    == Err::<(int, usize), Leb128DecodeErrorView>(e@),
            },
    {
        proof {
            lemma_pow2_facts();
        }
        match read_uleb::<P>(input, input_index, 8, Self::MAX_DECODE_UNITS_PER_VALUE) {
            Ok((value, consumed)) => Ok((value as u8, consumed)),
            Err(error) => Err(error),
        }
    }

    /// Encodes `value` as canonical unsigned LEB128 at `output_index` and
    /// returns the number of written bytes.
    ///
    /// The canonical width of `value` must be writable at `output_index`;
    /// reserving `MAX_ENCODE_UNITS_PER_VALUE` bytes always suffices.
    pub fn encode(value: u8, output: &mut [u8], output_index: usize) -> (written_len: usize)
        requires
            output_index + uleb_encoding(value as nat).len() <= old(output)@.len(),
        ensures
            written_len == uleb_encoding(value as nat).len(),
            written_len <= Self::MAX_ENCODE_UNITS_PER_VALUE,
            final(output)@ == written(old(output)@, output_index as int, uleb_encoding(value as nat)),
    {
        proof {
            lemma_pow2_facts();
            lemma_uleb_encoding_within_units(value as nat, 8);
        }
        write_uleb(output, output_index, value as u128)
    }

    /// Returns the canonical unsigned LEB128 byte width of `value`.
    pub fn encode_len(&self, value: &u8) -> (len: usize)
        ensures
            len == uleb_encoding(*value as nat).len(),
            1 <= len <= Self::MAX_ENCODE_UNITS_PER_VALUE,
    {
        proof {
            lemma_pow2_facts();
            lemma_uleb_encoding_within_units(*value as nat, 8);
            lemma_uleb_encoding_facts(*value as nat);
        }
        uleb_encoded_len(*value as u128)
    }
}

impl<P: Leb128DecodePolicy> Leb128Codec<u16, P> {
    /// Minimum number of bytes that can represent a complete value.
    pub const MIN_UNITS_PER_VALUE: usize = 1;

    /// Maximum number of bytes emitted when encoding this type.
    pub const MAX_ENCODE_UNITS_PER_VALUE: usize = 3;

    /// Maximum number of bytes consumed when decoding this type.
    pub const MAX_DECODE_UNITS_PER_VALUE: usize = 3;

    /// Decodes an unsigned LEB128 `u16` starting at `input_index`.
    ///
    /// Returns the value and the non-zero number of consumed bytes, or the
    /// error for incomplete, malformed or (under a strict policy)
    /// non-canonical input. At least one byte must be readable at
    /// `input_index`.
    pub fn decode(input: &[u8], input_index: usize) -> (r: Result<(u16, usize), Leb128DecodeError>)
        requires
            input_index < input@.len(),
        ensures
            match r {
                Ok((value, consumed)) => uleb_decode(input@, input_index as int, 16, P::strict_flag())
                    == Ok::<(int, usize), Leb128DecodeErrorView>((value as int, consumed)),
                Err(e) => uleb_decode(input@, input_index as int, 16, P::strict_flag())
                    == Err::<(int, usize), Leb128DecodeErrorView>(e@),
            },
    {
        proof {
            lemma_pow2_facts();
        }
        match read_uleb::<P>(input, input_index, 16, Self::MAX_DECODE_UNITS_PER_VALUE) {
            Ok((value, consumed)) => Ok((value as u16, consumed)),
            Err(error) => Err(error),
        }
    }

    /// Encodes `value` as canonical unsigned LEB128 at `output_index` and
    /// returns the number of written bytes.
    ///
    /// The canonical width of `value` must be writable at `output_index`;
    /// reserving `MAX_ENCODE_UNITS_PER_VALUE` bytes always suffices.
    pub fn encode(value: u16, output: &mut [u8], output_index: usize) -> (written_len: usize)
        requires
            output_index + uleb_encoding(value as nat).len() <= old(output)@.len(),
        ensures
            written_len == uleb_encoding(value as nat).len(),
            written_len <= Self::MAX_ENCODE_UNITS_PER_VALUE,
            final(output)@ == written(old(output)@, output_index as int, uleb_encoding(value as nat)),
    {
        proof {
            lemma_pow2_facts();
            lemma_uleb_encoding_within_units(value as nat, 16);
        }
        write_uleb(output, output_index, value as u128)
    }

    /// Returns the canonical unsigned LEB128 byte width of `value`.
    pub fn encode_len(&self, value: &u16) -> (len: usize)
        ensures
            len == uleb_encoding(*value as nat).len(),
            1 <= len <= Self::MAX_ENCODE_UNITS_PER_VALUE,
    {
        proof {
            lemma_pow2_facts();
            lemma_uleb_encoding_within_units(*value as nat, 16);
            lemma_uleb_encoding_facts(*value as nat);
        }
        uleb_encoded_len(*value as u128)
    }
}

impl<P: Leb128DecodePolicy> Leb128Codec<u32, P> {
    /// Minimum number of bytes that can represent a complete value.
    pub const MIN_UNITS_PER_VALUE: usize = 1;

    /// Maximum number of bytes emitted when encoding this type.
    pub const MAX_ENCODE_UNITS_PER_VALUE: usize = 5;

    /// Maximum number of bytes consumed when decoding this type.
    pub const MAX_DECODE_UNITS_PER_VALUE: usize = 5;

    /// Decodes an unsigned LEB128 `u32` starting at `input_index`.
    ///
    /// Returns the value and the non-zero number of consumed bytes, or the
    /// error for incomplete, malformed or (under a strict policy)
    /// non-canonical input. At least one byte must be readable at
    /// `input_index`.
    pub fn decode(input: &[u8], input_index: usize) -> (r: Result<(u32, usize), Leb128DecodeError>)
        requires
            input_index < input@.len(),
        ensures
            match r {
                Ok((value, consumed)) => uleb_decode(input@, input_index as int, 32, P::strict_flag())
                    == Ok::<(int, usize), Leb128DecodeErrorView>((value as int, consumed)),
                Err(e) => uleb_decode(input@, input_index as int, 32, P::strict_flag())
                    == Err::<(int, usize), Leb128DecodeErrorView>(e@),
            },
    {
        proof {
            lemma_pow2_facts();
        }
        match read_uleb::<P>(input, input_index, 32, Self::MAX_DECODE_UNITS_PER_VALUE) {
            Ok((value, consumed)) => Ok((value as u32, consumed)),
            Err(error) => Err(error),
        }
    }

    /// Encodes `value` as canonical unsigned LEB128 at `output_index` and
    /// returns the number of written bytes.
    ///
    /// The canonical width of `value` must be writable at `output_index`;
    /// reserving `MAX_ENCODE_UNITS_PER_VALUE` bytes always suffices.
    pub fn encode(value: u32, output: &mut [u8], output_index: usize) -> (written_len: usize)
        requires
            output_index + uleb_encoding(value as nat).len() <= old(output)@.len(),
        ensures
            written_len == uleb_encoding(value as nat).len(),
            written_len <= Self::MAX_ENCODE_UNITS_PER_VALUE,
            final(output)@ == written(old(output)@, output_index as int, uleb_encoding(value as nat)),
    {
        proof {
            lemma_pow2_facts();
            lemma_uleb_encoding_within_units(value as nat, 32);
        }
        write_uleb(output, output_index, value as u128)
    }

    /// Returns the canonical unsigned LEB128 byte width of `value`.
    pub fn encode_len(&self, value: &u32) -> (len: usize)
        ensures
            len == uleb_encoding(*value as nat).len(),
            1 <= len <= Self::MAX_ENCODE_UNITS_PER_VALUE,
    {
        proof {
            lemma_pow2_facts();
            lemma_uleb_encoding_within_units(*value as nat, 32);
            lemma_uleb_encoding_facts(*value as nat);
        }
        uleb_encoded_len(*value as u128)
    }
}

impl<P: Leb128DecodePolicy> Leb128Codec<u64, P> {
    /// Minimum number of bytes that can represent a complete value.
    pub const MIN_UNITS_PER_VALUE: usize = 1;

    /// Maximum number of bytes emitted when encoding this type.
    pub const MAX_ENCODE_UNITS_PER_VALUE: usize = 10;

    /// Maximum number of bytes consumed when decoding this type.
    pub const MAX_DECODE_UNITS_PER_VALUE: usize = 10;

    /// Decodes an unsigned LEB128 `u64` starting at `input_index`.
    ///
    /// Returns the value and the non-zero number of consumed bytes, or the
    /// error for incomplete, malformed or (under a strict policy)
    /// non-canonical input. At least one byte must be readable at
    /// `input_index`.
    pub fn decode(input: &[u8], input_index: usize) -> (r: Result<(u64, usize), Leb128DecodeError>)
        requires
            input_index < input@.len(),
        ensures
            match r {
                Ok((value, consumed)) => uleb_decode(input@, input_index as int, 64, P::strict_flag())
                    == Ok::<(int, usize), Leb128DecodeErrorView>((value as int, consumed)),
                Err(e) => uleb_decode(input@, input_index as int, 64, P::strict_flag())
                    == Err::<(int, usize), Leb128DecodeErrorView>(e@),
            },
    {
        proof {
            lemma_pow2_facts();
        }
        match read_uleb::<P>(input, input_index, 64, Self::MAX_DECODE_UNITS_PER_VALUE) {
            Ok((value, consumed)) => Ok((value as u64, consumed)),
            Err(error) => Err(error),
        }
    }

    /// Encodes `value` as canonical unsigned LEB128 at `output_index` and
    /// returns the number of written bytes.
    ///
    /// The canonical width of `value` must be writable at `output_index`;
    /// reserving `MAX_ENCODE_UNITS_PER_VALUE` bytes always suffices.
    pub fn encode(value: u64, output: &mut [u8], output_index: usize) -> (written_len: usize)
        requires
            output_index + uleb_encoding(value as nat).len() <= old(output)@.len(),
        ensures
            written_len == uleb_encoding(value as nat).len(),
            written_len <= Self::MAX_ENCODE_UNITS_PER_VALUE,
            final(output)@ == written(old(output)@, output_index as int, uleb_encoding(value as nat)),
    {
        proof {
            lemma_pow2_facts();
            lemma_uleb_encoding_within_units(value as nat, 64);
        }
        write_uleb(output, output_index, value as u128)
    }

    /// Returns the canonical unsigned LEB128 byte width of `value`.
    pub fn encode_len(&self, value: &u64) -> (len: usize)
        ensures
            len == uleb_encoding(*value as nat).len(),
            1 <= len <= Self::MAX_ENCODE_UNITS_PER_VALUE,
    {
        proof {
            lemma_pow2_facts();
            lemma_uleb_encoding_within_units(*value as nat, 64);
            lemma_uleb_encoding_facts(*value as nat);
        }
        uleb_encoded_len(*value as u128)
    }
}

impl<P: Leb128DecodePolicy> Leb128Codec<u128, P> {
    /// Minimum number of bytes that can represent a complete value.
    pub const MIN_UNITS_PER_VALUE: usize = 1;

    /// Maximum number of bytes emitted when encoding this type.
    pub const MAX_ENCODE_UNITS_PER_VALUE: usize = 19;

    /// Maximum number of bytes consumed when decoding this type.
    pub const MAX_DECODE_UNITS_PER_VALUE: usize = 19;

    /// Decodes an unsigned LEB128 `u128` starting at `input_index`.
    ///
    /// Returns the value and the non-zero number of consumed bytes, or the
    /// error for incomplete, malformed or (under a strict policy)
    /// non-canonical input. At least one byte must be readable at
    /// `input_index`.
    pub fn decode(input: &[u8], input_index: usize) -> (r: Result<(u128, usize), Leb128DecodeError>)
        requires
            input_index < input@.len(),
        ensures
            match r {
                Ok((value, consumed)) => uleb_decode(input@, input_index as int, 128, P::strict_flag())
                    == Ok::<(int, usize), Leb128DecodeErrorView>((value as int, consumed)),
                Err(e) => uleb_decode(input@, input_index as int, 128, P::strict_flag())
                    == Err::<(int, usize), Leb128DecodeErrorView>(e@),
            },
    {
        proof {
            lemma_pow2_facts();
        }
        match read_uleb::<P>(input, input_index, 128, Self::MAX_DECODE_UNITS_PER_VALUE) {
            Ok((value, consumed)) => Ok((value as u128, consumed)),
            Err(error) => Err(error),
        }
    }

    /// Encodes `value` as canonical unsigned LEB128 at `output_index` and
    /// returns the number of written bytes.
    ///
    /// The canonical width of `value` must be writable at `output_index`;
    /// reserving `MAX_ENCODE_UNITS_PER_VALUE` bytes always suffices.
    pub fn encode(value: u128, output: &mut [u8], output_index: usize) -> (written_len: usize)
        requires
            output_index + uleb_encoding(value as nat).len() <= old(output)@.len(),
        ensures
            written_len == uleb_encoding(value as nat).len(),
            written_len <= Self::MAX_ENCODE_UNITS_PER_VALUE,
            final(output)@ == written(old(output)@, output_index as int, uleb_encoding(value as nat)),
    {
        proof {
            lemma_pow2_facts();
            lemma_uleb_encoding_within_units(value as nat, 128);
        }
        write_uleb(output, output_index, value as u128)
    }

    /// Returns the canonical unsigned LEB128 byte width of `value`.
    pub fn encode_len(&self, value: &u128) -> (len: usize)
        ensures
            len == uleb_encoding(*value as nat).len(),
            1 <= len <= Self::MAX_ENCODE_UNITS_PER_VALUE,
    {
        proof {
            lemma_pow2_facts();
            lemma_uleb_encoding_within_units(*value as nat, 128);
            lemma_uleb_encoding_facts(*value as nat);
        }
        uleb_encoded_len(*value as u128)
    }
}

impl<P: Leb128DecodePolicy> Leb128Codec<usize, P> {
    /// Minimum number of bytes that can represent a complete value.
    pub const MIN_UNITS_PER_VALUE: usize = 1;

    /// Maximum number of bytes emitted when encoding this type.
    pub const MAX_ENCODE_UNITS_PER_VALUE: usize = (usize::BITS as usize + 6) / 7;

    /// Maximum number of bytes consumed when decoding this type.
    pub const MAX_DECODE_UNITS_PER_VALUE: usize = (usize::BITS as usize + 6) / 7;

    /// Decodes an unsigned LEB128 `usize` starting at `input_index`.
    ///
    /// Returns the value and the non-zero number of consumed bytes, or the
    /// error for incomplete, malformed or (under a strict policy)
    /// non-canonical input. At least one byte must be readable at
    /// `input_index`.
    pub fn decode(input: &[u8], input_index: usize) -> (r: Result<(usize, usize), Leb128DecodeError>)
        requires
            input_index < input@.len(),
        ensures
            match r {
                Ok((value, consumed)) => uleb_decode(input@, input_index as int, (usize::BITS as nat), P::strict_flag())
                    == Ok::<(int, usize), Leb128DecodeErrorView>((value as int, consumed)),
                Err(e) => uleb_decode(input@, input_index as int, (usize::BITS as nat), P::strict_flag())
                    == Err::<(int, usize), Leb128DecodeErrorView>(e@),
            },
    {
        proof {
            lemma_pow2_facts();
            lemma_platform_widths();
        }
        match read_uleb::<P>(input, input_index, usize::BITS, Self::MAX_DECODE_UNITS_PER_VALUE) {
            Ok((value, consumed)) => Ok((value as usize, consumed)),
            Err(error) => Err(error),
        }
    }

    /// Encodes `value` as canonical unsigned LEB128 at `output_index` and
    /// returns the number of written bytes.
    ///
    /// The canonical width of `value` must be writable at `output_index`;
    /// reserving `MAX_ENCODE_UNITS_PER_VALUE` bytes always suffices.
    pub fn encode(value: usize, output: &mut [u8], output_index: usize) -> (written_len: usize)
        requires
            output_index + uleb_encoding(value as nat).len() <= old(output)@.len(),
        ensures
            written_len == uleb_encoding(value as nat).len(),
            written_len <= Self::MAX_ENCODE_UNITS_PER_VALUE,
            final(output)@ == written(old(output)@, output_index as int, uleb_encoding(value as nat)),
    {
        proof {
            lemma_pow2_facts();
            lemma_platform_widths();
            lemma_uleb_encoding_within_units(value as nat, (usize::BITS as nat));
        }
        write_uleb(output, output_index, value as u128)
    }

    /// Returns the canonical unsigned LEB128 byte width of `value`.
    pub fn encode_len(&self, value: &usize) -> (len: usize)
        ensures
            len == uleb_encoding(*value as nat).len(),
            1 <= len <= Self::MAX_ENCODE_UNITS_PER_VALUE,
    {
        proof {
            lemma_pow2_facts();
            lemma_platform_widths();
            lemma_uleb_encoding_within_units(*value as nat, (usize::BITS as nat));
            lemma_uleb_encoding_facts(*value as nat);
        }
        uleb_encoded_len(*value as u128)
    }
}

impl<P: Leb128DecodePolicy> Leb128Codec<i8, P> {
    /// Minimum number of bytes that can represent a complete value.
    pub const MIN_UNITS_PER_VALUE: usize = 1;

    /// Maximum number of bytes emitted when encoding this type.
    pub const MAX_ENCODE_UNITS_PER_VALUE: usize = 2;

    /// Maximum number of bytes consumed when decoding this type.
    pub const MAX_DECODE_UNITS_PER_VALUE: usize = 2;

    /// Decodes a signed LEB128 `i8` starting at `input_index`.
    ///
    /// Returns the value and the non-zero number of consumed bytes, or the
    /// error for incomplete, malformed or (under a strict policy)
    /// non-canonical input. At least one byte must be readable at
    /// `input_index`.
    pub fn decode(input: &[u8], input_index: usize) -> (r: Result<(i8, usize), Leb128DecodeError>)
        requires
            input_index < input@.len(),
        ensures
            match r {
                Ok((value, consumed)) => sleb_decode(input@, input_index as int, 8, P::strict_flag())
                    == Ok::<(int, usize), Leb128DecodeErrorView>((value as int, consumed)),
                Err(e) => sleb_decode(input@, input_index as int, 8, P::strict_flag())
                    == Err::<(int, usize), Leb128DecodeErrorView>(e@),
            },
    {
        proof {
            lemma_pow2_facts();
        }
        match read_sleb::<P>(input, input_index, 8, Self::MAX_DECODE_UNITS_PER_VALUE) {
            Ok((value, consumed)) => Ok((value as i8, consumed)),
            Err(error) => Err(error),
        }
    }

    /// Encodes `value` as canonical signed LEB128 at `output_index` and
    /// returns the number of written bytes.
    ///
    /// The canonical width of `value` must be writable at `output_index`;
    /// reserving `MAX_ENCODE_UNITS_PER_VALUE` bytes always suffices.
    pub fn encode(value: i8, output: &mut [u8], output_index: usize) -> (written_len: usize)
        requires
            output_index + sleb_encoding(value as int).len() <= old(output)@.len(),
        ensures
            written_len == sleb_encoding(value as int).len(),
            written_len <= Self::MAX_ENCODE_UNITS_PER_VALUE,
            final(output)@ == written(old(output)@, output_index as int, sleb_encoding(value as int)),
    {
        proof {
            lemma_pow2_facts();
            lemma_sleb_encoding_within_units(value as int, 8);
        }
        write_sleb(output, output_index, value as i128)
    }

    /// Returns the canonical signed LEB128 byte width of `value`.
    pub fn encode_len(&self, value: &i8) -> (len: usize)
        ensures
            len == sleb_encoding(*value as int).len(),
            1 <= len <= Self::MAX_ENCODE_UNITS_PER_VALUE,
    {
        proof {
            lemma_pow2_facts();
            lemma_sleb_encoding_within_units(*value as int, 8);
            lemma_sleb_encoding_facts(*value as int);
        }
        sleb_encoded_len(*value as i128)
    }
}

impl<P: Leb128DecodePolicy> Leb128Codec<i16, P> {
    /// Minimum number of bytes that can represent a complete value.
    pub const MIN_UNITS_PER_VALUE: usize = 1;

    /// Maximum number of bytes emitted when encoding this type.
    pub const MAX_ENCODE_UNITS_PER_VALUE: usize = 3;

    /// Maximum number of bytes consumed when decoding this type.
    pub const MAX_DECODE_UNITS_PER_VALUE: usize = 3;

    /// Decodes a signed LEB128 `i16` starting at `input_index`.
    ///
    /// Returns the value and the non-zero number of consumed bytes, or the
    /// error for incomplete, malformed or (under a strict policy)
    /// non-canonical input. At least one byte must be readable at
    /// `input_index`.
    pub fn decode(input: &[u8], input_index: usize) -> (r: Result<(i16, usize), Leb128DecodeError>)
        requires
            input_index < input@.len(),
        ensures
            match r {
                Ok((value, consumed)) => sleb_decode(input@, input_index as int, 16, P::strict_flag())
                    == Ok::<(int, usize), Leb128DecodeErrorView>((value as int, consumed)),
                Err(e) => sleb_decode(input@, input_index as int, 16, P::strict_flag())
                    == Err::<(int, usize), Leb128DecodeErrorView>(e@),
            },
    {
        proof {
            lemma_pow2_facts();
        }
        match read_sleb::<P>(input, input_index, 16, Self::MAX_DECODE_UNITS_PER_VALUE) {
            Ok((value, consumed)) => Ok((value as i16, consumed)),
            Err(error) => Err(error),
        }
    }

    /// Encodes `value` as canonical signed LEB128 at `output_index` and
    /// returns the number of written bytes.
    ///
    /// The canonical width of `value` must be writable at `output_index`;
    /// reserving `MAX_ENCODE_UNITS_PER_VALUE` bytes always suffices.
    pub fn encode(value: i16, output: &mut [u8], output_index: usize) -> (written_len: usize)
        requires
            output_index + sleb_encoding(value as int).len() <= old(output)@.len(),
        ensures
            written_len == sleb_encoding(value as int).len(),
            written_len <= Self::MAX_ENCODE_UNITS_PER_VALUE,
            final(output)@ == written(old(output)@, output_index as int, sleb_encoding(value as int)),
    {
        proof {
            lemma_pow2_facts();
            lemma_sleb_encoding_within_units(value as int, 16);
        }
        write_sleb(output, output_index, value as i128)
    }

    /// Returns the canonical signed LEB128 byte width of `value`.
    pub fn encode_len(&self, value: &i16) -> (len: usize)
        ensures
            len == sleb_encoding(*value as int).len(),
            1 <= len <= Self::MAX_ENCODE_UNITS_PER_VALUE,
    {
        proof {
            lemma_pow2_facts();
            lemma_sleb_encoding_within_units(*value as int, 16);
            lemma_sleb_encoding_facts(*value as int);
        }
        sleb_encoded_len(*value as i128)
    }
}

impl<P: Leb128DecodePolicy> Leb128Codec<i32, P> {
    /// Minimum number of bytes that can represent a complete value.
    pub const MIN_UNITS_PER_VALUE: usize = 1;

    /// Maximum number of bytes emitted when encoding this type.
    pub const MAX_ENCODE_UNITS_PER_VALUE: usize = 5;

    /// Maximum number of bytes consumed when decoding this type.
    pub const MAX_DECODE_UNITS_PER_VALUE: usize = 5;

    /// Decodes a signed LEB128 `i32` starting at `input_index`.
    ///
    /// Returns the value and the non-zero number of consumed bytes, or the
    /// error for incomplete, malformed or (under a strict policy)
    /// non-canonical input. At least one byte must be readable at
    /// `input_index`.
    pub fn decode(input: &[u8], input_index: usize) -> (r: Result<(i32, usize), Leb128DecodeError>)
        requires
            input_index < input@.len(),
        ensures
            match r {
                Ok((value, consumed)) => sleb_decode(input@, input_index as int, 32, P::strict_flag())
                    == Ok::<(int, usize), Leb128DecodeErrorView>((value as int, consumed)),
                Err(e) => sleb_decode(input@, input_index as int, 32, P::strict_flag())
                    == Err::<(int, usize), Leb128DecodeErrorView>(e@),
            },
    {
        proof {
            lemma_pow2_facts();
        }
        match read_sleb::<P>(input, input_index, 32, Self::MAX_DECODE_UNITS_PER_VALUE) {
            Ok((value, consumed)) => Ok((value as i32, consumed)),
            Err(error) => Err(error),
        }
    }

    /// Encodes `value` as canonical signed LEB128 at `output_index` and
    /// returns the number of written bytes.
    ///
    /// The canonical width of `value` must be writable at `output_index`;
    /// reserving `MAX_ENCODE_UNITS_PER_VALUE` bytes always suffices.
    pub fn encode(value: i32, output: &mut [u8], output_index: usize) -> (written_len: usize)
        requires
            output_index + sleb_encoding(value as int).len() <= old(output)@.len(),
        ensures
            written_len == sleb_encoding(value as int).len(),
            written_len <= Self::MAX_ENCODE_UNITS_PER_VALUE,
            final(output)@ == written(old(output)@, output_index as int, sleb_encoding(value as int)),
    {
        proof {
            lemma_pow2_facts();
            lemma_sleb_encoding_within_units(value as int, 32);
        }
        write_sleb(output, output_index, value as i128)
    }

    /// Returns the canonical signed LEB128 byte width of `value`.
    pub fn encode_len(&self, value: &i32) -> (len: usize)
        ensures
            len == sleb_encoding(*value as int).len(),
            1 <= len <= Self::MAX_ENCODE_UNITS_PER_VALUE,
    {
        proof {
            lemma_pow2_facts();
            lemma_sleb_encoding_within_units(*value as int, 32);
            lemma_sleb_encoding_facts(*value as int);
        }
        sleb_encoded_len(*value as i128)
    }
}

impl<P: Leb128DecodePolicy> Leb128Codec<i64, P> {
    /// Minimum number of bytes that can represent a complete value.
    pub const MIN_UNITS_PER_VALUE: usize = 1;

    /// Maximum number of bytes emitted when encoding this type.
    pub const MAX_ENCODE_UNITS_PER_VALUE: usize = 10;

    /// Maximum number of bytes consumed when decoding this type.
    pub const MAX_DECODE_UNITS_PER_VALUE: usize = 10;

    /// Decodes a signed LEB128 `i64` starting at `input_index`.
    ///
    /// Returns the value and the non-zero number of consumed bytes, or the
    /// error for incomplete, malformed or (under a strict policy)
    /// non-canonical input. At least one byte must be readable at
    /// `input_index`.
    pub fn decode(input: &[u8], input_index: usize) -> (r: Result<(i64, usize), Leb128DecodeError>)
        requires
            input_index < input@.len(),
        ensures
            match r {
                Ok((value, consumed)) => sleb_decode(input@, input_index as int, 64, P::strict_flag())
                    == Ok::<(int, usize), Leb128DecodeErrorView>((value as int, consumed)),
                Err(e) => sleb_decode(input@, input_index as int, 64, P::strict_flag())
                    == Err::<(int, usize), Leb128DecodeErrorView>(e@),
            },
    {
        proof {
            lemma_pow2_facts();
        }
        match read_sleb::<P>(input, input_index, 64, Self::MAX_DECODE_UNITS_PER_VALUE) {
            Ok((value, consumed)) => Ok((value as i64, consumed)),
            Err(error) => Err(error),
        }
    }

    /// Encodes `value` as canonical signed LEB128 at `output_index` and
    /// returns the number of written bytes.
    ///
    /// The canonical width of `value` must be writable at `output_index`;
    /// reserving `MAX_ENCODE_UNITS_PER_VALUE` bytes always suffices.
    pub fn encode(value: i64, output: &mut [u8], output_index: usize) -> (written_len: usize)
        requires
            output_index + sleb_encoding(value as int).len() <= old(output)@.len(),
        ensures
            written_len == sleb_encoding(value as int).len(),
            written_len <= Self::MAX_ENCODE_UNITS_PER_VALUE,
            final(output)@ == written(old(output)@, output_index as int, sleb_encoding(value as int)),
    {
        proof {
            lemma_pow2_facts();
            lemma_sleb_encoding_within_units(value as int, 64);
        }
        write_sleb(output, output_index, value as i128)
    }

    /// Returns the canonical signed LEB128 byte width of `value`.
    pub fn encode_len(&self, value: &i64) -> (len: usize)
        ensures
            len == sleb_encoding(*value as int).len(),
            1 <= len <= Self::MAX_ENCODE_UNITS_PER_VALUE,
    {
        proof {
            lemma_pow2_facts();
            lemma_sleb_encoding_within_units(*value as int, 64);
            lemma_sleb_encoding_facts(*value as int);
        }
        sleb_encoded_len(*value as i128)
    }
}

impl<P: Leb128DecodePolicy> Leb128Codec<i128, P> {
    /// Minimum number of bytes that can represent a complete value.
    pub const MIN_UNITS_PER_VALUE: usize = 1;

    /// Maximum number of bytes emitted when encoding this type.
    pub const MAX_ENCODE_UNITS_PER_VALUE: usize = 19;

    /// Maximum number of bytes consumed when decoding this type.
    pub const MAX_DECODE_UNITS_PER_VALUE: usize = 19;

    /// Decodes a signed LEB128 `i128` starting at `input_index`.
    ///
    /// Returns the value and the non-zero number of consumed bytes, or the
    /// error for incomplete, malformed or (under a strict policy)
    /// non-canonical input. At least one byte must be readable at
    /// `input_index`.
    pub fn decode(input: &[u8], input_index: usize) -> (r: Result<(i128, usize), Leb128DecodeError>)
        requires
            input_index < input@.len(),
        ensures
            match r {
                Ok((value, consumed)) => sleb_decode(input@, input_index as int, 128, P::strict_flag())
                    == Ok::<(int, usize), Leb128DecodeErrorView>((value as int, consumed)),
                Err(e) => sleb_decode(input@, input_index as int, 128, P::strict_flag())
                    == Err::<(int, usize), Leb128DecodeErrorView>(e@),
            },
    {
        proof {
            lemma_pow2_facts();
        }
        match read_sleb::<P>(input, input_index, 128, Self::MAX_DECODE_UNITS_PER_VALUE) {
            Ok((value, consumed)) => Ok((value as i128, consumed)),
            Err(error) => Err(error),
        }
    }

    /// Encodes `value` as canonical signed LEB128 at `output_index` and
    /// returns the number of written bytes.
    ///
    /// The canonical width of `value` must be writable at `output_index`;
    /// reserving `MAX_ENCODE_UNITS_PER_VALUE` bytes always suffices.
    pub fn encode(value: i128, output: &mut [u8], output_index: usize) -> (written_len: usize)
        requires
            output_index + sleb_encoding(value as int).len() <= old(output)@.len(),
        ensures
            written_len == sleb_encoding(value as int).len(),
            written_len <= Self::MAX_ENCODE_UNITS_PER_VALUE,
            final(output)@ == written(old(output)@, output_index as int, sleb_encoding(value as int)),
    {
        proof {
            lemma_pow2_facts();
            lemma_sleb_encoding_within_units(value as int, 128);
        }
        write_sleb(output, output_index, value as i128)
    }

    /// Returns the canonical signed LEB128 byte width of `value`.
    pub fn encode_len(&self, value: &i128) -> (len: usize)
        ensures
            len == sleb_encoding(*value as int).len(),
            1 <= len <= Self::MAX_ENCODE_UNITS_PER_VALUE,
    {
        proof {
            lemma_pow2_facts();
            lemma_sleb_encoding_within_units(*value as int, 128);
            lemma_sleb_encoding_facts(*value as int);
        }
        sleb_encoded_len(*value as i128)
    }
}

impl<P: Leb128DecodePolicy> Leb128Codec<isize, P> {
    /// Minimum number of bytes that can represent a complete value.
    pub const MIN_UNITS_PER_VALUE: usize = 1;

    /// Maximum number of bytes emitted when encoding this type.
    pub const MAX_ENCODE_UNITS_PER_VALUE: usize = (isize::BITS as usize + 6) / 7;

    /// Maximum number of bytes consumed when decoding this type.
    pub const MAX_DECODE_UNITS_PER_VALUE: usize = (isize::BITS as usize + 6) / 7;

    /// Decodes a signed LEB128 `isize` starting at `input_index`.
    ///
    /// Returns the value and the non-zero number of consumed bytes, or the
    /// error for incomplete, malformed or (under a strict policy)
    /// non-canonical input. At least one byte must be readable at
    /// `input_index`.
    pub fn decode(input: &[u8], input_index: usize) -> (r: Result<(isize, usize), Leb128DecodeError>)
        requires
            input_index < input@.len(),
        ensures
            match r {
                Ok((value, consumed)) => sleb_decode(input@, input_index as int, (isize::BITS as nat), P::strict_flag())
                    == Ok::<(int, usize), Leb128DecodeErrorView>((value as int, consumed)),
                Err(e) => sleb_decode(input@, input_index as int, (isize::BITS as nat), P::strict_flag())
                    == Err::<(int, usize), Leb128DecodeErrorView>(e@),
            },
    {
        proof {
            lemma_pow2_facts();
            lemma_platform_widths();
        }
        match read_sleb::<P>(input, input_index, isize::BITS, Self::MAX_DECODE_UNITS_PER_VALUE) {
            Ok((value, consumed)) => Ok((value as isize, consumed)),
            Err(error) => Err(error),
        }
    }

    /// Encodes `value` as canonical signed LEB128 at `output_index` and
    /// returns the number of written bytes.
    ///
    /// The canonical width of `value` must be writable at `output_index`;
    /// reserving `MAX_ENCODE_UNITS_PER_VALUE` bytes always suffices.
    pub fn encode(value: isize, output: &mut [u8], output_index: usize) -> (written_len: usize)
        requires
            output_index + sleb_encoding(value as int).len() <= old(output)@.len(),
        ensures
            written_len == sleb_encoding(value as int).len(),
            written_len <= Self::MAX_ENCODE_UNITS_PER_VALUE,
            final(output)@ == written(old(output)@, output_index as int, sleb_encoding(value as int)),
    {
        proof {
            lemma_pow2_facts();
            lemma_platform_widths();
            lemma_sleb_encoding_within_units(value as int, (isize::BITS as nat));
        }
        write_sleb(output, output_index, value as i128)
    }

    /// Returns the canonical signed LEB128 byte width of `value`.
    pub fn encode_len(&self, value: &isize) -> (len: usize)
        ensures
            len == sleb_encoding(*value as int).len(),
            1 <= len <= Self::MAX_ENCODE_UNITS_PER_VALUE,
    {
        proof {
            lemma_pow2_facts();
            lemma_platform_widths();
            lemma_sleb_encoding_within_units(*value as int, (isize::BITS as nat));
            lemma_sleb_encoding_facts(*value as int);
        }
        sleb_encoded_len(*value as i128)
    }
}

} // verus!

use vstd::prelude::*;

use crate::leb128_decode_error::{Leb128DecodeErrorKind, Leb128DecodeErrorView};
use crate::leb128_spec::{
    decode_window, first_terminal, is_continuation, lemma_first_terminal_at, lemma_payload_value_take,
    lemma_first_terminal_facts, lemma_max_units, lemma_sleb_encoding_facts,
    lemma_sleb_encoding_unique, lemma_sleb_encoding_within_units, lemma_uleb_encoding_facts,
    lemma_uleb_encoding_unique, lemma_uleb_encoding_within_units, max_units, payload_value,
    redundant_sleb_terminal, redundant_uleb_terminal, signed_fits, signed_payload_value,
    sleb_decode, sleb_encoding, uleb_decode, uleb_encoding, unsigned_fits,
};
use crate::zig_zag_codec::{lemma_zigzag_bijection, unzigzag, zigzag, zigzag_decode};
use crate::leb128_spec::written;
use crate::binary_codec::{
    ne_bytes, ne_value, be_bytes, be_value, from_twos_complement, le_bytes, le_value, lemma_be_roundtrip,
    lemma_le_roundtrip, lemma_twos_complement, twos_complement,
};
use vstd::arithmetic::power2::pow2;
use crate::leb128_decode_policy::{Leb128DecodePolicy, NonStrict, Strict};

verus! {

/// The decode window holds the bytes of `input` from `index`, at most
/// `max_units(bits)` of them.
proof fn lemma_window(input: Seq<u8>, index: int, bits: nat)
    requires
        0 <= index < input.len(),
        bits >= 1,
    ensures
        decode_window(input, index, bits).len() <= max_units(bits),
        decode_window(input, index, bits).len() >= 1,
        decode_window(input, index, bits).len() == max_units(bits) || decode_window(
            input,
            index,
            bits,
        ).len() == input.len() - index,
        index + decode_window(input, index, bits).len() <= input.len(),
        forall|i: int|
            0 <= i < decode_window(input, index, bits).len() ==> #[trigger] decode_window(
                input,
                index,
                bits,
            )[i] == input[index + i],
{
    lemma_max_units(bits);
}

/// Decoding the canonical encoding of a value gives back the value and
/// consumes exactly the encoding, whatever bytes surround it, under either
/// policy.
pub proof fn law_uleb_roundtrip(prefix: Seq<u8>, v: nat, suffix: Seq<u8>, bits: nat, strict: bool)
    requires
        1 <= bits <= 128,
        unsigned_fits(v as int, bits),
    ensures
        uleb_decode(prefix + uleb_encoding(v) + suffix, prefix.len() as int, bits, strict) == Ok::<
            (int, usize),
            Leb128DecodeErrorView,
        >((v as int, uleb_encoding(v).len() as usize)),
{
    let e = uleb_encoding(v);
    let input = prefix + e + suffix;
    let index = prefix.len() as int;
    lemma_uleb_encoding_facts(v);
    lemma_uleb_encoding_within_units(v, bits);
    lemma_window(input, index, bits);
    let w = decode_window(input, index, bits);
    assert(w.len() >= e.len());
    assert forall|i: int| 0 <= i < e.len() implies #[trigger] w[i] == e[i] by {
        assert(input[index + i] == e[i]);
    }
    let k = e.len() - 1;
    assert forall|i: int| 0 <= i < k implies is_continuation(#[trigger] w[i]) by {
        assert(w[i] == e[i]);
    }
    assert(w[k] == e.last());
    lemma_first_terminal_at(w, k);
    assert(w.take(k + 1) =~= e);
}

/// Decoding the canonical signed encoding of a value gives back the value
/// and consumes exactly the encoding, under either policy.
pub proof fn law_sleb_roundtrip(prefix: Seq<u8>, v: int, suffix: Seq<u8>, bits: nat, strict: bool)
    requires
        1 <= bits <= 128,
        signed_fits(v, bits),
    ensures
        sleb_decode(prefix + sleb_encoding(v) + suffix, prefix.len() as int, bits, strict) == Ok::<
            (int, usize),
            Leb128DecodeErrorView,
        >((v, sleb_encoding(v).len() as usize)),
{
    let e = sleb_encoding(v);
    let input = prefix + e + suffix;
    let index = prefix.len() as int;
    lemma_sleb_encoding_facts(v);
    lemma_sleb_encoding_within_units(v, bits);
    lemma_window(input, index, bits);
    let w = decode_window(input, index, bits);
    assert(w.len() >= e.len());
    assert forall|i: int| 0 <= i < e.len() implies #[trigger] w[i] == e[i] by {
        assert(input[index + i] == e[i]);
    }
    let k = e.len() - 1;
    assert forall|i: int| 0 <= i < k implies is_continuation(#[trigger] w[i]) by {
        assert(w[i] == e[i]);
    }
    assert(w[k] == e.last());
    if k > 0 {
        assert(w[k - 1] == e[e.len() - 2]);
    }
    lemma_first_terminal_at(w, k);
    assert(w.take(k + 1) =~= e);
}

/// Decoding the ZigZag form of a value gives back the value and consumes
/// exactly the encoding, under either policy.
pub proof fn law_zigzag_roundtrip(prefix: Seq<u8>, v: int, suffix: Seq<u8>, bits: nat, strict: bool)
    requires
        1 <= bits <= 128,
        signed_fits(v, bits),
    ensures
        zigzag_decode(
            prefix + uleb_encoding(zigzag(v)) + suffix,
            prefix.len() as int,
            bits,
            strict,
        ) == Ok::<(int, usize), Leb128DecodeErrorView>(
            (v, uleb_encoding(zigzag(v)).len() as usize),
        ),
{
    lemma_zigzag_bijection(v, 0, bits);
    law_uleb_roundtrip(prefix, zigzag(v), suffix, bits, strict);
}

/// Under the [`Strict`] policy decoding succeeds exactly on the inputs whose
/// consumed bytes are the canonical encoding of the value that decoding
/// under [`NonStrict`] reads. Where [`NonStrict`] accepts a non-canonical
/// encoding, [`Strict`] rejects it with a non-canonical error over the same
/// consumed bytes; where both fail they fail alike, and never for
/// non-canonicality.
pub proof fn law_uleb_strict_matches_canonical(input: Seq<u8>, index: int, bits: nat)
    requires
        0 <= index < input.len(),
        input.len() <= usize::MAX,
        1 <= bits <= 128,
    ensures
        match (
            uleb_decode(input, index, bits, Strict::strict_flag()),
            uleb_decode(input, index, bits, NonStrict::strict_flag()),
        ) {
            (Ok((v, c)), non_strict) => non_strict == Ok::<(int, usize), Leb128DecodeErrorView>(
                (v, c),
            ) && input.subrange(index, index + c) == uleb_encoding(v as nat),
            (Err(e), Ok((v, c))) => e == Leb128DecodeErrorView::noncanonical(index as usize, c)
                && input.subrange(index, index + c) != uleb_encoding(v as nat),
            (Err(e), Err(f)) => e == f && e.kind != Leb128DecodeErrorKind::NonCanonical,
        },
{
    lemma_window(input, index, bits);
    let w = decode_window(input, index, bits);
    lemma_first_terminal_facts(w);
    let k = first_terminal(w) as int;
    if k < w.len() {
        let prefix = w.take(k + 1);
        assert(input.subrange(index, index + k + 1) =~= prefix);
        let v = payload_value(prefix);
        assert forall|i: int| 0 <= i < prefix.len() - 1 implies is_continuation(
            #[trigger] prefix[i],
        ) by {
            assert(prefix[i] == w[i]);
        }
        assert(prefix.last() == w[k]);
        lemma_uleb_encoding_facts(v);
        if k > 0 && redundant_uleb_terminal(w[k]) {
            if uleb_encoding(v) == prefix {
                assert(false);
            }
        } else {
            lemma_uleb_encoding_unique(prefix);
        }
    }
}

/// The signed counterpart of [`law_uleb_strict_matches_canonical`].
pub proof fn law_sleb_strict_matches_canonical(input: Seq<u8>, index: int, bits: nat)
    requires
        0 <= index < input.len(),
        input.len() <= usize::MAX,
        1 <= bits <= 128,
    ensures
        match (
            sleb_decode(input, index, bits, Strict::strict_flag()),
            sleb_decode(input, index, bits, NonStrict::strict_flag()),
        ) {
            (Ok((v, c)), non_strict) => non_strict == Ok::<(int, usize), Leb128DecodeErrorView>(
                (v, c),
            ) && input.subrange(index, index + c) == sleb_encoding(v),
            (Err(e), Ok((v, c))) => e == Leb128DecodeErrorView::noncanonical(index as usize, c)
                && input.subrange(index, index + c) != sleb_encoding(v),
            (Err(e), Err(f)) => e == f && e.kind != Leb128DecodeErrorKind::NonCanonical,
        },
{
    lemma_window(input, index, bits);
    let w = decode_window(input, index, bits);
    lemma_first_terminal_facts(w);
    let k = first_terminal(w) as int;
    if k < w.len() {
        let prefix = w.take(k + 1);
        assert(input.subrange(index, index + k + 1) =~= prefix);
        let v = signed_payload_value(prefix);
        assert forall|i: int| 0 <= i < prefix.len() - 1 implies is_continuation(
            #[trigger] prefix[i],
        ) by {
            assert(prefix[i] == w[i]);
        }
        assert(prefix.last() == w[k]);
        if k > 0 {
            assert(prefix[prefix.len() - 2] == w[k - 1]);
        }
        lemma_sleb_encoding_facts(v);
        if k > 0 && redundant_sleb_terminal(w[k - 1], w[k]) {
            if sleb_encoding(v) == prefix {
                assert(false);
            }
        } else {
            lemma_sleb_encoding_unique(prefix);
        }
    }
}

/// What every decode result satisfies: a value consumes between one and
/// `max_units(bits)` bytes, all continuation bytes but the last; an error
/// starts at `index` and is well formed; an incomplete error means every
/// byte to the end of the input continues, fewer than `max_units(bits)` of
/// them are visible and one more is required; an invalid error points at
/// the last consumed byte, and a non-canonical one arises only under the
/// strict policy and only at a terminal byte.
pub open spec fn decode_result_invariants(
    input: Seq<u8>,
    index: int,
    bits: nat,
    strict: bool,
    r: Result<(int, usize), Leb128DecodeErrorView>,
) -> bool {
    match r {
        Ok((_, c)) => {
            &&& 1 <= c <= max_units(bits)
            &&& index + c <= input.len()
            &&& !is_continuation(input[index + c - 1])
            &&& forall|i: int| index <= i < index + c - 1 ==> is_continuation(#[trigger] input[i])
        },
        Err(e) => {
            &&& e.wf()
            &&& e.start_index == index
            &&& if e.kind == Leb128DecodeErrorKind::Incomplete {
                &&& e.available->0 == input.len() - index
                &&& e.available->0 < max_units(bits)
                &&& e.required->0 == e.available->0 + 1
                &&& forall|i: int| index <= i < input.len() ==> is_continuation(#[trigger] input[i])
            } else {
                &&& e.consumed->0 <= max_units(bits)
                &&& index + e.consumed->0 <= input.len()
                &&& e.error_index == index + e.consumed->0 - 1
                &&& (e.kind == Leb128DecodeErrorKind::NonCanonical ==> strict && !is_continuation(
                    input[index + e.consumed->0 - 1],
                ))
            }
        },
    }
}

/// Unsigned decode results satisfy [`decode_result_invariants`], and a
/// decoded value fits the target width.
pub proof fn law_uleb_decode_result_invariants(input: Seq<u8>, index: int, bits: nat, strict: bool)
    requires
        0 <= index < input.len(),
        input.len() <= usize::MAX,
        1 <= bits <= 128,
    ensures
        decode_result_invariants(input, index, bits, strict, uleb_decode(input, index, bits, strict)),
        uleb_decode(input, index, bits, strict) is Ok ==> unsigned_fits(
            uleb_decode(input, index, bits, strict)->Ok_0.0,
            bits,
        ),
{
    lemma_window(input, index, bits);
    let w = decode_window(input, index, bits);
    lemma_first_terminal_facts(w);
    let k = first_terminal(w) as int;
    assert forall|i: int| index <= i < index + k implies is_continuation(#[trigger] input[i]) by {
        assert(w[i - index] == input[i]);
    }
    if k < w.len() {
        assert(w[k] == input[index + k]);
    }
}

/// Signed decode results satisfy [`decode_result_invariants`], and a
/// decoded value fits the target width.
pub proof fn law_sleb_decode_result_invariants(input: Seq<u8>, index: int, bits: nat, strict: bool)
    requires
        0 <= index < input.len(),
        input.len() <= usize::MAX,
        1 <= bits <= 128,
    ensures
        decode_result_invariants(input, index, bits, strict, sleb_decode(input, index, bits, strict)),
        sleb_decode(input, index, bits, strict) is Ok ==> signed_fits(
            sleb_decode(input, index, bits, strict)->Ok_0.0,
            bits,
        ),
{
    lemma_window(input, index, bits);
    let w = decode_window(input, index, bits);
    lemma_first_terminal_facts(w);
    let k = first_terminal(w) as int;
    assert forall|i: int| index <= i < index + k implies is_continuation(#[trigger] input[i]) by {
        assert(w[i - index] == input[i]);
    }
    if k < w.len() {
        assert(w[k] == input[index + k]);
    }
}

/// Windows of an input and of the same input with bytes appended agree
/// wherever the shorter one decides the outcome.
proof fn lemma_window_extension(input: Seq<u8>, extra: Seq<u8>, index: int, bits: nat)
    requires
        0 <= index < input.len(),
        1 <= bits <= 128,
        first_terminal(decode_window(input, index, bits)) < decode_window(input, index, bits).len()
            || decode_window(input, index, bits).len() == max_units(bits),
    ensures
        ({
            let w = decode_window(input, index, bits);
            let x = decode_window(input + extra, index, bits);
            let k = first_terminal(w) as int;
            &&& first_terminal(x) == first_terminal(w)
            &&& (k < w.len() ==> x.take(k + 1) == w.take(k + 1) && k < x.len() && x[k] == w[k] && (
            k > 0 ==> x[k - 1] == w[k - 1]))
            &&& (k == w.len() ==> x == w)
        }),
{
    let longer = input + extra;
    lemma_window(input, index, bits);
    lemma_window(longer, index, bits);
    let w = decode_window(input, index, bits);
    let x = decode_window(longer, index, bits);
    lemma_first_terminal_facts(w);
    let k = first_terminal(w) as int;
    assert(x.len() >= w.len());
    assert forall|i: int| 0 <= i < w.len() implies #[trigger] x[i] == w[i] by {
        assert(longer[index + i] == input[index + i]);
    }
    if k < w.len() {
        assert forall|i: int| 0 <= i < k implies is_continuation(#[trigger] x[i]) by {
            assert(x[i] == w[i]);
        }
        lemma_first_terminal_at(x, k);
        assert(x.take(k + 1) =~= w.take(k + 1));
    } else {
        assert(x =~= w);
    }
}

/// Appending bytes to an input does not change a decode result that is
/// not an incomplete error: the decoder never looks past the value.
pub proof fn law_uleb_no_lookahead(
    input: Seq<u8>,
    extra: Seq<u8>,
    index: int,
    bits: nat,
    strict: bool,
)
    requires
        0 <= index < input.len(),
        1 <= bits <= 128,
        !(uleb_decode(input, index, bits, strict) matches Err(e) && e.kind
            == Leb128DecodeErrorKind::Incomplete),
    ensures
        uleb_decode(input + extra, index, bits, strict) == uleb_decode(input, index, bits, strict),
{
    lemma_window(input, index, bits);
    lemma_window_extension(input, extra, index, bits);
}

/// Appending bytes to an input does not change a signed decode result that
/// is not an incomplete error.
pub proof fn law_sleb_no_lookahead(
    input: Seq<u8>,
    extra: Seq<u8>,
    index: int,
    bits: nat,
    strict: bool,
)
    requires
        0 <= index < input.len(),
        1 <= bits <= 128,
        !(sleb_decode(input, index, bits, strict) matches Err(e) && e.kind
            == Leb128DecodeErrorKind::Incomplete),
    ensures
        sleb_decode(input + extra, index, bits, strict) == sleb_decode(input, index, bits, strict),
{
    lemma_window(input, index, bits);
    lemma_window_extension(input, extra, index, bits);
}

/// Writing `bytes` at `index` leaves them readable there and every other
/// byte as it was.
pub proof fn law_written_reads_back(output: Seq<u8>, index: int, bytes: Seq<u8>)
    requires
        0 <= index,
        index + bytes.len() <= output.len(),
    ensures
        written(output, index, bytes).len() == output.len(),
        written(output, index, bytes).subrange(index, index + bytes.len()) == bytes,
        forall|i: int|
            0 <= i < output.len() && !(index <= i < index + bytes.len()) ==> #[trigger] written(
                output,
                index,
                bytes,
            )[i] == output[i],
{
    let out = written(output, index, bytes);
    assert(out.subrange(index, index + bytes.len()) =~= bytes);
}

/// Decoding at `index` what unsigned LEB128 encoding wrote there gives back
/// the value and the written length, under either policy.
pub proof fn law_uleb_encode_then_decode(output: Seq<u8>, index: int, v: nat, bits: nat, strict: bool)
    requires
        0 <= index,
        index + uleb_encoding(v).len() <= output.len(),
        1 <= bits <= 128,
        unsigned_fits(v as int, bits),
    ensures
        uleb_decode(written(output, index, uleb_encoding(v)), index, bits, strict) == Ok::<
            (int, usize),
            Leb128DecodeErrorView,
        >((v as int, uleb_encoding(v).len() as usize)),
{
    let e = uleb_encoding(v);
    let prefix = output.subrange(0, index);
    let suffix = output.subrange(index + e.len(), output.len() as int);
    law_uleb_roundtrip(prefix, v, suffix, bits, strict);
}

/// Decoding at `index` what signed LEB128 encoding wrote there gives back
/// the value and the written length, under either policy.
pub proof fn law_sleb_encode_then_decode(output: Seq<u8>, index: int, v: int, bits: nat, strict: bool)
    requires
        0 <= index,
        index + sleb_encoding(v).len() <= output.len(),
        1 <= bits <= 128,
        signed_fits(v, bits),
    ensures
        sleb_decode(written(output, index, sleb_encoding(v)), index, bits, strict) == Ok::<
            (int, usize),
            Leb128DecodeErrorView,
        >((v, sleb_encoding(v).len() as usize)),
{
    let e = sleb_encoding(v);
    let prefix = output.subrange(0, index);
    let suffix = output.subrange(index + e.len(), output.len() as int);
    law_sleb_roundtrip(prefix, v, suffix, bits, strict);
}

/// Decoding at `index` what ZigZag encoding wrote there gives back the
/// value and the written length, under either policy.
pub proof fn law_zigzag_encode_then_decode(
    output: Seq<u8>,
    index: int,
    v: int,
    bits: nat,
    strict: bool,
)
    requires
        0 <= index,
        index + uleb_encoding(zigzag(v)).len() <= output.len(),
        1 <= bits <= 128,
        signed_fits(v, bits),
    ensures
        zigzag_decode(written(output, index, uleb_encoding(zigzag(v))), index, bits, strict)
            == Ok::<(int, usize), Leb128DecodeErrorView>(
            (v, uleb_encoding(zigzag(v)).len() as usize),
        ),
{
    let e = uleb_encoding(zigzag(v));
    let prefix = output.subrange(0, index);
    let suffix = output.subrange(index + e.len(), output.len() as int);
    law_zigzag_roundtrip(prefix, v, suffix, bits, strict);
}

/// Reading `w` fixed-width bytes written at `index` gives back the value,
/// in either byte order, for unsigned values below `2^(8w)` and, through
/// two's complement, for signed values of `8w` bits.
///
/// This is the round trip of every multi-byte `BinaryCodec<T, BigEndian>` and
/// `BinaryCodec<T, LittleEndian>`: with `w` its `MAX_ENCODE_UNITS_PER_VALUE`,
/// `encode` writes `be_bytes` or `le_bytes` of the value (of its two's
/// complement for a signed `T`) at `index`, and `decode` reads back
/// `be_value` or `le_value` of the `w` bytes there, so decoding what was
/// encoded gives back the value, whatever the bytes around it.
pub proof fn law_fixed_width_encode_then_decode(output: Seq<u8>, index: int, u: nat, v: int, w: nat)
    requires
        0 <= index,
        index + w <= output.len(),
        w >= 1,
    ensures
        u < pow2(8 * w) ==> le_value(written(output, index, le_bytes(u, w)).subrange(index, index + w))
            == u,
        u < pow2(8 * w) ==> be_value(written(output, index, be_bytes(u, w)).subrange(index, index + w))
            == u,
        -pow2((8 * w - 1) as nat) <= v < pow2((8 * w - 1) as nat) ==> from_twos_complement(
            le_value(
                written(output, index, le_bytes(twos_complement(v, w), w)).subrange(index, index + w),
            ),
            w,
        ) == v,
        -pow2((8 * w - 1) as nat) <= v < pow2((8 * w - 1) as nat) ==> from_twos_complement(
            be_value(
                written(output, index, be_bytes(twos_complement(v, w), w)).subrange(index, index + w),
            ),
            w,
        ) == v,
{
    lemma_twos_complement(v, 0, w);
    if u < pow2(8 * w) {
        lemma_le_roundtrip(u, w);
        lemma_be_roundtrip(u, w);
        law_written_reads_back(output, index, le_bytes(u, w));
        law_written_reads_back(output, index, be_bytes(u, w));
    }
    if -pow2((8 * w - 1) as nat) <= v < pow2((8 * w - 1) as nat) {
        let t = twos_complement(v, w);
        lemma_le_roundtrip(t, w);
        lemma_be_roundtrip(t, w);
        law_written_reads_back(output, index, le_bytes(t, w));
        law_written_reads_back(output, index, be_bytes(t, w));
    }
}


/// Whether `bytes` is one terminated LEB128 group: every byte but the last
/// carries the continuation flag and the last does not.
pub open spec fn terminated_group(bytes: Seq<u8>) -> bool {
    &&& bytes.len() >= 1
    &&& forall|i: int| 0 <= i < bytes.len() - 1 ==> #[trigger] bytes[i] >= 128
    &&& bytes.last() < 128
}

/// The decode window of `prefix + bytes + suffix` at the start of `bytes`
/// begins with `bytes`, and the group ends at its last byte.
proof fn lemma_group_window(prefix: Seq<u8>, bytes: Seq<u8>, suffix: Seq<u8>, bits: nat)
    requires
        1 <= bits <= 128,
        terminated_group(bytes),
        bytes.len() <= max_units(bits),
    ensures
        ({
            let w = decode_window(prefix + bytes + suffix, prefix.len() as int, bits);
            &&& first_terminal(w) == bytes.len() - 1
            &&& w.take(bytes.len() as int) == bytes
            &&& bytes.len() < w.len() + 1
            &&& (bytes.len() >= 2 ==> w[bytes.len() - 2] == bytes[bytes.len() - 2])
            &&& w[bytes.len() - 1] == bytes.last()
        }),
{
    let input = prefix + bytes + suffix;
    let index = prefix.len() as int;
    lemma_window(input, index, bits);
    let w = decode_window(input, index, bits);
    assert(w.len() >= bytes.len());
    assert forall|i: int| 0 <= i < bytes.len() implies #[trigger] w[i] == bytes[i] by {
        assert(input[index + i] == bytes[i]);
    }
    let k = bytes.len() - 1;
    assert forall|i: int| 0 <= i < k implies is_continuation(#[trigger] w[i]) by {
        assert(w[i] == bytes[i]);
    }
    assert(w[k] == bytes.last());
    lemma_first_terminal_at(w, k);
    assert(w.take(bytes.len() as int) =~= bytes);
}

/// Every terminated unsigned LEB128 group of at most `max_units(bits)`
/// bytes decodes to its base-128 payload value when that value fits the
/// width: [`NonStrict`] returns it with the group's length, whatever bytes
/// surround it, and [`Strict`] returns the same unless the group ends in a
/// redundant zero byte after a first byte, which it rejects as
/// non-canonical. A value that does not fit is malformed under both
/// policies, detected at the group's last byte.
pub proof fn law_uleb_decodes_terminated_group(
    prefix: Seq<u8>,
    bytes: Seq<u8>,
    suffix: Seq<u8>,
    bits: nat,
)
    requires
        1 <= bits <= 128,
        terminated_group(bytes),
        bytes.len() <= max_units(bits),
    ensures
        ({
            let input = prefix + bytes + suffix;
            let index = prefix.len() as int;
            let n = bytes.len();
            let v = payload_value(bytes);
            &&& v < pow2(bits) ==> uleb_decode(input, index, bits, NonStrict::strict_flag()) == Ok::<
                (int, usize),
                Leb128DecodeErrorView,
            >((v as int, n as usize))
            &&& v < pow2(bits) ==> uleb_decode(input, index, bits, Strict::strict_flag()) == (if n
                >= 2 && bytes.last() % 128 == 0 {
                Err::<(int, usize), Leb128DecodeErrorView>(
                    Leb128DecodeErrorView::noncanonical(index as usize, n as usize),
                )
            } else {
                Ok::<(int, usize), Leb128DecodeErrorView>((v as int, n as usize))
            })
            &&& v >= pow2(bits) ==> uleb_decode(input, index, bits, NonStrict::strict_flag())
                == Err::<(int, usize), Leb128DecodeErrorView>(
                Leb128DecodeErrorView::malformed(index as usize, (index + n - 1) as usize, n as usize),
            )
            &&& v >= pow2(bits) ==> uleb_decode(input, index, bits, Strict::strict_flag())
                == Err::<(int, usize), Leb128DecodeErrorView>(
                Leb128DecodeErrorView::malformed(index as usize, (index + n - 1) as usize, n as usize),
            )
        }),
{
    lemma_group_window(prefix, bytes, suffix, bits);
}

/// Every terminated signed LEB128 group of at most `max_units(bits)` bytes
/// decodes to its two's complement payload value when that value fits the
/// width: [`NonStrict`] returns it with the group's length, whatever bytes
/// surround it, and [`Strict`] returns the same unless the last byte only
/// repeats the sign of the byte before it, which it rejects as
/// non-canonical. A value that does not fit is malformed under both
/// policies, detected at the group's last byte.
pub proof fn law_sleb_decodes_terminated_group(
    prefix: Seq<u8>,
    bytes: Seq<u8>,
    suffix: Seq<u8>,
    bits: nat,
)
    requires
        1 <= bits <= 128,
        terminated_group(bytes),
        bytes.len() <= max_units(bits),
    ensures
        ({
            let input = prefix + bytes + suffix;
            let index = prefix.len() as int;
            let n = bytes.len();
            let v = signed_payload_value(bytes);
            let fits = -pow2((bits - 1) as nat) <= v < pow2((bits - 1) as nat);
            let sign_repeat = n >= 2 && ((bytes.last() % 128 == 0 && bytes[n - 2] % 128 < 64) || (
            bytes.last() % 128 == 127 && bytes[n - 2] % 128 >= 64));
            &&& fits ==> sleb_decode(input, index, bits, NonStrict::strict_flag()) == Ok::<
                (int, usize),
                Leb128DecodeErrorView,
            >((v, n as usize))
            &&& fits ==> sleb_decode(input, index, bits, Strict::strict_flag()) == (if sign_repeat {
                Err::<(int, usize), Leb128DecodeErrorView>(
                    Leb128DecodeErrorView::noncanonical(index as usize, n as usize),
                )
            } else {
                Ok::<(int, usize), Leb128DecodeErrorView>((v, n as usize))
            })
            &&& !fits ==> sleb_decode(input, index, bits, NonStrict::strict_flag()) == Err::<
                (int, usize),
                Leb128DecodeErrorView,
            >(Leb128DecodeErrorView::malformed(index as usize, (index + n - 1) as usize, n as usize))
            &&& !fits ==> sleb_decode(input, index, bits, Strict::strict_flag()) == Err::<
                (int, usize),
                Leb128DecodeErrorView,
            >(Leb128DecodeErrorView::malformed(index as usize, (index + n - 1) as usize, n as usize))
        }),
{
    lemma_group_window(prefix, bytes, suffix, bits);
}

/// ZigZag doubles a non-negative value and maps a negative value `v` to
/// `-2v - 1`, so the low bit of the result is the sign; the decoding map
/// undoes it, and every unsigned value is the ZigZag form of the value it
/// decodes to.
pub proof fn law_zigzag_arithmetic(v: int, u: nat)
    ensures
        v >= 0 ==> zigzag(v) == 2 * v,
        v < 0 ==> zigzag(v) == -2 * v - 1,
        (zigzag(v) % 2 == 1) == (v < 0),
        unzigzag(zigzag(v)) == v,
        zigzag(unzigzag(u)) == u,
{
    lemma_zigzag_bijection(v, u, 1);
}

/// Native-endian encoding and decoding agree on one byte order, the
/// machine's, for every index: reading `w` bytes written at `index` gives
/// back the value, for unsigned values below `2^(8w)` and, through two's
/// complement, for signed values of `8w` bits. The native byte order is
/// little-endian or big-endian.
pub proof fn law_native_encode_then_decode(output: Seq<u8>, index: int, u: nat, v: int, w: nat)
    requires
        0 <= index,
        index + w <= output.len(),
        w >= 1,
    ensures
        u < pow2(8 * w) ==> ne_value(written(output, index, ne_bytes(u, w)).subrange(index, index + w))
            == u,
        -pow2((8 * w - 1) as nat) <= v < pow2((8 * w - 1) as nat) ==> from_twos_complement(
            ne_value(
                written(output, index, ne_bytes(twos_complement(v, w), w)).subrange(index, index + w),
            ),
            w,
        ) == v,
        ({
            &&& forall|s: Seq<u8>| #[trigger] ne_value(s) == le_value(s)
            &&& forall|x: nat, k: nat| #[trigger] ne_bytes(x, k) == le_bytes(x, k)
        }) || ({
            &&& forall|s: Seq<u8>| #[trigger] ne_value(s) == be_value(s)
            &&& forall|x: nat, k: nat| #[trigger] ne_bytes(x, k) == be_bytes(x, k)
        }),
{
    law_fixed_width_encode_then_decode(output, index, u, v, w);
}

/// The payload value of a group is little-endian base 128: no bytes are
/// worth 0, and a byte appended to `s` adds its low seven bits times
/// `2^(7 * s.len())`. The signed reading subtracts `2^(7 * s.len())` when
/// the last byte's payload has its sign bit (64) set.
pub proof fn law_payload_value_base128(s: Seq<u8>, b: u8)
    ensures
        payload_value(Seq::<u8>::empty()) == 0,
        payload_value(s.push(b)) == payload_value(s) + (b % 128) * pow2(7 * s.len()),
        signed_payload_value(s.push(b)) == payload_value(s.push(b)) - (if b % 128 >= 64 {
            pow2(7 * (s.len() + 1))
        } else {
            0
        }),
{
    let t = s.push(b);
    lemma_payload_value_take(t, s.len() as int);
    assert(t.take(s.len() as int) =~= s);
    assert(t.take(s.len() as int + 1) =~= t);
    assert(t[s.len() as int] == b);
}

/// Where every byte the decoder may look at carries the continuation flag,
/// decoding fails under either policy: as incomplete, asking for one byte
/// more than is visible, while fewer than `max_units(bits)` bytes are
/// visible; as malformed at the last byte of the maximum width once that
/// many are. This holds for unsigned and signed LEB128 alike.
pub proof fn law_decodes_unterminated(input: Seq<u8>, index: int, bits: nat, strict: bool)
    requires
        1 <= bits <= 128,
        0 <= index < input.len(),
        forall|i: int|
            index <= i < input.len() && i < index + max_units(bits) ==> #[trigger] input[i] >= 128,
    ensures
        ({
            let avail = input.len() - index;
            let max = max_units(bits);
            let expected = if avail < max {
                Err::<(int, usize), Leb128DecodeErrorView>(
                    Leb128DecodeErrorView::incomplete(
                        index as usize,
                        (avail + 1) as usize,
                        avail as usize,
                    ),
                )
            } else {
                Err::<(int, usize), Leb128DecodeErrorView>(
                    Leb128DecodeErrorView::malformed(
                        index as usize,
                        (index + max - 1) as usize,
                        max as usize,
                    ),
                )
            };
            &&& uleb_decode(input, index, bits, strict) == expected
            &&& sleb_decode(input, index, bits, strict) == expected
        }),
{
    lemma_window(input, index, bits);
    let w = decode_window(input, index, bits);
    assert forall|i: int| 0 <= i < w.len() implies is_continuation(#[trigger] w[i]) by {
        assert(w[i] == input[index + i]);
    }
    lemma_first_terminal_at(w, w.len() as int);
}

} // verus!

use vstd::prelude::*;
use vstd::arithmetic::power2::*;
use vstd::arithmetic::mul::*;
use vstd::arithmetic::div_mod::*;

use crate::leb128_decode_error::Leb128DecodeErrorView;

verus! {

// ---------------------------------------------------------------------------
// The wire format
// ---------------------------------------------------------------------------

/// Largest number of LEB128 bytes for an integer of `bits` bits: one byte per
/// seven bits, rounded up.
pub open spec fn max_units(bits: nat) -> nat {
    ((bits + 6) / 7) as nat
}

/// Whether a byte carries the continuation flag (its high bit).
pub open spec fn is_continuation(b: u8) -> bool {
    b >= 128
}

/// The seven payload bits of a byte.
pub open spec fn payload(b: u8) -> nat {
    (b % 128) as nat
}

/// The weight of the `k`-th seven-bit group, `2^(7k)`.
pub open spec fn group_weight(k: nat) -> nat {
    pow2(7 * k)
}

/// Little-endian base-128 value of the payloads of `s`.
pub open spec fn payload_value(s: Seq<u8>) -> nat
    decreases s.len(),
{
    if s.len() == 0 {
        0
    } else {
        payload(s[0]) + 128 * payload_value(s.drop_first())
    }
}

/// Two's complement reading of the payloads of `s`: the payload bit just
/// below the continuation flag of the last byte is the sign.
pub open spec fn signed_payload_value(s: Seq<u8>) -> int {
    if s.len() > 0 && payload(s.last()) >= 64 {
        payload_value(s) - group_weight(s.len())
    } else {
        payload_value(s) as int
    }
}

/// Index of the first byte of `s` without a continuation flag, or `s.len()`
/// when every byte continues.
pub open spec fn first_terminal(s: Seq<u8>) -> nat
    decreases s.len(),
{
    if s.len() == 0 {
        0
    } else if !is_continuation(s[0]) {
        0
    } else {
        1 + first_terminal(s.drop_first())
    }
}

/// Whether `v` is a value of the unsigned integer type of `bits` bits.
pub open spec fn unsigned_fits(v: int, bits: nat) -> bool {
    0 <= v < pow2(bits)
}

/// Whether `v` is a value of the signed integer type of `bits` bits.
pub open spec fn signed_fits(v: int, bits: nat) -> bool {
    -pow2((bits - 1) as nat) <= v < pow2((bits - 1) as nat)
}

/// Canonical unsigned LEB128 encoding of `v`.
pub open spec fn uleb_encoding(v: nat) -> Seq<u8>
    decreases v,
{
    if v < 128 {
        seq![v as u8]
    } else {
        seq![(v % 128 + 128) as u8] + uleb_encoding(v / 128)
    }
}

/// Whether a signed LEB128 encoding of `v` ends with its next group: the
/// remaining value is the sign extension of the group's sign bit.
pub open spec fn sleb_group_is_last(v: int) -> bool {
    (v / 128 == 0 && v % 128 < 64) || (v / 128 == -1 && v % 128 >= 64)
}

/// Canonical signed LEB128 encoding of `v`.
pub open spec fn sleb_encoding(v: int) -> Seq<u8>
    decreases (if v >= 0 { v } else { -v }),
{
    if sleb_group_is_last(v) {
        seq![(v % 128) as u8]
    } else {
        proof {
            lemma_sleb_rest_shrinks(v);
        }
        seq![(v % 128 + 128) as u8] + sleb_encoding(v / 128)
    }
}

/// A terminal byte after at least one continuation byte is redundant in
/// unsigned LEB128 when its payload is zero.
pub open spec fn redundant_uleb_terminal(b: u8) -> bool {
    payload(b) == 0
}

/// A terminal byte after the continuation byte `prev` is redundant in signed
/// LEB128 when it only repeats the sign bit of `prev`.
pub open spec fn redundant_sleb_terminal(prev: u8, b: u8) -> bool {
    (payload(b) == 0 && payload(prev) < 64) || (payload(b) == 127 && payload(prev) >= 64)
}

/// The bytes a decoder looks at: at most `max_units(bits)` bytes from
/// `index`.
pub open spec fn decode_window(input: Seq<u8>, index: int, bits: nat) -> Seq<u8> {
    let available = if input.len() - index < max_units(bits) {
        input.len() - index
    } else {
        max_units(bits) as int
    };
    input.subrange(index, index + available)
}

/// Outcome of scanning the visible bytes `window` of an unsigned LEB128
/// value that starts at `index`: `Ok(Some((value, consumed)))` for a
/// complete value, `Ok(None)` when more bytes are needed, or the error.
pub open spec fn uleb_scan(window: Seq<u8>, index: int, bits: nat, strict: bool) -> Result<
    Option<(int, usize)>,
    Leb128DecodeErrorView,
> {
    let k = first_terminal(window) as int;
    let max = max_units(bits);
    if k < window.len() {
        let value = payload_value(window.take(k + 1));
        if !unsigned_fits(value as int, bits) {
            Err(
                Leb128DecodeErrorView::malformed(
                    index as usize,
                    (index + k) as usize,
                    (k + 1) as usize,
                ),
            )
        } else if strict && k > 0 && redundant_uleb_terminal(window[k as int]) {
            Err(Leb128DecodeErrorView::noncanonical(index as usize, (k + 1) as usize))
        } else {
            Ok(Some((value as int, (k + 1) as usize)))
        }
    } else if window.len() < max {
        Ok(None)
    } else {
        Err(
            Leb128DecodeErrorView::malformed(
                index as usize,
                (index + max - 1) as usize,
                max as usize,
            ),
        )
    }
}

/// Outcome of scanning the visible bytes `window` of a signed LEB128 value
/// that starts at `index`.
pub open spec fn sleb_scan(window: Seq<u8>, index: int, bits: nat, strict: bool) -> Result<
    Option<(int, usize)>,
    Leb128DecodeErrorView,
> {
    let k = first_terminal(window) as int;
    let max = max_units(bits);
    if k < window.len() {
        let value = signed_payload_value(window.take(k + 1));
        if !signed_fits(value, bits) {
            Err(
                Leb128DecodeErrorView::malformed(
                    index as usize,
                    (index + k) as usize,
                    (k + 1) as usize,
                ),
            )
        } else if strict && k > 0 && redundant_sleb_terminal(
            window[k - 1],
            window[k as int],
        ) {
            Err(Leb128DecodeErrorView::noncanonical(index as usize, (k + 1) as usize))
        } else {
            Ok(Some((value, (k + 1) as usize)))
        }
    } else if window.len() < max {
        Ok(None)
    } else {
        Err(
            Leb128DecodeErrorView::malformed(
                index as usize,
                (index + max - 1) as usize,
                max as usize,
            ),
        )
    }
}

/// Turns a scan outcome into a decode outcome: a value that needs more
/// bytes is an incomplete error asking for one byte more than is visible.
pub open spec fn finish_scan(
    scan: Result<Option<(int, usize)>, Leb128DecodeErrorView>,
    index: int,
    available: nat,
) -> Result<(int, usize), Leb128DecodeErrorView> {
    match scan {
        Ok(Some(decoded)) => Ok(decoded),
        Ok(None) => Err(
            Leb128DecodeErrorView::incomplete(
                index as usize,
                (available + 1) as usize,
                available as usize,
            ),
        ),
        Err(e) => Err(e),
    }
}

/// Result of decoding an unsigned LEB128 integer of `bits` bits from
/// `input` at `index`: the value and the consumed byte count, or the error.
pub open spec fn uleb_decode(input: Seq<u8>, index: int, bits: nat, strict: bool) -> Result<
    (int, usize),
    Leb128DecodeErrorView,
> {
    let window = decode_window(input, index, bits);
    finish_scan(uleb_scan(window, index, bits, strict), index, window.len())
}

/// Result of decoding a signed LEB128 integer of `bits` bits from `input`
/// at `index`.
pub open spec fn sleb_decode(input: Seq<u8>, index: int, bits: nat, strict: bool) -> Result<
    (int, usize),
    Leb128DecodeErrorView,
> {
    let window = decode_window(input, index, bits);
    finish_scan(sleb_scan(window, index, bits, strict), index, window.len())
}

/// `output` after writing `bytes` at `index`.
pub open spec fn written(output: Seq<u8>, index: int, bytes: Seq<u8>) -> Seq<u8> {
    output.subrange(0, index) + bytes + output.subrange(index + bytes.len(), output.len() as int)
}

// ---------------------------------------------------------------------------
// Arithmetic facts
// ---------------------------------------------------------------------------

/// The signed remainder shrinks towards zero when a group is not last.
pub proof fn lemma_sleb_rest_shrinks(v: int)
    requires
        !sleb_group_is_last(v),
    ensures
        (if v / 128 >= 0 { v / 128 } else { -(v / 128) }) < (if v >= 0 { v } else { -v }),
{
    lemma_fundamental_div_mod(v, 128);
}

/// Group weights grow by a factor of 128 and are positive.
pub proof fn lemma_group_weight_step(k: nat)
    ensures
        group_weight(k + 1) == 128 * group_weight(k),
        group_weight(k) > 0,
        group_weight(0) == 1,
{
    lemma_pow2_adds(7 * k, 7);
    assert(7 * (k + 1) == 7 * k + 7) by (nonlinear_arith);
    lemma2_to64();
    lemma_pow2_pos(7 * k);
}

/// Group weights increase with the group index.
pub proof fn lemma_group_weight_monotone(a: nat, b: nat)
    requires
        a <= b,
    ensures
        group_weight(a) <= group_weight(b),
    decreases b - a,
{
    if a < b {
        lemma_group_weight_monotone(a, (b - 1) as nat);
        lemma_group_weight_step((b - 1) as nat);
    }
}

/// The payload value of `s` is below the weight of the group after it.
pub proof fn lemma_payload_value_bound(s: Seq<u8>)
    ensures
        payload_value(s) < group_weight(s.len()),
    decreases s.len(),
{
    lemma_group_weight_step(s.len());
    if s.len() > 0 {
        lemma_payload_value_bound(s.drop_first());
        lemma_group_weight_step((s.len() - 1) as nat);
    }
}

/// Payload value of a concatenation.
pub proof fn lemma_payload_value_concat(a: Seq<u8>, b: Seq<u8>)
    ensures
        payload_value(a + b) == payload_value(a) + group_weight(a.len()) * payload_value(b),
    decreases a.len(),
{
    lemma_group_weight_step(0);
    if a.len() == 0 {
        assert(a + b =~= b);
    } else {
        let rest = a.drop_first();
        assert((a + b).drop_first() =~= rest + b);
        lemma_payload_value_concat(rest, b);
        lemma_group_weight_step(rest.len());
        let w = group_weight(rest.len());
        let pb = payload_value(b);
        assert(128 * (w * pb) == (128 * w) * pb) by (nonlinear_arith);
    }
}

/// The payload value of the first `k + 1` bytes adds the `k`-th payload.
pub proof fn lemma_payload_value_take(s: Seq<u8>, k: int)
    requires
        0 <= k < s.len(),
    ensures
        payload_value(s.take(k + 1)) == payload_value(s.take(k)) + payload(s[k]) * group_weight(
            k as nat,
        ),
{
    assert(s.take(k + 1) =~= s.take(k) + seq![s[k]]);
    lemma_payload_value_concat(s.take(k), seq![s[k]]);
    assert(seq![s[k]].drop_first() =~= Seq::<u8>::empty());
    assert(payload_value(Seq::<u8>::empty()) == 0);
    assert(payload_value(seq![s[k]]) == payload(s[k]));
    lemma_mul_is_commutative(payload(s[k]) as int, group_weight(k as nat) as int);
}

/// `first_terminal` is the index of the first byte without continuation.
pub proof fn lemma_first_terminal_at(s: Seq<u8>, k: int)
    requires
        0 <= k <= s.len(),
        forall|i: int| 0 <= i < k ==> is_continuation(#[trigger] s[i]),
        k < s.len() ==> !is_continuation(s[k]),
    ensures
        first_terminal(s) == k,
    decreases k,
{
    if k > 0 {
        let t = s.drop_first();
        assert forall|i: int| 0 <= i < k - 1 implies is_continuation(#[trigger] t[i]) by {
            assert(t[i] == s[i + 1]);
        }
        lemma_first_terminal_at(t, k - 1);
    }
}

/// Basic facts about `first_terminal`.
pub proof fn lemma_first_terminal_facts(s: Seq<u8>)
    ensures
        first_terminal(s) <= s.len(),
        forall|i: int| 0 <= i < first_terminal(s) ==> is_continuation(#[trigger] s[i]),
        first_terminal(s) < s.len() ==> !is_continuation(s[first_terminal(s) as int]),
    decreases s.len(),
{
    if s.len() > 0 && is_continuation(s[0]) {
        let t = s.drop_first();
        lemma_first_terminal_facts(t);
        assert forall|i: int| 0 <= i < first_terminal(s) implies is_continuation(
            #[trigger] s[i],
        ) by {
            if i > 0 {
                assert(s[i] == t[i - 1]);
            }
        }
    }
}

/// `7 * (max_units(bits) - 1) < bits <= 7 * max_units(bits)`.
pub proof fn lemma_max_units(bits: nat)
    requires
        bits >= 1,
    ensures
        max_units(bits) >= 1,
        7 * (max_units(bits) - 1) < bits,
        bits <= 7 * max_units(bits),
{
}

/// Shape of the canonical unsigned encoding: every byte but the last
/// continues, the last is terminal and, unless it is the only byte, has a
/// non-zero payload; the payloads add up to `v`.
pub proof fn lemma_uleb_encoding_facts(v: nat)
    ensures
        uleb_encoding(v).len() >= 1,
        forall|i: int|
            0 <= i < uleb_encoding(v).len() - 1 ==> is_continuation(#[trigger] uleb_encoding(v)[i]),
        !is_continuation(uleb_encoding(v).last()),
        uleb_encoding(v).len() == 1 || !redundant_uleb_terminal(uleb_encoding(v).last()),
        payload_value(uleb_encoding(v)) == v,
    decreases v,
{
    let e = uleb_encoding(v);
    if v < 128 {
        assert(e.drop_first() =~= Seq::<u8>::empty());
        assert(payload_value(Seq::<u8>::empty()) == 0);
    } else {
        let rest = uleb_encoding(v / 128);
        lemma_uleb_encoding_facts(v / 128);
        assert(e.drop_first() =~= rest);
        assert forall|i: int| 0 <= i < e.len() - 1 implies is_continuation(#[trigger] e[i]) by {
            if i > 0 {
                assert(e[i] == rest[i - 1]);
            }
        }
        assert(e.last() == rest.last());
        if rest.len() == 1 {
            assert(v / 128 >= 1);
            assert(rest[0] == (v / 128) as u8);
        }
    }
}

/// The canonical unsigned encoding of a value below `2^(7n)` has at most
/// `n` bytes.
pub proof fn lemma_uleb_encoding_len(v: nat, n: nat)
    requires
        n >= 1,
        v < group_weight(n),
    ensures
        uleb_encoding(v).len() <= n,
    decreases v,
{
    if v >= 128 {
        lemma_group_weight_step((n - 1) as nat);
        lemma_group_weight_step(0);
        if n == 1 {
            assert(group_weight(1) == 128);
        }
        assert(v / 128 < group_weight((n - 1) as nat));
        lemma_uleb_encoding_len(v / 128, (n - 1) as nat);
    }
}

/// A terminated, non-redundant byte sequence is the canonical unsigned
/// encoding of its payload value.
pub proof fn lemma_uleb_encoding_unique(s: Seq<u8>)
    requires
        s.len() >= 1,
        forall|i: int| 0 <= i < s.len() - 1 ==> is_continuation(#[trigger] s[i]),
        !is_continuation(s.last()),
        s.len() == 1 || !redundant_uleb_terminal(s.last()),
    ensures
        uleb_encoding(payload_value(s)) == s,
    decreases s.len(),
{
    let v = payload_value(s);
    let t = s.drop_first();
    if s.len() == 1 {
        assert(t =~= Seq::<u8>::empty());
        assert(payload_value(t) == 0);
        assert(uleb_encoding(v) =~= s);
    } else {
        assert forall|i: int| 0 <= i < t.len() - 1 implies is_continuation(#[trigger] t[i]) by {
            assert(t[i] == s[i + 1]);
        }
        assert(t.last() == s.last());
        lemma_uleb_encoding_unique(t);
        let w = payload_value(t);
        assert(w >= 1) by {
            if t.len() == 1 {
                assert(t.drop_first() =~= Seq::<u8>::empty());
                assert(payload_value(t.drop_first()) == 0);
            } else {
                lemma_uleb_encoding_facts(w);
                if w == 0 {
                    assert(uleb_encoding(w).len() == 1);
                }
            }
        }
        assert(v == payload(s[0]) + 128 * w);
        assert(v >= 128);
        assert(v % 128 == payload(s[0]) && v / 128 == w) by {
            lemma_fundamental_div_mod_converse(v as int, 128, w as int, payload(s[0]) as int);
        }
        assert(uleb_encoding(v) =~= s);
    }
}

/// Signed payload value of a byte followed by a non-empty sequence.
pub proof fn lemma_signed_payload_value_cons(b: u8, t: Seq<u8>)
    requires
        t.len() >= 1,
    ensures
        signed_payload_value(seq![b] + t) == payload(b) + 128 * signed_payload_value(t),
{
    let s = seq![b] + t;
    assert(s.drop_first() =~= t);
    assert(s.last() == t.last());
    lemma_group_weight_step(t.len());
}

/// Signed payload value of a single byte.
pub proof fn lemma_signed_payload_value_single(b: u8)
    ensures
        signed_payload_value(seq![b]) == payload(b) - (if payload(b) >= 64 {
            128int
        } else {
            0
        }),
{
    assert(seq![b].drop_first() =~= Seq::<u8>::empty());
    assert(payload_value(Seq::<u8>::empty()) == 0);
    lemma_group_weight_step(0);
}

/// Shape of the canonical signed encoding: every byte but the last
/// continues, the last is terminal and, unless it is the only byte, does
/// more than repeat the sign of the byte before it; the signed payload
/// value is `v`.
pub proof fn lemma_sleb_encoding_facts(v: int)
    ensures
        sleb_encoding(v).len() >= 1,
        forall|i: int|
            0 <= i < sleb_encoding(v).len() - 1 ==> is_continuation(#[trigger] sleb_encoding(v)[i]),
        !is_continuation(sleb_encoding(v).last()),
        sleb_encoding(v).len() == 1 || !redundant_sleb_terminal(
            sleb_encoding(v)[sleb_encoding(v).len() - 2],
            sleb_encoding(v).last(),
        ),
        signed_payload_value(sleb_encoding(v)) == v,
    decreases (if v >= 0 {
        v
    } else {
        -v
    }),
{
    let e = sleb_encoding(v);
    lemma_fundamental_div_mod(v, 128);
    if sleb_group_is_last(v) {
        lemma_signed_payload_value_single((v % 128) as u8);
    } else {
        lemma_sleb_rest_shrinks(v);
        let r = v / 128;
        let rest = sleb_encoding(r);
        lemma_sleb_encoding_facts(r);
        let b = (v % 128 + 128) as u8;
        assert(e =~= seq![b] + rest);
        assert forall|i: int| 0 <= i < e.len() - 1 implies is_continuation(#[trigger] e[i]) by {
            if i > 0 {
                assert(e[i] == rest[i - 1]);
            }
        }
        assert(e.last() == rest.last());
        lemma_signed_payload_value_cons(b, rest);
        if rest.len() == 1 {
            lemma_fundamental_div_mod(r, 128);
            assert(e[e.len() - 2] == b);
            assert(rest[0] == (r % 128) as u8);
        } else {
            assert(e[e.len() - 2] == rest[rest.len() - 2]);
        }
    }
}

/// The canonical signed encoding of a value in `[-2^(7n-1), 2^(7n-1))` has
/// at most `n` bytes.
pub proof fn lemma_sleb_encoding_len(v: int, n: nat)
    requires
        n >= 1,
        -64 * group_weight((n - 1) as nat) <= v < 64 * group_weight((n - 1) as nat),
    ensures
        sleb_encoding(v).len() <= n,
    decreases n,
{
    lemma_fundamental_div_mod(v, 128);
    lemma_group_weight_step(0);
    if !sleb_group_is_last(v) {
        lemma_sleb_rest_shrinks(v);
        assert(n >= 2);
        lemma_group_weight_step((n - 2) as nat);
        lemma_sleb_encoding_len(v / 128, (n - 1) as nat);
    }
}

/// A terminated, non-redundant byte sequence is the canonical signed
/// encoding of its signed payload value.
pub proof fn lemma_sleb_encoding_unique(s: Seq<u8>)
    requires
        s.len() >= 1,
        forall|i: int| 0 <= i < s.len() - 1 ==> is_continuation(#[trigger] s[i]),
        !is_continuation(s.last()),
        s.len() == 1 || !redundant_sleb_terminal(s[s.len() - 2], s.last()),
    ensures
        sleb_encoding(signed_payload_value(s)) == s,
    decreases s.len(),
{
    let v = signed_payload_value(s);
    if s.len() == 1 {
        assert(s =~= seq![s[0]]);
        lemma_signed_payload_value_single(s[0]);
        let p = payload(s[0]);
        let q: int = if p >= 64 {
            -1
        } else {
            0
        };
        assert(v == q * 128 + p);
        lemma_fundamental_div_mod_converse(v, 128, q, p as int);
        assert(sleb_group_is_last(v));
        assert((v % 128) as u8 == s[0]);
        assert(sleb_encoding(v) =~= s);
    } else {
        let t = s.drop_first();
        assert(s =~= seq![s[0]] + t);
        assert forall|i: int| 0 <= i < t.len() - 1 implies is_continuation(#[trigger] t[i]) by {
            assert(t[i] == s[i + 1]);
        }
        assert(t.last() == s.last());
        if t.len() >= 2 {
            assert(t[t.len() - 2] == s[s.len() - 2]);
        }
        lemma_sleb_encoding_unique(t);
        let w = signed_payload_value(t);
        lemma_signed_payload_value_cons(s[0], t);
        let p0 = payload(s[0]);
        assert(v == p0 + 128 * w);
        assert(v % 128 == p0 && v / 128 == w) by {
            lemma_fundamental_div_mod_converse(v, 128, w, p0 as int);
        }
        if t.len() == 1 {
            lemma_signed_payload_value_single(t[0]);
            assert(s[s.len() - 2] == s[0]);
        } else {
            lemma_fundamental_div_mod(w, 128);
            if sleb_group_is_last(w) {
                assert(sleb_encoding(w).len() == 1);
            }
        }
        assert(!sleb_group_is_last(v));
        assert(is_continuation(s[0]));
        assert((v % 128 + 128) as u8 == s[0]);
        assert(sleb_encoding(v) =~= seq![(v % 128 + 128) as u8] + sleb_encoding(v / 128));
        assert(sleb_encoding(v) =~= s);
    }
}

/// Every value of an unsigned `bits`-bit type has a canonical encoding of at
/// most `max_units(bits)` bytes.
pub proof fn lemma_uleb_encoding_within_units(v: nat, bits: nat)
    requires
        bits >= 1,
        v < pow2(bits),
    ensures
        uleb_encoding(v).len() <= max_units(bits),
{
    lemma_max_units(bits);
    let m = max_units(bits);
    if bits < 7 * m {
        lemma_pow2_strictly_increases(bits, 7 * m);
    }
    lemma_uleb_encoding_len(v, m);
}

/// Every value of a signed `bits`-bit type has a canonical encoding of at
/// most `max_units(bits)` bytes.
pub proof fn lemma_sleb_encoding_within_units(v: int, bits: nat)
    requires
        bits >= 1,
        signed_fits(v, bits),
    ensures
        sleb_encoding(v).len() <= max_units(bits),
{
    lemma_max_units(bits);
    let m = max_units(bits);
    let e = (7 * (m - 1)) as nat;
    lemma_pow2_adds(e, 6);
    lemma2_to64();
    assert((e + 6) as nat == (7 * m - 1) as nat);
    if bits - 1 < 7 * m - 1 {
        lemma_pow2_strictly_increases((bits - 1) as nat, (7 * m - 1) as nat);
    }
    lemma_sleb_encoding_len(v, m);
}

/// Width facts about the pointer-sized integer types.
pub proof fn lemma_platform_widths()
    ensures
        usize::BITS == 32 || usize::BITS == 64,
        isize::BITS == usize::BITS,
        pow2(usize::BITS as nat) == usize::MAX + 1,
        pow2((isize::BITS - 1) as nat) == isize::MAX + 1,
        -pow2((isize::BITS - 1) as nat) == isize::MIN,
{
    vstd::layout::unsigned_int_max_values();
    vstd::layout::signed_int_min_max_values();
}

/// Powers of two that the integer types reach.
pub proof fn lemma_pow2_facts()
    ensures
        pow2(8) == 0x100,
        pow2(16) == 0x10000,
        pow2(32) == 0x1_0000_0000,
        pow2(64) == 0x1_0000_0000_0000_0000,
        pow2(128) == 0x1_0000_0000_0000_0000_0000_0000_0000_0000,
        pow2(7) == 0x80,
        pow2(15) == 0x8000,
        pow2(31) == 0x8000_0000,
        pow2(63) == 0x8000_0000_0000_0000,
        pow2(127) == 0x8000_0000_0000_0000_0000_0000_0000_0000,
        pow2(126) == 0x4000_0000_0000_0000_0000_0000_0000_0000,
{
    lemma2_to64();
    lemma2_to64_rest();
    lemma_pow2_adds(64, 64);
    lemma_pow2_adds(64, 63);
    lemma_pow2_adds(64, 62);
}

} // verus!

use qubit_codec_binary::{
    Leb128Codec, Leb128DecodeError, Leb128DecodeErrorKind, NonStrict, Strict, ZigZagCodec,
};

/// Deterministic byte generator for exhaustive-style sampling.
struct ByteStream(u64);

impl ByteStream {
    fn next_byte(&mut self) -> u8 {
        self.0 = self.0.wrapping_mul(6364136223846793005).wrapping_add(1442695040888963407);
        (self.0 >> 56) as u8
    }

    /// Bytes biased towards continuation flags so that long values occur.
    fn next_input(&mut self, len: usize) -> Vec<u8> {
        (0..len)
            .map(|_| {
                let b = self.next_byte();
                if self.next_byte() < 200 { b | 0x80 } else { b & 0x7f }
            })
            .collect()
    }
}

fn sample_inputs() -> Vec<Vec<u8>> {
    let mut inputs = Vec::new();
    for a in 0..=255u8 {
        inputs.push(vec![a]);
        for b in [0x00u8, 0x01, 0x3f, 0x40, 0x7e, 0x7f, 0x80, 0x81, 0xbf, 0xc0, 0xff] {
            inputs.push(vec![a, b]);
            inputs.push(vec![a, b, 0x00]);
            inputs.push(vec![a, b, 0x7f]);
        }
    }
    let mut stream = ByteStream(7);
    for len in 1..=20 {
        for _ in 0..400 {
            inputs.push(stream.next_input(len));
        }
    }
    inputs
}

/// The relations between the strict and the non-strict result of one input.
fn check_policy_relation<T: Copy + PartialEq + core::fmt::Debug>(
    input: &[u8],
    strict: Result<(T, usize), Leb128DecodeError>,
    non_strict: Result<(T, usize), Leb128DecodeError>,
    canonical: impl Fn(T) -> Vec<u8>,
) {
    match (strict, non_strict) {
        (Ok(expected), Ok(actual)) => {
            assert_eq!(expected, actual);
            assert_eq!(&input[..expected.1], canonical(expected.0).as_slice());
        }
        (Err(error), Ok((value, consumed))) => {
            assert_eq!(Leb128DecodeErrorKind::NonCanonical, error.kind());
            assert_eq!(Some(consumed), error.consumed());
            assert_ne!(&input[..consumed], canonical(value).as_slice());
        }
        (Err(expected), Err(actual)) => {
            assert_ne!(Leb128DecodeErrorKind::NonCanonical, actual.kind());
            assert_eq!(expected, actual);
        }
        (Ok(_), Err(error)) => panic!("non-strict decoding rejected strict-valid input: {error:?}"),
    }
}

/// The shape every decode result has.
fn check_result_invariants<T>(
    input: &[u8],
    max_bytes: usize,
    result: &Result<(T, usize), Leb128DecodeError>,
    strict: bool,
) {
    match result {
        Ok((_, consumed)) => {
            assert!(*consumed >= 1);
            assert!(*consumed <= input.len().min(max_bytes));
            assert_eq!(0, input[consumed - 1] & 0x80);
            assert!(input[..consumed - 1].iter().all(|b| b & 0x80 != 0));
        }
        Err(error) => {
            assert_eq!(0, error.start_index());
            match error.kind() {
                Leb128DecodeErrorKind::Incomplete => {
                    assert!(input.len() < max_bytes);
                    assert!(input.iter().all(|byte| byte & 0x80 != 0));
                    assert_eq!(input.len(), error.error_index());
                    assert_eq!(None, error.consumed());
                    assert_eq!(Some(input.len()), error.available());
                    assert_eq!(Some(input.len() + 1), error.required());
                    assert_eq!(Some(1), error.additional());
                }
                Leb128DecodeErrorKind::Malformed | Leb128DecodeErrorKind::NonCanonical => {
                    let consumed = error.consumed().expect("invalid input must report consumed bytes");
                    assert!(consumed >= 1);
                    assert!(consumed <= input.len().min(max_bytes));
                    assert_eq!(consumed - 1, error.error_index());
                    assert_eq!(None, error.required());
                    assert_eq!(None, error.available());
                    assert_eq!(None, error.additional());
                    if error.is_noncanonical() {
                        assert!(strict);
                        assert_eq!(0, input[consumed - 1] & 0x80);
                    }
                }
            }
        }
    }
}

fn uleb_bytes(value: u128) -> Vec<u8> {
    let mut output = [0u8; 19];
    let len = Leb128Codec::<u128, NonStrict>::encode(value, &mut output, 0);
    output[..len].to_vec()
}

fn sleb_bytes(value: i128) -> Vec<u8> {
    let mut output = [0u8; 19];
    let len = Leb128Codec::<i128, NonStrict>::encode(value, &mut output, 0);
    output[..len].to_vec()
}

#[test]
fn test_strict_decoding_accepts_exactly_canonical_encodings() {
    for input in sample_inputs() {
        check_policy_relation(
            &input,
            Leb128Codec::<u8, Strict>::decode(&input, 0),
            Leb128Codec::<u8, NonStrict>::decode(&input, 0),
            |v| uleb_bytes(v as u128),
        );
        check_policy_relation(
            &input,
            Leb128Codec::<u32, Strict>::decode(&input, 0),
            Leb128Codec::<u32, NonStrict>::decode(&input, 0),
            |v| uleb_bytes(v as u128),
        );
        check_policy_relation(
            &input,
            Leb128Codec::<u128, Strict>::decode(&input, 0),
            Leb128Codec::<u128, NonStrict>::decode(&input, 0),
            uleb_bytes,
        );
        check_policy_relation(
            &input,
            Leb128Codec::<i8, Strict>::decode(&input, 0),
            Leb128Codec::<i8, NonStrict>::decode(&input, 0),
            |v| sleb_bytes(v as i128),
        );
        check_policy_relation(
            &input,
            Leb128Codec::<i64, Strict>::decode(&input, 0),
            Leb128Codec::<i64, NonStrict>::decode(&input, 0),
            |v| sleb_bytes(v as i128),
        );
        check_policy_relation(
            &input,
            Leb128Codec::<i128, Strict>::decode(&input, 0),
            Leb128Codec::<i128, NonStrict>::decode(&input, 0),
            sleb_bytes,
        );
        check_policy_relation(
            &input,
            ZigZagCodec::<i16, Strict>::decode(&input, 0),
            ZigZagCodec::<i16, NonStrict>::decode(&input, 0),
            |v| {
                let mut output = [0u8; 3];
                let len = ZigZagCodec::<i16, NonStrict>::encode(v, &mut output, 0);
                output[..len].to_vec()
            },
        );
    }
}

#[test]
fn test_decode_results_have_the_documented_shape() {
    for input in sample_inputs() {
        for strict in [false, true] {
            let check_u16 = if strict {
                Leb128Codec::<u16, Strict>::decode(&input, 0)
            } else {
                Leb128Codec::<u16, NonStrict>::decode(&input, 0)
            };
            check_result_invariants(&input, 3, &check_u16, strict);
            let check_u64 = if strict {
                Leb128Codec::<u64, Strict>::decode(&input, 0)
            } else {
                Leb128Codec::<u64, NonStrict>::decode(&input, 0)
            };
            check_result_invariants(&input, 10, &check_u64, strict);
            let check_i32 = if strict {
                Leb128Codec::<i32, Strict>::decode(&input, 0)
            } else {
                Leb128Codec::<i32, NonStrict>::decode(&input, 0)
            };
            check_result_invariants(&input, 5, &check_i32, strict);
            let check_i128 = if strict {
                Leb128Codec::<i128, Strict>::decode(&input, 0)
            } else {
                Leb128Codec::<i128, NonStrict>::decode(&input, 0)
            };
            check_result_invariants(&input, 19, &check_i128, strict);
            let check_zigzag = if strict {
                ZigZagCodec::<i64, Strict>::decode(&input, 0)
            } else {
                ZigZagCodec::<i64, NonStrict>::decode(&input, 0)
            };
            check_result_invariants(&input, 10, &check_zigzag, strict);
        }
    }
}

#[test]
fn test_decoders_agree_with_the_reference_implementation() {
    for input in sample_inputs() {
        let mut remaining = input.as_slice();
        let reference = leb128::read::unsigned(&mut remaining)
            .ok()
            .map(|value| (value, input.len() - remaining.len()));
        assert_eq!(reference, Leb128Codec::<u64, NonStrict>::decode(&input, 0).ok());

        let zig_zag_reference = reference.map(|(encoded, consumed)| {
            (((encoded >> 1) as i64) ^ (-((encoded & 1) as i64)), consumed)
        });
        assert_eq!(zig_zag_reference, ZigZagCodec::<i64, NonStrict>::decode(&input, 0).ok());

        let mut remaining = input.as_slice();
        let reference = leb128::read::signed(&mut remaining)
            .ok()
            .map(|value| (value, input.len() - remaining.len()));
        assert_eq!(reference, Leb128Codec::<i64, NonStrict>::decode(&input, 0).ok());
    }
}

#[test]
fn test_encoders_agree_with_the_reference_implementation() {
    let mut stream = ByteStream(11);
    for shift in 0..64 {
        for delta in [0u64, 1, 2] {
            let value = (1u64 << shift).wrapping_sub(delta) ^ (stream.next_byte() as u64);
            let mut expected = Vec::new();
            leb128::write::unsigned(&mut expected, value).expect("writing to a vector succeeds");
            let mut output = [0u8; 10];
            let len = Leb128Codec::<u64, NonStrict>::encode(value, &mut output, 0);
            assert_eq!(expected.as_slice(), &output[..len]);

            let signed = value as i64;
            let mut expected = Vec::new();
            leb128::write::signed(&mut expected, signed).expect("writing to a vector succeeds");
            let len = Leb128Codec::<i64, NonStrict>::encode(signed, &mut output, 0);
            assert_eq!(expected.as_slice(), &output[..len]);
        }
    }
}

#[test]
fn test_encode_then_decode_round_trips_inside_surrounding_bytes() {
    let mut stream = ByteStream(3);
    for shift in 0..128 {
        let value = (1u128 << shift) | (stream.next_byte() as u128);
        let mut output = [0xa5u8; 23];
        let len = Leb128Codec::<u128, NonStrict>::encode(value, &mut output, 2);
        assert_eq!(Leb128Codec::<u128, NonStrict>::default().encode_len(&value), len);
        assert_eq!([0xa5, 0xa5], output[..2]);
        assert!(output[2 + len..].iter().all(|&b| b == 0xa5));
        assert_eq!(Ok((value, len)), Leb128Codec::<u128, Strict>::decode(&output, 2));
        assert_eq!(Ok((value, len)), Leb128Codec::<u128, NonStrict>::decode(&output, 2));

        let signed = value as i128;
        let len = Leb128Codec::<i128, Strict>::encode(signed, &mut output, 2);
        assert_eq!(Leb128Codec::<i128, Strict>::default().encode_len(&signed), len);
        assert_eq!(Ok((signed, len)), Leb128Codec::<i128, Strict>::decode(&output, 2));
        assert_eq!(Ok((-signed.wrapping_add(1), ZigZagCodec::<i128, Strict>::encode(-signed.wrapping_add(1), &mut output, 2))),
            ZigZagCodec::<i128, Strict>::decode(&output, 2));
    }
}

#[test]
fn test_appending_bytes_does_not_change_a_settled_result() {
    let mut stream = ByteStream(5);
    for input in sample_inputs() {
        let mut longer = input.clone();
        longer.push(stream.next_byte());
        longer.push(stream.next_byte());
        let short = Leb128Codec::<u32, Strict>::decode(&input, 0);
        if !matches!(short, Err(error) if error.is_incomplete()) {
            assert_eq!(short, Leb128Codec::<u32, Strict>::decode(&longer, 0));
        }
        let short = Leb128Codec::<i64, NonStrict>::decode(&input, 0);
        if !matches!(short, Err(error) if error.is_incomplete()) {
            assert_eq!(short, Leb128Codec::<i64, NonStrict>::decode(&longer, 0));
        }
    }
}

#[test]
fn test_policy_does_not_change_encoding() {
    for value in [0i64, -1, 63, 64, -65, i64::MIN, i64::MAX] {
        let mut strict = [0u8; 10];
        let mut non_strict = [0u8; 10];
        let a = Leb128Codec::<i64, Strict>::encode(value, &mut strict, 0);
        let b = Leb128Codec::<i64, NonStrict>::encode(value, &mut non_strict, 0);
        assert_eq!((a, strict), (b, non_strict));
        let a = ZigZagCodec::<i64, Strict>::encode(value, &mut strict, 0);
        let b = ZigZagCodec::<i64, NonStrict>::encode(value, &mut non_strict, 0);
        assert_eq!((a, strict), (b, non_strict));
    }
}

#[test]
fn test_zig_zag_maps_small_magnitudes_to_small_codes() {
    let mut output = [0u8; 1];
    for (value, code) in [(0i8, 0u8), (-1, 1), (1, 2), (-2, 3), (2, 4), (-64, 127), (63, 126)] {
        assert_eq!(1, ZigZagCodec::<i8, NonStrict>::encode(value, &mut output, 0));
        assert_eq!([code], output);
    }
    let mut output = [0u8; 2];
    assert_eq!(2, ZigZagCodec::<i8, NonStrict>::encode(i8::MIN, &mut output, 0));
    assert_eq!([0xff, 0x01], output);
    assert_eq!(2, ZigZagCodec::<i8, NonStrict>::encode(i8::MAX, &mut output, 0));
    assert_eq!([0xfe, 0x01], output);
}

#[test]
fn test_each_decode_error_kind_has_an_input() {
    let error = Leb128Codec::<u64, Strict>::decode(&[0x80, 0x80], 0).expect_err("incomplete");
    assert!(error.is_incomplete());
    assert_eq!(Some(3), error.required());
    let error = Leb128Codec::<u8, NonStrict>::decode(&[0xff, 0x02], 0).expect_err("malformed");
    assert!(error.is_malformed());
    assert_eq!(Some(2), error.consumed());
    assert_eq!(1, error.error_index());
    let error = Leb128Codec::<u8, Strict>::decode(&[0x81, 0x00], 0).expect_err("non-canonical");
    assert!(error.is_noncanonical());
    assert_eq!(Some(2), error.consumed());
    assert_eq!(
        "non-canonical LEB128 integer at byte 0: detected at byte 1 after consuming 2 bytes",
        error.to_string(),
    );
}

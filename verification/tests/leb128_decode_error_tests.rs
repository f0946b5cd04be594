use qubit_codec_binary::{Leb128DecodeError, Leb128DecodeErrorKind};

#[test]
fn test_incomplete_stores_start_error_required_available_and_additional_units() {
    let required = 3;
    let error = Leb128DecodeError::incomplete(5, required, 2);

    assert_eq!(Leb128DecodeErrorKind::Incomplete, error.kind());
    assert!(error.is_incomplete());
    assert_eq!(5, error.start_index());
    assert_eq!(7, error.error_index());
    assert_eq!(None, error.consumed());
    assert_eq!(Some(required), error.required());
    assert_eq!(Some(2), error.available());
    assert_eq!(Some(1), error.additional());
    assert_eq!(
        "incomplete LEB128 integer at byte 5: need at least 3 bytes, only 2 available (next byte boundary 7)",
        error.to_string(),
    );
}

#[test]
fn test_invalid_errors_store_start_error_and_consumed_units() {
    let malformed_consumed = 4;
    let noncanonical_consumed = 2;
    let malformed = Leb128DecodeError::malformed(5, 7, malformed_consumed);
    let noncanonical = Leb128DecodeError::noncanonical(9, noncanonical_consumed);

    assert!(malformed.is_malformed());
    assert!(noncanonical.is_noncanonical());
    assert_eq!(5, malformed.start_index());
    assert_eq!(7, malformed.error_index());
    assert_eq!(9, noncanonical.start_index());
    assert_eq!(10, noncanonical.error_index());
    assert_eq!(Some(malformed_consumed), malformed.consumed());
    assert_eq!(Some(noncanonical_consumed), noncanonical.consumed());
    assert_eq!(None, malformed.required());
    assert_eq!(None, malformed.additional());
    assert_eq!(None, noncanonical.available());
    assert_eq!(
        "malformed LEB128 integer at byte 5: detected at byte 7 after consuming 4 bytes",
        malformed.to_string(),
    );
    assert_eq!(
        "non-canonical LEB128 integer at byte 9: detected at byte 10 after consuming 2 bytes",
        noncanonical.to_string(),
    );
}

#[test]
fn test_display_formats_decode_error_kinds() {
    assert_eq!("incomplete LEB128 integer", Leb128DecodeErrorKind::Incomplete.to_string());
    assert_eq!("malformed LEB128 integer", Leb128DecodeErrorKind::Malformed.to_string());
    assert_eq!("non-canonical LEB128 integer", Leb128DecodeErrorKind::NonCanonical.to_string());
}

#[test]
fn test_error_predicates_are_exclusive() {
    let incomplete = Leb128DecodeError::incomplete(0, 1, 0);
    let malformed = Leb128DecodeError::malformed(0, 0, 1);
    let noncanonical = Leb128DecodeError::noncanonical(0, 1);

    assert!(incomplete.is_incomplete() && !incomplete.is_malformed() && !incomplete.is_noncanonical());
    assert!(!malformed.is_incomplete() && malformed.is_malformed() && !malformed.is_noncanonical());
    assert!(!noncanonical.is_incomplete() && !noncanonical.is_malformed() && noncanonical.is_noncanonical());
    assert_eq!(0, incomplete.error_index());
    assert_eq!(Some(1), incomplete.additional());
    assert_eq!(None, malformed.available());
    assert_eq!(0, noncanonical.error_index());
}

#[test]
fn test_error_messages_use_multi_digit_indices() {
    let error = Leb128DecodeError::incomplete(1234, 19, 18);
    assert_eq!(
        "incomplete LEB128 integer at byte 1234: need at least 19 bytes, only 18 available (next byte boundary 1252)",
        error.to_string(),
    );
    assert_eq!(Some(1), error.additional());
    let error = Leb128DecodeError::malformed(100, 109, 10);
    assert_eq!(
        "malformed LEB128 integer at byte 100: detected at byte 109 after consuming 10 bytes",
        error.to_string(),
    );
    let error = Leb128DecodeError::incomplete(0, 10, 0);
    assert_eq!(Some(10), error.additional());
    assert_eq!(
        "incomplete LEB128 integer at byte 0: need at least 10 bytes, only 0 available (next byte boundary 0)",
        error.to_string(),
    );
}

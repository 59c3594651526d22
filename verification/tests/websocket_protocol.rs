use bare_server_rs::websocket_protocol::{
    decode_outcome, decode_protocol, encode_protocol, is_valid_protocol, DecodeOutcome,
};

#[test]
fn test_encode_protocol() {
    assert_eq!(encode_protocol("1/100%").as_str(), "1%2F100%25");
}

#[test]
fn test_decode_protocol() {
    assert_eq!(decode_protocol("1%2F100%25").unwrap().as_str(), "1/100%");
}

#[test]
fn test_is_valid_protocol() {
    assert!(is_valid_protocol("1%2F100%25"))
}

#[test]
fn valid_protocol_rejects_space_and_comma() {
    assert!(!is_valid_protocol("a b"));
    assert!(!is_valid_protocol("a,b"));
    assert!(!is_valid_protocol("{\"a\":1}"));
    assert!(is_valid_protocol(""));
    assert!(is_valid_protocol("!#$%&'*+-.09AZ^_`az|~"));
}

#[test]
fn encode_keeps_valid_characters() {
    assert_eq!(encode_protocol("abc-XYZ_09.~"), "abc-XYZ_09.~");
    assert_eq!(encode_protocol(""), "");
}

#[test]
fn encode_writes_codes_in_upper_case_hex_without_padding() {
    assert_eq!(encode_protocol("\t"), "%9");
    assert_eq!(encode_protocol(" "), "%20");
    assert_eq!(encode_protocol("{"), "%7B");
    assert_eq!(encode_protocol("\u{e9}"), "%E9");
    assert_eq!(encode_protocol("\u{100}"), "%100");
    assert_eq!(encode_protocol("\u{1F600}"), "%1F600");
}

#[test]
fn encoded_text_is_a_valid_protocol() {
    for s in ["{\"id\":\"0a1b\"}", "h\u{e9}llo w\u{f6}rld", "\t\n\u{1F600}", "100%"] {
        assert!(is_valid_protocol(&encode_protocol(s)));
    }
}

#[test]
fn decode_reads_back_what_encode_wrote() {
    for s in ["{\"remote\":null,\"id\":\"00ff\"}", "h\u{e9}llo w\u{f6}rld", "a/b%c d", ""] {
        assert_eq!(decode_protocol(&encode_protocol(s)).unwrap(), s);
    }
}

#[test]
fn decode_fails_for_characters_outside_two_digit_codes() {
    // U+0100 is written with three digits; the decoder reads two.
    assert_ne!(decode_protocol(&encode_protocol("\u{100}")).unwrap(), "\u{100}");
}

#[test]
fn decode_without_percent_is_identity() {
    assert_eq!(decode_protocol("plain-text").unwrap(), "plain-text");
    assert_eq!(decode_protocol("caf\u{e9}").unwrap(), "caf\u{e9}");
}

#[test]
fn decode_accepts_lower_case_and_plus_sign() {
    assert_eq!(decode_protocol("%7b").unwrap(), "{");
    assert_eq!(decode_protocol("%+A").unwrap(), "\n");
}

#[test]
fn decode_rejects_non_hex() {
    assert!(decode_protocol("%ZZ").is_none());
    assert!(decode_protocol("ab%G1cd").is_none());
    assert!(matches!(decode_outcome("%-1"), DecodeOutcome::NotHex));
}

#[test]
fn decode_outcome_reports_slices_past_the_end() {
    assert!(matches!(decode_outcome("abc%"), DecodeOutcome::BadSlice));
    assert!(matches!(decode_outcome("%4"), DecodeOutcome::BadSlice));
}

#[test]
fn decode_outcome_uses_character_positions_as_byte_offsets() {
    // The '%' is the second character but the bytes 2..4 are "%4".
    assert!(matches!(decode_outcome("\u{e9}%41"), DecodeOutcome::NotHex));
    // Byte 3 falls inside the two bytes of U+00E9.
    assert!(matches!(decode_outcome("%a\u{e9}"), DecodeOutcome::BadSlice));
    match decode_outcome("%41\u{e9}") {
        DecodeOutcome::Decoded(s) => assert_eq!(s, "A\u{e9}"),
        _ => panic!("expected a decoded text"),
    }
}

#[test]
fn encoding_joined_texts_joins_their_encodings() {
    let a = "{\"a\":";
    let b = "\"x y\"}";
    let joined = format!("{}{}", a, b);
    assert_eq!(encode_protocol(&joined), format!("{}{}", encode_protocol(a), encode_protocol(b)));
}

#[test]
fn encoding_changes_text_with_percent_or_other_characters() {
    assert_eq!(encode_protocol("abc"), "abc");
    assert_ne!(encode_protocol("a%b"), "a%b");
    assert_ne!(encode_protocol("a b"), "a b");
    assert_ne!(encode_protocol("a,b"), "a,b");
}

//! Value tokens of a dump.

use std::borrow::Cow;

use mysql::Value;
use mysync::values::{
    cell_to_value, encode_bit_value, hex_decode, parse_value_token, parse_value_token_typed, strip_bit_literal,
    try_parse_value_token, unescape_char, unescape_span, value_to_cell, RawValue,
};

#[test]
fn null_is_case_insensitive() {
    assert_eq!(parse_value_token(b"NULL"), RawValue::Null);
    assert_eq!(parse_value_token(b"null"), RawValue::Null);
}

#[test]
fn plain_string_borrows_zero_copy() {
    match parse_value_token(b"'Council'") {
        RawValue::Bytes(Cow::Borrowed(b)) => assert_eq!(b, b"Council"),
        other => panic!("expected a borrowed span, got {other:?}"),
    }
}

#[test]
fn backslash_escaped_quote_from_real_dump_style_data() {
    let raw = br"'client\'s reference'";
    match parse_value_token(raw) {
        RawValue::Bytes(b) => assert_eq!(&*b, b"client's reference"),
        other => panic!("{other:?}"),
    }
}

#[test]
fn doubled_quote_escape() {
    match parse_value_token(b"'it''s here'") {
        RawValue::Bytes(b) => assert_eq!(&*b, b"it's here"),
        other => panic!("{other:?}"),
    }
}

#[test]
fn backslash_n_is_a_real_newline_not_null() {
    let raw = br"'line1\nline2'";
    match parse_value_token(raw) {
        RawValue::Bytes(b) => assert_eq!(&*b, b"line1\nline2"),
        other => panic!("{other:?}"),
    }
}

#[test]
fn hex_literal_decodes_to_bytes() {
    match parse_value_token(b"0x48656c6c6f") {
        RawValue::Bytes(b) => assert_eq!(&*b, b"Hello"),
        other => panic!("{other:?}"),
    }
}

#[test]
fn bare_number_is_untouched_text() {
    match parse_value_token(b"-36.848461") {
        RawValue::Bytes(Cow::Borrowed(b)) => assert_eq!(b, b"-36.848461"),
        other => panic!("expected a borrowed span, got {other:?}"),
    }
}

#[test]
fn bit_literal_decodes_to_binary_value_not_source_text() {
    // A BIT(4) column that holds b'1010' comes back as the single byte 0x0A.
    match parse_value_token_typed(b"b'1010'", Some(4)) {
        RawValue::Bytes(b) => assert_eq!(&*b, &[0x0Au8][..]),
        other => panic!("{other:?}"),
    }
}

#[test]
fn bit_literal_uppercase_prefix_and_wider_column() {
    // A BIT(16) column pads the value to two bytes.
    match parse_value_token_typed(b"B'1010'", Some(16)) {
        RawValue::Bytes(b) => assert_eq!(&*b, &[0x00u8, 0x0A][..]),
        other => panic!("{other:?}"),
    }
}

#[test]
fn bit_literal_without_bit_width_hint_falls_back_to_source_text() {
    // Without a column type the token is treated like any other that is not quoted.
    match parse_value_token(b"b'1010'") {
        RawValue::Bytes(Cow::Borrowed(b)) => assert_eq!(b, b"b'1010'"),
        other => panic!("expected a borrowed span, got {other:?}"),
    }
}

#[test]
fn into_mysql_value_matches_text_protocol_shape() {
    assert_eq!(RawValue::Null.into_mysql_value(), Value::NULL);
    assert_eq!(
        parse_value_token(b"'2025-11-10 14:36:37'").into_mysql_value(),
        Value::Bytes(b"2025-11-10 14:36:37".to_vec())
    );
}

#[test]
fn cells_and_driver_values_convert_both_ways() {
    assert_eq!(cell_to_value(None), Value::NULL);
    assert_eq!(cell_to_value(Some(b"x".to_vec())), Value::Bytes(b"x".to_vec()));
    assert_eq!(value_to_cell(cell_to_value(None)), Some(None));
    assert_eq!(value_to_cell(cell_to_value(Some(b"x".to_vec()))), Some(Some(b"x".to_vec())));
    assert_eq!(value_to_cell(Value::Int(1)), None);
    assert_eq!(value_to_cell(Value::Double(1.5)), None);
}

#[test]
fn a_lone_quote_is_no_value() {
    assert!(try_parse_value_token(b"'", None).is_none());
    assert!(try_parse_value_token(b" \" ", None).is_none());
    assert_eq!(try_parse_value_token(b"''", None).map(|v| v.into_cell()), Some(Some(vec![])));
}

#[test]
fn surrounding_whitespace_does_not_matter() {
    assert_eq!(parse_value_token(b"  NULL\n"), RawValue::Null);
    assert_eq!(parse_value_token(b" 42 ").into_cell(), Some(b"42".to_vec()));
}

#[test]
fn every_escape_has_its_byte() {
    let all = [
        (b'0', 0x00),
        (b'n', 0x0a),
        (b'r', 0x0d),
        (b't', 0x09),
        (b'b', 0x08),
        (b'Z', 0x1a),
        (b'\\', b'\\'),
        (b'\'', b'\''),
        (b'"', b'"'),
        (b'%', b'%'),
        (b'q', b'q'),
    ];
    for (c, want) in all {
        assert_eq!(unescape_char(c), want);
        assert_eq!(&*unescape_span(&[b'\\', c], b'\''), &[want][..]);
    }
}

#[test]
fn spans_are_copied_only_when_something_is_undone() {
    assert!(matches!(unescape_span(b"plain", b'\''), Cow::Borrowed(b"plain")));
    assert!(matches!(unescape_span(b"a\"b", b'\''), Cow::Borrowed(_)));
    assert!(matches!(unescape_span(b"a\\nb", b'\''), Cow::Owned(_)));
    // A backslash at the very end stands for nothing.
    assert_eq!(&*unescape_span(b"a\\", b'\''), b"a");
    // Inside backticks a backslash is itself.
    assert_eq!(&*unescape_span(b"a\\n``", b'`'), b"a\\n`");
}

#[test]
fn escaped_content_reads_back() {
    let content: Vec<u8> = (0u8..=255).collect();
    let mut text: Vec<u8> = vec![b'\''];
    for &b in &content {
        match b {
            0 => text.extend_from_slice(b"\\0"),
            b'\n' => text.extend_from_slice(b"\\n"),
            b'\r' => text.extend_from_slice(b"\\r"),
            0x1a => text.extend_from_slice(b"\\Z"),
            b'\\' | b'\'' | b'"' => text.extend_from_slice(&[b'\\', b]),
            _ => text.push(b),
        }
    }
    text.push(b'\'');
    assert_eq!(parse_value_token(&text).into_cell(), Some(content));
}

#[test]
fn hex_digits_of_any_case_and_number() {
    assert_eq!(hex_decode(b"00fFAa"), vec![0x00, 0xff, 0xaa]);
    assert_eq!(parse_value_token(b"0X4a4B").into_cell(), Some(b"JK".to_vec()));
    assert_eq!(parse_value_token(b"0xabc").into_cell(), Some(vec![0x0a, 0xbc]));
    assert_eq!(parse_value_token(b"0x").into_cell(), Some(b"0x".to_vec()));
}

#[test]
fn bit_literals_are_stored_big_endian() {
    assert_eq!(encode_bit_value(b"100000001", 9), vec![0x01, 0x01]);
    assert_eq!(encode_bit_value(b"", 8), vec![0x00]);
    assert_eq!(encode_bit_value(b"1", 0), vec![0x01]);
    assert_eq!(encode_bit_value(b"11111111", 64), vec![0, 0, 0, 0, 0, 0, 0, 0xff]);
    assert_eq!(strip_bit_literal(b"b'01'"), Some(&b"01"[..]));
    assert_eq!(strip_bit_literal(b"b''"), Some(&b""[..]));
    assert_eq!(strip_bit_literal(b"x'01'"), None);
    assert_eq!(strip_bit_literal(b"b'"), None);
}

#[test]
fn cloned_values_are_equal() {
    let v = parse_value_token(b"'a\\nb'");
    assert_eq!(v.clone(), v);
    let w = parse_value_token(b"12");
    assert_eq!(w.clone(), w);
}

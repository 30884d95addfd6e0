use recordstore::codec::{decode, encode, DecodeError, Record};

#[test]
fn encode_known_value() {
    let line = encode("alice", "hello");
    assert_eq!(line, "YWxpY2U6aGVsbG8=");
}

#[test]
fn decode_known_value() {
    let rec = decode("YWxpY2U6aGVsbG8=").unwrap();
    assert_eq!(rec.identifier, "alice");
    assert_eq!(rec.value, "hello");
}

#[test]
fn round_trip_simple() {
    let line = encode("alice", "hello");
    let rec = decode(&line).unwrap();
    assert_eq!(rec.identifier, "alice");
    assert_eq!(rec.value, "hello");
}

#[test]
fn round_trip_empty_fields() {
    let line = encode("", "");
    let rec = decode(&line).unwrap();
    assert_eq!(rec.identifier, "");
    assert_eq!(rec.value, "");
}

#[test]
fn round_trip_value_with_separator() {
    // Splitting at the first separator keeps a value's own colons intact.
    let line = encode("a", "b:c");
    assert_eq!(line, "YTpiOmM=");
    let rec = decode(&line).unwrap();
    assert_eq!(rec.identifier, "a");
    assert_eq!(rec.value, "b:c");
}

#[test]
fn round_trip_unicode_text() {
    let line = encode("clé", "välüe\u{1F600}");
    let rec = decode(&line).unwrap();
    assert_eq!(rec.identifier, "clé");
    assert_eq!(rec.value, "välüe\u{1F600}");
}

#[test]
fn decode_rejects_invalid_base64() {
    assert!(matches!(decode("!!!not base64!!!"), Err(DecodeError::InvalidBase64)));
}

#[test]
fn decode_rejects_invalid_text() {
    // Valid base64 of the bytes [0xff, 0xfe], which are not valid UTF-8.
    assert!(matches!(decode("//4="), Err(DecodeError::InvalidText)));
}

#[test]
fn decode_rejects_missing_separator() {
    // Valid base64 of the text "nosep", which holds no colon.
    assert!(matches!(decode("bm9zZXA="), Err(DecodeError::MissingSeparator)));
}

#[test]
fn encoded_line_has_no_newline() {
    let line = encode("some identifier", "a value\nwith a newline inside");
    assert!(!line.contains('\n'));
    assert!(!line.is_empty());
}

#[test]
fn record_fields_are_plain() {
    let rec = Record { identifier: String::from("id"), value: String::from("v") };
    assert_eq!(rec.identifier, "id");
    assert_eq!(rec.value, "v");
}

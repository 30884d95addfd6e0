use recordstore::codec::DecodeError;
use recordstore::store::{encoded_entry, read_all, search};

#[test]
fn read_all_empty_text() {
    let records = read_all("").unwrap();
    assert_eq!(records.len(), 0);
}

#[test]
fn read_all_only_blank_lines() {
    let records = read_all("\n\n\n").unwrap();
    assert_eq!(records.len(), 0);
}

#[test]
fn append_then_read_in_order() {
    // The two-record scenario: both come back, in insertion order.
    let mut log = String::new();
    log.push_str(&encoded_entry("alice", "hello"));
    log.push_str(&encoded_entry("bob", "world"));
    let records = read_all(&log).unwrap();
    assert_eq!(records.len(), 2);
    assert_eq!(records[0].identifier, "alice");
    assert_eq!(records[0].value, "hello");
    assert_eq!(records[1].identifier, "bob");
    assert_eq!(records[1].value, "world");
}

#[test]
fn append_grows_by_one_with_new_last() {
    let mut log = String::new();
    log.push_str(&encoded_entry("alice", "hello"));
    let before = read_all(&log).unwrap().len();
    log.push_str(&encoded_entry("bob", "world"));
    let records = read_all(&log).unwrap();
    assert_eq!(records.len(), before + 1);
    assert_eq!(records[records.len() - 1].identifier, "bob");
    assert_eq!(records[records.len() - 1].value, "world");
}

#[test]
fn trailing_blank_line_tolerated() {
    let mut log = String::new();
    log.push_str(&encoded_entry("alice", "hello"));
    log.push_str(&encoded_entry("bob", "world"));
    let mut with_blank = log.clone();
    with_blank.push('\n');
    let plain = read_all(&log).unwrap();
    let tolerant = read_all(&with_blank).unwrap();
    assert_eq!(plain.len(), tolerant.len());
    for (a, b) in plain.iter().zip(tolerant.iter()) {
        assert_eq!(a.identifier, b.identifier);
        assert_eq!(a.value, b.value);
    }
}

#[test]
fn read_all_aborts_on_first_bad_line() {
    let mut log = String::new();
    log.push_str(&encoded_entry("alice", "hello"));
    log.push_str("###corrupt###\n");
    log.push_str(&encoded_entry("bob", "world"));
    assert!(matches!(read_all(&log), Err(DecodeError::InvalidBase64)));
}

#[test]
fn search_finds_matching_value() {
    let mut log = String::new();
    log.push_str(&encoded_entry("alice", "hello"));
    log.push_str(&encoded_entry("bob", "world"));
    let found = search(&log, "world").unwrap().unwrap();
    assert_eq!(found.identifier, "bob");
    assert_eq!(found.value, "world");
}

#[test]
fn search_misses_absent_value() {
    let mut log = String::new();
    log.push_str(&encoded_entry("alice", "hello"));
    log.push_str(&encoded_entry("bob", "world"));
    assert!(search(&log, "missing").unwrap().is_none());
}

#[test]
fn search_matches_value_not_identifier() {
    let mut log = String::new();
    log.push_str(&encoded_entry("alice", "hello"));
    assert!(search(&log, "alice").unwrap().is_none());
    assert!(search(&log, "hello").unwrap().is_some());
}

#[test]
fn search_returns_first_of_duplicates() {
    let mut log = String::new();
    log.push_str(&encoded_entry("first", "same"));
    log.push_str(&encoded_entry("second", "same"));
    let found = search(&log, "same").unwrap().unwrap();
    assert_eq!(found.identifier, "first");
}

#[test]
fn search_stops_before_later_bad_line() {
    // Search short-circuits on the first match, so a corrupt line after
    // it is never inspected, while a full read still fails.
    let mut log = String::new();
    log.push_str(&encoded_entry("alice", "hello"));
    log.push_str("###corrupt###\n");
    let found = search(&log, "hello").unwrap().unwrap();
    assert_eq!(found.identifier, "alice");
    assert!(read_all(&log).is_err());
}

#[test]
fn search_fails_on_bad_line_before_match() {
    let mut log = String::new();
    log.push_str("###corrupt###\n");
    log.push_str(&encoded_entry("alice", "hello"));
    assert!(matches!(search(&log, "hello"), Err(DecodeError::InvalidBase64)));
}

#[test]
fn encoded_entry_is_line_plus_newline() {
    let entry = encoded_entry("alice", "hello");
    assert_eq!(entry, "YWxpY2U6aGVsbG8=\n");
}

use log_kv::codec::{encode, is_valid_part, trim_str, Assignment, FormatError};
use log_kv::order::str_lt;

#[test]
fn encode_builds_one_line() {
    assert_eq!(encode("key", "value"), "key=value\n");
    assert_eq!(encode("", ""), "=\n");
}

#[test]
fn round_trip_returns_the_record() {
    let line = encode("key", "value");
    let a = Assignment::from_str(&line).unwrap();
    assert_eq!(a.key, "key");
    assert_eq!(a.value, "value");
}

#[test]
fn round_trip_empty_value() {
    let line = encode("key", "");
    let a = Assignment::from_str(&line).unwrap();
    assert_eq!(a.key, "key");
    assert_eq!(a.value, "");
}

#[test]
fn decode_trims_surrounding_whitespace() {
    let a = Assignment::from_str("  key  =  value  ").unwrap();
    assert_eq!(a.key, "key");
    assert_eq!(a.value, "value");
}

#[test]
fn decode_rejects_no_separator() {
    assert_eq!(
        Assignment::from_str("novalue"),
        Err(FormatError::InvalidFormat)
    );
    assert_eq!(Assignment::from_str(""), Err(FormatError::InvalidFormat));
}

#[test]
fn decode_rejects_two_separators() {
    assert_eq!(
        Assignment::from_str("a=b=c"),
        Err(FormatError::InvalidFormat)
    );
}

#[test]
fn format_error_message() {
    assert_eq!(
        FormatError::InvalidFormat.message(),
        "string is in an invalid format!"
    );
}

#[test]
fn valid_part_rules() {
    assert!(is_valid_part("abc"));
    assert!(is_valid_part(""));
    assert!(is_valid_part("a b"));
    assert!(!is_valid_part("a=b"));
    assert!(!is_valid_part("a\nb"));
    assert!(!is_valid_part(" a"));
    assert!(!is_valid_part("a "));
}

#[test]
fn trim_str_strips_both_ends() {
    assert_eq!(trim_str("  hi  "), "hi");
    assert_eq!(trim_str("hi"), "hi");
    assert_eq!(trim_str("   "), "");
    assert_eq!(trim_str("\t a b \r\n"), "a b");
}

#[test]
fn key_order_is_lexicographic() {
    assert!(str_lt("a", "b"));
    assert!(str_lt("a", "ab"));
    assert!(!str_lt("b", "a"));
    assert!(!str_lt("a", "a"));
}

//! Escape processing tests.

use bct::escapes::{process_escape_sequences, EscapeError};

fn ok(s: &str) -> Vec<u8> {
    process_escape_sequences(s.as_bytes()).unwrap()
}

#[test]
fn test_basic_escapes() {
    assert_eq!(ok(r#"foo"#), b"foo".to_vec());
    assert_eq!(ok(r#"foo\"bar"#), b"foo\"bar".to_vec());
    assert_eq!(ok(r#"foo\\bar"#), b"foo\\bar".to_vec());
    assert_eq!(ok(r#"foo\nbar"#), b"foo\nbar".to_vec());
    assert_eq!(ok(r#"foo\rbar"#), b"foo\rbar".to_vec());
    assert_eq!(ok(r#"foo\tbar"#), b"foo\tbar".to_vec());
    assert_eq!(ok(r#"foo\0bar"#), b"foo\0bar".to_vec());
}

#[test]
fn test_unicode_escapes() {
    assert_eq!(ok(r#"\u{41}"#), b"A".to_vec());
    assert_eq!(ok(r#"\u{1F4A9}"#), "\u{1F4A9}".as_bytes().to_vec());
    assert_eq!(ok(r#"foo\u{42}ar"#), b"fooBar".to_vec());
}

#[test]
fn test_invalid_escapes() {
    assert!(matches!(
        process_escape_sequences(br"\q"),
        Err(EscapeError::InvalidEscape { escape: 'q', .. })
    ));
    assert!(matches!(
        process_escape_sequences(br"foo\x"),
        Err(EscapeError::InvalidEscape { escape: 'x', .. })
    ));
}

#[test]
fn test_invalid_unicode_escapes() {
    assert!(matches!(
        process_escape_sequences(br"\u{110000}"),
        Err(EscapeError::InvalidUnicodeEscape { .. })
    ));
    assert!(matches!(
        process_escape_sequences(br"\u{}"),
        Err(EscapeError::InvalidUnicodeEscape { .. })
    ));
    assert!(matches!(
        process_escape_sequences(br"\u{1234567}"),
        Err(EscapeError::InvalidUnicodeEscape { .. })
    ));
    assert!(matches!(
        process_escape_sequences(br"\u{GGGG}"),
        Err(EscapeError::InvalidUnicodeEscape { .. })
    ));
    assert!(matches!(
        process_escape_sequences(br"\u"),
        Err(EscapeError::InvalidUnicodeEscape { .. })
    ));
    assert!(matches!(
        process_escape_sequences(br"\u{"),
        Err(EscapeError::UnterminatedUnicodeEscape { .. })
    ));
}

#[test]
fn test_edge_cases() {
    assert_eq!(ok(""), Vec::<u8>::new());
    assert_eq!(ok(r"\n\r\t\0"), b"\n\r\t\0".to_vec());
    assert_eq!(ok(r"\\\\"), b"\\\\".to_vec());
}

#[test]
fn test_trailing_backslash() {
    assert!(matches!(
        process_escape_sequences(br"foo\"),
        Err(EscapeError::InvalidEscape { .. })
    ));
}

#[test]
fn surrogate_code_point_rejected() {
    assert!(matches!(
        process_escape_sequences(br"\u{D800}"),
        Err(EscapeError::InvalidUnicodeEscape { .. })
    ));
}

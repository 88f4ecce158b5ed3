use http_server::number::{decimal_text, parse_decimal, push_decimal};
use http_server::text::{is_utf8, names_equal, split_text, text_eq};

#[test]
fn decimal_reading() {
    assert_eq!(parse_decimal(b"0"), Some(0));
    assert_eq!(parse_decimal(b"007"), Some(7));
    assert_eq!(parse_decimal(b"+42"), Some(42));
    assert_eq!(parse_decimal(b"1234567"), Some(1234567));
    assert_eq!(parse_decimal(b""), None);
    assert_eq!(parse_decimal(b"+"), None);
    assert_eq!(parse_decimal(b"-1"), None);
    assert_eq!(parse_decimal(b"12a"), None);
    assert_eq!(parse_decimal(b" 1"), None);
}

#[test]
fn decimal_reading_at_the_limit() {
    let max = usize::MAX.to_string();
    assert_eq!(parse_decimal(max.as_bytes()), Some(usize::MAX));
    let over = format!("{}0", max);
    assert_eq!(parse_decimal(over.as_bytes()), None);
}

#[test]
fn decimal_writing() {
    assert_eq!(decimal_text(0), "0");
    assert_eq!(decimal_text(9), "9");
    assert_eq!(decimal_text(10), "10");
    assert_eq!(decimal_text(40213), "40213");
    assert_eq!(decimal_text(usize::MAX), usize::MAX.to_string());
    let mut out = b"n=".to_vec();
    push_decimal(305, &mut out);
    assert_eq!(out, b"n=305".to_vec());
}

#[test]
fn splitting_text() {
    assert_eq!(split_text(b"a b c", b' '), vec!["a", "b", "c"]);
    assert_eq!(split_text(b"", b','), vec![""]);
    assert_eq!(split_text(b",x,", b','), vec!["", "x", ""]);
    assert_eq!(split_text("é,ü".as_bytes(), b','), vec!["é", "ü"]);
}

#[test]
fn utf8_checks() {
    assert!(is_utf8("héllo".as_bytes()));
    assert!(!is_utf8(b"\xff"));
    assert!(!is_utf8(b"\xe2\x82"));
}

#[test]
fn name_and_text_comparison() {
    assert!(names_equal("Content-Type", "content-TYPE"));
    assert!(!names_equal("Content-Type", "Content-Typ"));
    assert!(!names_equal("Ä", "ä"));
    assert!(text_eq("abc", "abc"));
    assert!(!text_eq("abc", "Abc"));
}

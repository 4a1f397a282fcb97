use resp_codec::decimal::{parse_decimal, push_decimal, push_digits};
use resp_codec::text::{decimal_string, text_of};

fn written(n: i64) -> Vec<u8> {
    let mut out = Vec::new();
    push_decimal(n, &mut out);
    out
}

#[test]
fn parses_plain_numbers() {
    assert_eq!(parse_decimal(b"0"), Some(0));
    assert_eq!(parse_decimal(b"7"), Some(7));
    assert_eq!(parse_decimal(b"1234567890"), Some(1234567890));
    assert_eq!(parse_decimal(b"00012"), Some(12));
}

#[test]
fn parses_signs() {
    assert_eq!(parse_decimal(b"-1"), Some(-1));
    assert_eq!(parse_decimal(b"+1"), Some(1));
    assert_eq!(parse_decimal(b"-0"), Some(0));
    assert_eq!(parse_decimal(b"-"), None);
    assert_eq!(parse_decimal(b"+"), None);
    assert_eq!(parse_decimal(b"--1"), None);
    assert_eq!(parse_decimal(b"+-1"), None);
}

#[test]
fn parses_the_ends_of_the_range() {
    assert_eq!(parse_decimal(b"9223372036854775807"), Some(i64::MAX));
    assert_eq!(parse_decimal(b"-9223372036854775808"), Some(i64::MIN));
    assert_eq!(parse_decimal(b"9223372036854775808"), None);
    assert_eq!(parse_decimal(b"-9223372036854775809"), None);
    assert_eq!(parse_decimal(b"18446744073709551616"), None);
    assert_eq!(parse_decimal(b"99999999999999999999999999"), None);
    assert_eq!(parse_decimal(b"0000000000000000000000000000000000005"), Some(5));
}

#[test]
fn rejects_what_is_no_number() {
    assert_eq!(parse_decimal(b""), None);
    assert_eq!(parse_decimal(b" 1"), None);
    assert_eq!(parse_decimal(b"1 "), None);
    assert_eq!(parse_decimal(b"1.0"), None);
    assert_eq!(parse_decimal(b"12a"), None);
    assert_eq!(parse_decimal(b"0x10"), None);
    assert_eq!(parse_decimal(b"\xff"), None);
}

#[test]
fn writes_numbers() {
    assert_eq!(written(0), b"0");
    assert_eq!(written(9), b"9");
    assert_eq!(written(10), b"10");
    assert_eq!(written(-10), b"-10");
    assert_eq!(written(1234567890), b"1234567890");
    assert_eq!(written(i64::MAX), b"9223372036854775807");
    assert_eq!(written(i64::MIN), b"-9223372036854775808");
}

#[test]
fn writes_after_what_is_there() {
    let mut out = b"n=".to_vec();
    push_digits(18446744073709551615, &mut out);
    assert_eq!(out, b"n=18446744073709551615");
}

#[test]
fn what_is_written_parses_back() {
    for n in [0i64, 1, -1, 42, -42, 1000000007, i64::MAX, i64::MIN, i64::MIN + 1] {
        assert_eq!(parse_decimal(&written(n)), Some(n));
    }
}

#[test]
fn text_of_utf8() {
    assert_eq!(text_of(b"plain"), Some("plain".to_string()));
    assert_eq!(text_of(b""), Some(String::new()));
    assert_eq!(text_of(b"h\xc3\xa9"), Some("h\u{e9}".to_string()));
    assert_eq!(text_of(b"\xff"), None);
    assert_eq!(text_of(b"ab\xc3"), None);
}

#[test]
fn decimal_strings() {
    assert_eq!(decimal_string(0), "0");
    assert_eq!(decimal_string(-17), "-17");
    assert_eq!(decimal_string(i64::MIN), "-9223372036854775808");
}

use gcd::engine::gcd_list;
use gcd::parse::{parse_u64, ParseError};

#[test]
fn test_parse_plain_numerals() {
    assert_eq!(parse_u64(b"0"), Ok(0));
    assert_eq!(parse_u64(b"42"), Ok(42));
    assert_eq!(parse_u64(b"007"), Ok(7));
    assert_eq!(parse_u64(b"5610"), Ok(5610));
}

#[test]
fn test_parse_largest_value() {
    assert_eq!(parse_u64(b"18446744073709551615"), Ok(u64::MAX));
}

#[test]
fn test_parse_empty_input() {
    assert_eq!(parse_u64(b""), Err(ParseError::Empty));
}

#[test]
fn test_parse_rejects_non_digits() {
    assert_eq!(parse_u64(b"abc"), Err(ParseError::InvalidDigit));
    assert_eq!(parse_u64(b"-5"), Err(ParseError::InvalidDigit));
    assert_eq!(parse_u64(b"+3"), Err(ParseError::InvalidDigit));
    assert_eq!(parse_u64(b" 1"), Err(ParseError::InvalidDigit));
    assert_eq!(parse_u64(b"12a"), Err(ParseError::InvalidDigit));
    assert_eq!(parse_u64(b"1 2"), Err(ParseError::InvalidDigit));
}

#[test]
fn test_parse_rejects_too_large_values() {
    assert_eq!(parse_u64(b"18446744073709551616"), Err(ParseError::Overflow));
    assert_eq!(parse_u64(b"99999999999999999999"), Err(ParseError::Overflow));
    assert_eq!(parse_u64(b"184467440737095516150"), Err(ParseError::Overflow));
}

#[test]
fn test_parse_then_fold() {
    let args: Vec<&[u8]> = vec![b"14", b"15"];
    let mut numbers: Vec<u64> = Vec::new();
    for arg in args {
        numbers.push(parse_u64(arg).unwrap());
    }
    assert_eq!(gcd_list(&numbers), 1);
}

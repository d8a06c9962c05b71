use coderec::hex::{hex_digit_value, hex_to_int, HexParseError};
use std::num::IntErrorKind;

#[test]
fn reads_hex_with_and_without_prefix() {
    assert_eq!(hex_to_int("0x1f"), Ok(31));
    assert_eq!(hex_to_int("1F"), Ok(31));
    assert_eq!(hex_to_int("0"), Ok(0));
    assert_eq!(hex_to_int("0x0x10"), Ok(16));
    assert_eq!(hex_to_int("+ff"), Ok(255));
    assert_eq!(hex_to_int("ffffffffffffffff"), Ok(u64::MAX));
    assert_eq!(hex_to_int("0x00000000000000000001"), Ok(1));
}

#[test]
fn empty_after_prefixes() {
    assert_eq!(hex_to_int(""), Err(HexParseError::Empty));
    assert_eq!(hex_to_int("0x"), Err(HexParseError::Empty));
    assert_eq!(hex_to_int("0x0x"), Err(HexParseError::Empty));
}

#[test]
fn invalid_digits() {
    assert_eq!(hex_to_int("+"), Err(HexParseError::InvalidDigit));
    assert_eq!(hex_to_int("-"), Err(HexParseError::InvalidDigit));
    assert_eq!(hex_to_int("-1"), Err(HexParseError::InvalidDigit));
    assert_eq!(hex_to_int("g"), Err(HexParseError::InvalidDigit));
    assert_eq!(hex_to_int("0X10"), Err(HexParseError::InvalidDigit));
    assert_eq!(hex_to_int(" 10"), Err(HexParseError::InvalidDigit));
    assert_eq!(hex_to_int("fffffffffffffffg"), Err(HexParseError::InvalidDigit));
    assert_eq!(hex_to_int("1é"), Err(HexParseError::InvalidDigit));
}

#[test]
fn overflow() {
    assert_eq!(hex_to_int("10000000000000000"), Err(HexParseError::PosOverflow));
    assert_eq!(hex_to_int("10000000000000000g"), Err(HexParseError::PosOverflow));
}

#[test]
fn digit_values() {
    assert_eq!(hex_digit_value('0'), Some(0));
    assert_eq!(hex_digit_value('9'), Some(9));
    assert_eq!(hex_digit_value('a'), Some(10));
    assert_eq!(hex_digit_value('F'), Some(15));
    assert_eq!(hex_digit_value('g'), None);
    assert_eq!(hex_digit_value('/'), None);
}

fn std_reading(arg: &str) -> Result<u64, HexParseError> {
    u64::from_str_radix(arg.trim_start_matches("0x"), 16).map_err(|e| match e.kind() {
        IntErrorKind::Empty => HexParseError::Empty,
        IntErrorKind::PosOverflow => HexParseError::PosOverflow,
        _ => HexParseError::InvalidDigit,
    })
}

#[test]
fn agrees_with_the_standard_library() {
    let cases = [
        "", "0x", "0", "00", "+", "-", "+0", "-0", "++1", "0x0x0x", "0xff", "FF", "fF", "x1",
        "0x-1", "123456789abcdef0", "123456789abcdef01", "ffffffffffffffff0", "0000000000000000000000ff",
        "ab cd", "1_000", "ｆ", "0xg", "8000000000000000", "+ffffffffffffffff", "+10000000000000000",
    ];
    for c in cases {
        assert_eq!(hex_to_int(c), std_reading(c), "input {:?}", c);
    }
}

use aoc24::harness::iter::{lines, tokens};
use aoc24::harness::part::{Part, PartParseError};
use aoc24::parse::{parse_u32, parse_u64, parse_u8};

#[test]
fn test_lines_basic() {
    let ls = lines(b"one\ntwo\nthree");
    assert_eq!(ls.len(), 3);
    assert_eq!(ls[0], b"one".to_vec());
    assert_eq!(ls[1], b"two".to_vec());
    assert_eq!(ls[2], b"three".to_vec());
}

#[test]
fn test_lines_trailing_newline_and_crlf() {
    let ls = lines(b"a\r\nb\n");
    assert_eq!(ls.len(), 2);
    assert_eq!(ls[0], b"a".to_vec());
    assert_eq!(ls[1], b"b".to_vec());
    assert_eq!(lines(b"").len(), 0);
    assert_eq!(lines(b"\n"), vec![Vec::<u8>::new()]);
}

#[test]
fn test_tokens_splits_on_whitespace() {
    let ts = tokens(b"  12 7\t9  ");
    assert_eq!(ts.len(), 3);
    assert_eq!(ts[0], b"12".to_vec());
    assert_eq!(ts[1], b"7".to_vec());
    assert_eq!(ts[2], b"9".to_vec());
    assert_eq!(tokens(b"   ").len(), 0);
}

#[test]
fn test_part_numbers() {
    assert_eq!(Part::from_num(1), Ok(Part::One));
    assert_eq!(Part::from_num(2), Ok(Part::Two));
    assert_eq!(Part::from_num(3), Err(PartParseError(3)));
    assert_eq!(Part::One.num(), 1);
    assert_eq!(Part::Two.num(), 2);
}

#[test]
fn test_parse_numbers() {
    assert_eq!(parse_u8("0").unwrap(), 0);
    assert_eq!(parse_u8("255").unwrap(), 255);
    assert!(parse_u8("256").is_err());
    assert_eq!(parse_u32("+123").unwrap(), 123);
    assert!(parse_u32("").is_err());
    assert!(parse_u32("12a").is_err());
    assert!(parse_u32("-5").is_err());
    assert_eq!(parse_u64("18446744073709551615").unwrap(), u64::MAX);
    assert!(parse_u64("18446744073709551616").is_err());
}

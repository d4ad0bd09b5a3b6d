//! The numeric lexer: typed readings of digit-and-punctuation runs.
use ghcprof::parser::ser::{push_decimal, push_digits};
use ghcprof::parser::{
    parse_num, parse_num_decimal, parse_num_u16, parse_num_u32, parse_num_u8, Decimal, ParseError,
};

#[test]
fn reads_integer_with_thousands_separators() {
    let input = b"60,261,923,248 bytes";
    match parse_num(input, 0) {
        Ok((v, p)) => {
            assert_eq!(v, 60_261_923_248);
            assert_eq!(p, 14);
        }
        e => panic!("{:?}", e),
    }
}

#[test]
fn reads_fractional_value_exactly() {
    let input = b"53.62 secs";
    match parse_num_decimal(input, 0) {
        Ok((d, p)) => {
            assert_eq!(d, Decimal::new(5362, 2));
            assert_eq!(p, 5);
        }
        e => panic!("{:?}", e),
    }
}

#[test]
fn reads_fraction_with_thousands_separators() {
    match parse_num_decimal(b"1,234.56", 0) {
        Ok((d, p)) => {
            assert_eq!(d, Decimal::new(123456, 2));
            assert_eq!(p, 8);
        }
        e => panic!("{:?}", e),
    }
}

#[test]
fn non_numeric_run_is_malformed_number() {
    assert_eq!(parse_num(b"abc", 0), Err(ParseError::MalformedNumber));
    assert_eq!(parse_num_decimal(b"abc", 0), Err(ParseError::MalformedNumber));
    assert_eq!(parse_num_decimal(b",.", 0), Err(ParseError::MalformedNumber));
}

#[test]
fn a_point_makes_no_integer() {
    assert_eq!(parse_num(b"12.5", 0), Err(ParseError::MalformedNumber));
}

#[test]
fn two_points_make_no_number() {
    assert_eq!(parse_num_decimal(b"1.2.3", 0), Err(ParseError::MalformedNumber));
}

#[test]
fn narrow_types_reject_large_values() {
    assert_eq!(parse_num_u8(b"1000", 0), Err(ParseError::MalformedNumber));
    assert_eq!(parse_num_u16(b"70000", 0), Err(ParseError::MalformedNumber));
    assert_eq!(parse_num_u32(b"4294967296", 0), Err(ParseError::MalformedNumber));
    assert_eq!(parse_num_u8(b"255", 0), Ok((255, 3)));
}

#[test]
fn an_overflowing_run_is_malformed_number() {
    assert_eq!(
        parse_num(b"99,999,999,999,999,999,999,999", 0),
        Err(ParseError::MalformedNumber)
    );
}

#[test]
fn writes_digits_back() {
    let mut out: Vec<u8> = Vec::new();
    push_digits(&mut out, 53615);
    assert_eq!(out, b"53615".to_vec());
}

#[test]
fn writes_decimals_back() {
    let mut out: Vec<u8> = Vec::new();
    push_decimal(&mut out, Decimal::new(5362, 2));
    assert_eq!(out, b"53.62".to_vec());
    let mut small: Vec<u8> = Vec::new();
    push_decimal(&mut small, Decimal::new(5, 1));
    assert_eq!(small, b"0.5".to_vec());
    let mut whole: Vec<u8> = Vec::new();
    push_decimal(&mut whole, Decimal::new(7, 0));
    assert_eq!(whole, b"7".to_vec());
    let mut tiny: Vec<u8> = Vec::new();
    push_decimal(&mut tiny, Decimal::new(5, 3));
    assert_eq!(tiny, b"0.005".to_vec());
}

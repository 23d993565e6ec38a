use msf::{parse, parsei32, ParseError};

#[test]
fn parsei32_reads_digits_and_sign() {
    assert_eq!(parsei32(b"45.6"), 456);
    assert_eq!(parsei32(b"-12.3"), -123);
    assert_eq!(parsei32(b"7"), 7);
    assert_eq!(parsei32(b"0.0"), 0);
    assert_eq!(parsei32(b""), 0);
    assert_eq!(parsei32(b"999999.999"), 999999999);
}

#[test]
fn parse_splits_at_first_separator() {
    assert_eq!(parse(b"Hamburg;12.0"), Ok((b"Hamburg".to_vec(), 120)));
    assert_eq!(parse(b"St. John's;-3.9"), Ok((b"St. John's".to_vec(), -39)));
    assert_eq!(parse(b";0.1"), Ok((Vec::new(), 1)));
}

#[test]
fn parse_rounds_extra_digits_half_up() {
    assert_eq!(parse(b"T;22.45"), Ok((b"T".to_vec(), 225)));
    assert_eq!(parse(b"T;22.44"), Ok((b"T".to_vec(), 224)));
    assert_eq!(parse(b"T;-22.45"), Ok((b"T".to_vec(), -224)));
    assert_eq!(parse(b"T;-22.46"), Ok((b"T".to_vec(), -225)));
    assert_eq!(parse(b"T;0.05"), Ok((b"T".to_vec(), 1)));
}

#[test]
fn parse_refuses_malformed_lines() {
    assert_eq!(parse(b"no separator"), Err(ParseError::MissingSeparator));
    assert_eq!(parse(b""), Err(ParseError::MissingSeparator));
    assert_eq!(parse(b"A;"), Err(ParseError::InvalidValue));
    assert_eq!(parse(b"A;12"), Err(ParseError::InvalidValue));
    assert_eq!(parse(b"A;.5"), Err(ParseError::InvalidValue));
    assert_eq!(parse(b"A;5."), Err(ParseError::InvalidValue));
    assert_eq!(parse(b"A;1.2.3"), Err(ParseError::InvalidValue));
    assert_eq!(parse(b"A;1;2.0"), Err(ParseError::InvalidValue));
    assert_eq!(parse(b"A;--1.0"), Err(ParseError::InvalidValue));
    assert_eq!(parse(b"A;1.0\r"), Err(ParseError::InvalidValue));
    assert_eq!(parse(b"A;12345678.90"), Err(ParseError::InvalidValue));
    assert_eq!(parse(b"A;1234567.89"), Ok((b"A".to_vec(), 12345679)));
}

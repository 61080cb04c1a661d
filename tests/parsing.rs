use mmft::error::RegionError;
use mmft::parse::{parse_region, parse_size, remove_whitespace, SizeError};

#[test]
fn region_with_spaces() {
    assert_eq!(parse_region("1000 - 2000"), Ok(vec![1000, 2000]));
    assert_eq!(parse_region(" 5-\t9 "), Ok(vec![5, 9]));
    assert_eq!(parse_region("+3-4"), Ok(vec![3, 4]));
}

#[test]
fn region_errors() {
    for bad in ["5-", "-5", "1-2-3", "abc", "12", "", "1.5-3", "18446744073709551616-1"] {
        assert_eq!(parse_region(bad), Err(RegionError::CouldNotParse), "{}", bad);
    }
}

#[test]
fn whitespace_removed() {
    assert_eq!(remove_whitespace(" a b\t\nc\u{a0}"), vec!['a', 'b', 'c']);
    assert_eq!(remove_whitespace(""), Vec::<char>::new());
}

#[test]
fn size_units() {
    assert_eq!(parse_size("1500"), Ok(1500));
    assert_eq!(parse_size("2.5kb"), Ok(2500));
    assert_eq!(parse_size(" 3MB "), Ok(3_000_000));
    assert_eq!(parse_size("1gb"), Ok(1_000_000_000));
    assert_eq!(parse_size("1Gb"), Ok(1_000_000_000));
    assert_eq!(parse_size("7b"), Ok(7));
    assert_eq!(parse_size("7B"), Ok(7));
    assert_eq!(parse_size(".5kb"), Ok(500));
    assert_eq!(parse_size("5."), Ok(5));
}

#[test]
fn size_rounds_to_nearest_byte() {
    assert_eq!(parse_size("1.5b"), Ok(2));
    assert_eq!(parse_size("0.4"), Ok(0));
    assert_eq!(parse_size("0.0015kb"), Ok(2));
    assert_eq!(parse_size("1.23456mb"), Ok(1_234_560));
}

#[test]
fn size_caps_at_largest() {
    assert_eq!(parse_size("99999999999999999999gb"), Ok(usize::MAX));
}

#[test]
fn size_errors() {
    for bad in ["", "abc", ".", "kb", "1.2.3", "1 kb", "-5", "1e3"] {
        assert_eq!(parse_size(bad), Err(SizeError::InvalidFormat), "{}", bad);
    }
}

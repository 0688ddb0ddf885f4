use safe_clean::utils::{format_size, parse_size, SizeParseError};

#[test]
fn test_format_size() {
    assert_eq!(format_size(512), "512 B");
    assert_eq!(format_size(1024), "1.0 KB");
    assert_eq!(format_size(1536), "1.5 KB");
    assert_eq!(format_size(1048576), "1.0 MB");
}

#[test]
fn test_parse_size() {
    assert_eq!(parse_size("1024").unwrap(), 1024);
    assert_eq!(parse_size("1KB").unwrap(), 1024);
    assert_eq!(parse_size("1.5MB").unwrap(), 1572864);
    assert_eq!(parse_size("2GB").unwrap(), 2147483648);
}

#[test]
fn format_size_zero_and_boundaries() {
    assert_eq!(format_size(0), "0 B");
    assert_eq!(format_size(1023), "1023 B");
    // Just below the next unit the value still renders in the smaller one.
    assert_eq!(format_size(1048575), "1024.0 KB");
    assert_eq!(format_size(1073741824), "1.0 GB");
    assert_eq!(format_size(1099511627776), "1.0 TB");
    assert_eq!(format_size(u64::MAX), "16777216.0 TB");
}

#[test]
fn format_size_rounds_to_one_decimal() {
    // 1136 / 1024 = 1.109...: rounds down to 1.1.
    assert_eq!(format_size(1136), "1.1 KB");
    // 1188 / 1024 = 1.160...: rounds to 1.2.
    assert_eq!(format_size(1188), "1.2 KB");
}

#[test]
fn parse_size_trims_and_ignores_case() {
    assert_eq!(parse_size(" 100kb ").unwrap(), 102400);
    assert_eq!(parse_size("2tb").unwrap(), 2199023255552);
    assert_eq!(parse_size("3Mb").unwrap(), 3145728);
    assert_eq!(parse_size("10b").unwrap(), 10);
}

#[test]
fn parse_size_fractions_round_down() {
    assert_eq!(parse_size("0.5KB").unwrap(), 512);
    assert_eq!(parse_size("1.5KB").unwrap(), 1536);
    // 0.001KB = 1.024 bytes: the exact product is floored.
    assert_eq!(parse_size("0.001KB").unwrap(), 1);
    assert_eq!(parse_size("2.75GB").unwrap(), 2952790016);
    assert_eq!(parse_size("5.B").unwrap(), 5);
    assert_eq!(parse_size(".5KB").unwrap(), 512);
}

#[test]
fn parse_size_rejects_missing_unit() {
    assert_eq!(parse_size("abc"), Err(SizeParseError::InvalidFormat));
    assert_eq!(parse_size(""), Err(SizeParseError::InvalidFormat));
    assert_eq!(parse_size("100X"), Err(SizeParseError::InvalidFormat));
    // A bare numeral too large for a byte count carries no unit to fall
    // back on.
    assert_eq!(parse_size("18446744073709551616"), Err(SizeParseError::InvalidFormat));
}

#[test]
fn parse_size_rejects_malformed_numbers() {
    assert_eq!(parse_size("1..5MB"), Err(SizeParseError::InvalidNumber));
    assert_eq!(parse_size(".MB"), Err(SizeParseError::InvalidNumber));
    assert_eq!(parse_size("KB"), Err(SizeParseError::InvalidNumber));
    assert_eq!(parse_size("1,5MB"), Err(SizeParseError::InvalidNumber));
}

#[test]
fn parse_size_saturates_huge_values() {
    assert_eq!(parse_size("99999999999999999999TB").unwrap(), u64::MAX);
}

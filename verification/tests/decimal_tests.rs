use fflogs_manager::parse_usize;
use fflogs_manager::usize_to_decimal;

#[test]
fn format_single_digits() {
    assert_eq!(usize_to_decimal(0), "0");
    assert_eq!(usize_to_decimal(7), "7");
    assert_eq!(usize_to_decimal(9), "9");
}

#[test]
fn format_larger_numbers() {
    assert_eq!(usize_to_decimal(10), "10");
    assert_eq!(usize_to_decimal(42), "42");
    assert_eq!(usize_to_decimal(100), "100");
    assert_eq!(usize_to_decimal(98765), "98765");
}

#[test]
fn format_max() {
    assert_eq!(usize_to_decimal(usize::MAX), usize::MAX.to_string());
}

#[test]
fn parse_plain_numbers() {
    assert_eq!(parse_usize("0"), Some(0));
    assert_eq!(parse_usize("2"), Some(2));
    assert_eq!(parse_usize("41"), Some(41));
    assert_eq!(parse_usize("007"), Some(7));
}

#[test]
fn parse_with_plus_sign() {
    assert_eq!(parse_usize("+5"), Some(5));
    assert_eq!(parse_usize("+"), None);
    assert_eq!(parse_usize("++1"), None);
}

#[test]
fn parse_rejects_non_numerals() {
    assert_eq!(parse_usize(""), None);
    assert_eq!(parse_usize("abc"), None);
    assert_eq!(parse_usize("1a"), None);
    assert_eq!(parse_usize("-3"), None);
    assert_eq!(parse_usize("1.5"), None);
    assert_eq!(parse_usize(" 1"), None);
}

#[test]
fn parse_bounds() {
    let max = usize::MAX.to_string();
    assert_eq!(parse_usize(&max), Some(usize::MAX));
    let over = format!("{}0", usize::MAX);
    assert_eq!(parse_usize(&over), None);
}

#[test]
fn parse_agrees_with_std() {
    for s in ["12", "+12", "0", "99999", "x", "", "+", "12 "] {
        assert_eq!(parse_usize(s), s.parse::<usize>().ok());
    }
}

use tickwheel::parse::parse_u64;

#[test]
fn parses_plain_numbers() {
    assert_eq!(parse_u64("0"), Some(0));
    assert_eq!(parse_u64("7"), Some(7));
    assert_eq!(parse_u64("123456789"), Some(123456789));
    assert_eq!(parse_u64("0005"), Some(5));
}

#[test]
fn accepts_a_leading_plus_sign() {
    assert_eq!(parse_u64("+42"), Some(42));
    assert_eq!(parse_u64("+0"), Some(0));
}

#[test]
fn rejects_malformed_text() {
    assert_eq!(parse_u64(""), None);
    assert_eq!(parse_u64("+"), None);
    assert_eq!(parse_u64("-1"), None);
    assert_eq!(parse_u64("12a"), None);
    assert_eq!(parse_u64("1 2"), None);
    assert_eq!(parse_u64("4.5"), None);
}

#[test]
fn enforces_the_64_bit_range() {
    assert_eq!(parse_u64("18446744073709551615"), Some(u64::MAX));
    assert_eq!(parse_u64("18446744073709551616"), None);
    assert_eq!(parse_u64("99999999999999999999999"), None);
}

#[test]
fn agrees_with_the_standard_parser() {
    for text in ["0", "10", "+99", "18446744073709551615", "18446744073709551616", "", "+", "x"] {
        assert_eq!(parse_u64(text), text.parse::<u64>().ok(), "on {:?}", text);
    }
}

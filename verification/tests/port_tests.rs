use oden::port::parse_port;

#[test]
fn ordinary_ports_parse() {
    assert_eq!(parse_port(b"8080"), Some(8080));
    assert_eq!(parse_port(b"1"), Some(1));
    assert_eq!(parse_port(b"65535"), Some(65535));
}

#[test]
fn leading_zeros_are_decimal_text() {
    assert_eq!(parse_port(b"007"), Some(7));
}

#[test]
fn out_of_range_ports_are_rejected() {
    assert_eq!(parse_port(b"0"), None);
    assert_eq!(parse_port(b"65536"), None);
    assert_eq!(parse_port(b"99999999999999999999"), None);
}

#[test]
fn non_numeric_text_is_rejected() {
    assert_eq!(parse_port(b""), None);
    assert_eq!(parse_port(b"80a"), None);
    assert_eq!(parse_port(b"+80"), None);
    assert_eq!(parse_port(b"-1"), None);
    assert_eq!(parse_port(b" 80"), None);
}

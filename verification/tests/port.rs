use file_sharing::port::parse_port;

#[test]
fn port_is_read() {
    assert_eq!(parse_port("8080"), Some(8080));
    assert_eq!(parse_port("0"), Some(0));
    assert_eq!(parse_port("65535"), Some(65535));
    assert_eq!(parse_port("+443"), Some(443));
    assert_eq!(parse_port("000022"), Some(22));
}

#[test]
fn other_texts_are_no_port() {
    for text in ["", "+", "-1", "65536", "99999999999999999999", "80 ", " 80", "8o", "++1", "1+", "٣"] {
        assert_eq!(parse_port(text), None, "{text}");
    }
}

#[test]
fn port_is_read_as_a_number_of_16_bits_is() {
    for text in [
        "", "+", "-", "-0", "+0", "0", "00000000000000000000065535", "65535", "65536", "70000", "1_0",
        "0x10", "12a", "+12", "1 2", "9",
    ] {
        assert_eq!(parse_port(text), text.parse::<u16>().ok(), "{text}");
    }
}

#[test]
fn decimal_digits_of_a_port_are_read_back() {
    for port in [0u16, 1, 9, 10, 80, 999, 8080, 10_000, 65_534, 65_535] {
        assert_eq!(parse_port(&format!("{port}")), Some(port));
        assert_eq!(parse_port(&format!("+{port}")), Some(port));
    }
}

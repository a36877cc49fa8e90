use udp_forwarder::text::{chars_of, decimal_string, parse_u16_chars, signed_decimal_string, string_from_chars};

fn parse(s: &str) -> Option<u16> {
    parse_u16_chars(&chars_of(s))
}

#[test]
fn decimal_numbers() {
    assert_eq!(decimal_string(0), "0");
    assert_eq!(decimal_string(7), "7");
    assert_eq!(decimal_string(5300), "5300");
    assert_eq!(decimal_string(u64::MAX), u64::MAX.to_string());
    assert_eq!(signed_decimal_string(-42), "-42");
    assert_eq!(signed_decimal_string(i32::MIN), i32::MIN.to_string());
}

#[test]
fn port_parsing_agrees_with_std() {
    for s in ["0", "5300", "65535", "65536", "+80", "+", "-1", "", " 1", "1 ", "007", "99999999999", "12a"] {
        assert_eq!(parse(s), s.parse::<u16>().ok(), "{:?}", s);
    }
}

#[test]
fn decimal_parses_back() {
    for n in [0u16, 1, 9, 10, 65535] {
        assert_eq!(parse(&decimal_string(n as u64)), Some(n));
    }
}

#[test]
fn chars_round_trip() {
    let s = "héllo — ok";
    assert_eq!(string_from_chars(&chars_of(s)), s);
}

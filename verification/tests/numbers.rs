use midi_mapper::number::{parse_u8, u8_from_i128, u8_from_u128};

#[test]
fn parse_decimal_bytes() {
    assert_eq!(parse_u8("42"), Some(42));
    assert_eq!(parse_u8("0"), Some(0));
    assert_eq!(parse_u8("255"), Some(255));
    assert_eq!(parse_u8("007"), Some(7));
    assert_eq!(parse_u8("+7"), Some(7));
}

#[test]
fn parse_refuses_what_std_refuses() {
    for s in ["", "+", "256", "1000", "-1", "1a", " 1", "1 ", "++1", "0x10"] {
        assert_eq!(parse_u8(s), None, "{:?}", s);
        assert!(s.parse::<u8>().is_err());
    }
}

#[test]
fn parse_agrees_with_std() {
    for n in 0..400u32 {
        let s = n.to_string();
        assert_eq!(parse_u8(&s), s.parse::<u8>().ok());
        let p = format!("+{}", n);
        assert_eq!(parse_u8(&p), p.parse::<u8>().ok());
    }
}

#[test]
fn integers_in_byte_range() {
    assert_eq!(u8_from_i128(-1), None);
    assert_eq!(u8_from_i128(0), Some(0));
    assert_eq!(u8_from_i128(255), Some(255));
    assert_eq!(u8_from_i128(256), None);
    assert_eq!(u8_from_u128(255), Some(255));
    assert_eq!(u8_from_u128(u128::MAX), None);
}

use space_game::text::{parse_decimal_u32, push_decimal};

#[test]
fn parse_plain_and_signed() {
    assert_eq!(parse_decimal_u32("42"), Some(42));
    assert_eq!(parse_decimal_u32("+7"), Some(7));
    assert_eq!(parse_decimal_u32("007"), Some(7));
    assert_eq!(parse_decimal_u32("0"), Some(0));
}

#[test]
fn parse_refuses_what_std_refuses() {
    for s in ["", "+", "-", "-1", "1a", " 1", "1 ", "++1", "١"] {
        assert_eq!(parse_decimal_u32(s), None, "{:?}", s);
        assert_eq!(parse_decimal_u32(s), s.parse::<u32>().ok(), "{:?}", s);
    }
}

#[test]
fn parse_bounds() {
    assert_eq!(parse_decimal_u32("4294967295"), Some(u32::MAX));
    assert_eq!(parse_decimal_u32("4294967296"), None);
    assert_eq!(parse_decimal_u32("99999999999999999999"), None);
}

#[test]
fn parse_agrees_with_std_on_samples() {
    for s in ["+0", "00000000004294967295", "123456", "+4294967296", "12x"] {
        assert_eq!(parse_decimal_u32(s), s.parse::<u32>().ok(), "{:?}", s);
    }
}

#[test]
fn push_decimal_writes_digits() {
    let mut s = String::from("n=");
    push_decimal(&mut s, 0);
    assert_eq!(s, "n=0");
    let mut t = String::new();
    push_decimal(&mut t, 12345);
    assert_eq!(t, "12345");
    let mut u = String::new();
    push_decimal(&mut u, u64::MAX);
    assert_eq!(u, u64::MAX.to_string());
}

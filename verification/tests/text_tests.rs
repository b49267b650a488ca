use ch4::text::{dec_u64, dec_width_u64, is_ascii_printable, parse_num, push_hex_byte, str_eq,
    to_upper};

#[test]
fn decimal_rendering() {
    assert_eq!(dec_u64(0), "0");
    assert_eq!(dec_u64(7), "7");
    assert_eq!(dec_u64(12345), "12345");
    assert_eq!(dec_u64(u64::MAX), "18446744073709551615");
    assert_eq!(dec_width_u64(0), 1);
    assert_eq!(dec_width_u64(999), 3);
    assert_eq!(dec_width_u64(1000), 4);
}

#[test]
fn hex_bytes_are_two_lowercase_digits() {
    let mut s = String::new();
    push_hex_byte(&mut s, 0x00);
    push_hex_byte(&mut s, 0x0f);
    push_hex_byte(&mut s, 0xab);
    push_hex_byte(&mut s, 0xff);
    assert_eq!(s, "000fabff");
}

#[test]
fn number_parsing_follows_std() {
    assert_eq!(parse_num("0", 255), Some(0));
    assert_eq!(parse_num("255", 255), Some(255));
    assert_eq!(parse_num("256", 255), None);
    assert_eq!(parse_num("+5", 255), Some(5));
    assert_eq!(parse_num("007", 255), Some(7));
    assert_eq!(parse_num("", 255), None);
    assert_eq!(parse_num("+", 255), None);
    assert_eq!(parse_num("4096x", 65535), None);
    assert_eq!(parse_num("99999999999999999999999", 65535), None);
    assert_eq!(parse_num("-1", 255), None);
}

#[test]
fn ascii_case_folding() {
    assert_eq!(to_upper("mx."), "MX.");
    assert_eq!(to_upper("Type300"), "TYPE300");
    assert_eq!(to_upper("ALREADY"), "ALREADY");
    assert_eq!(to_upper(""), "");
}

#[test]
fn string_equality_is_character_exact() {
    assert!(str_eq("abc", "abc"));
    assert!(!str_eq("abc", "abd"));
    assert!(!str_eq("abc", "ab"));
    assert!(str_eq("", ""));
}

#[test]
fn printable_range() {
    assert!(is_ascii_printable(&0x20));
    assert!(is_ascii_printable(&0x7e));
    assert!(!is_ascii_printable(&0x1f));
    assert!(!is_ascii_printable(&0x7f));
}

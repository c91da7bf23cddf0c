use vnscope::text::{format_i64, parse_bool, parse_i32, parse_i64, parse_u64, parse_usize, text_is};

#[test]
fn integers_read_as_from_str_does() {
    assert_eq!(parse_i32("42"), Some(42));
    assert_eq!(parse_i32("+42"), Some(42));
    assert_eq!(parse_i32("-42"), Some(-42));
    assert_eq!(parse_i32("007"), Some(7));
    assert_eq!(parse_i32("-0"), Some(0));
    assert_eq!(parse_i32("2147483647"), Some(i32::MAX));
    assert_eq!(parse_i32("-2147483648"), Some(i32::MIN));
    assert_eq!(parse_i32("2147483648"), None);
    assert_eq!(parse_i32(""), None);
    assert_eq!(parse_i32("+"), None);
    assert_eq!(parse_i32("-"), None);
    assert_eq!(parse_i32(" 1"), None);
    assert_eq!(parse_i32("1a"), None);
    assert_eq!(parse_i64("-9223372036854775808"), Some(i64::MIN));
    assert_eq!(parse_u64("18446744073709551615"), Some(u64::MAX));
    assert_eq!(parse_u64("18446744073709551616"), None);
    assert_eq!(parse_u64("-0"), None);
    assert_eq!(parse_usize("27"), Some(27));
    for s in ["12", "-3", "+8", "x", "", "99999999999", "-2147483649"] {
        assert_eq!(parse_i32(s), s.parse::<i32>().ok());
        assert_eq!(parse_u64(s), s.parse::<u64>().ok());
    }
}

#[test]
fn flags_read_as_from_str_does() {
    assert_eq!(parse_bool("true"), Some(true));
    assert_eq!(parse_bool("false"), Some(false));
    assert_eq!(parse_bool("True"), None);
    assert_eq!(parse_bool("1"), None);
}

#[test]
fn decimal_text_round_trips() {
    for v in [0i64, 7, -7, 10, 1234567890, i64::MAX, i64::MIN] {
        let s = format_i64(v);
        assert_eq!(s, v.to_string());
        assert_eq!(parse_i64(&s), Some(v));
    }
}

#[test]
fn text_equality_is_exact() {
    assert!(text_is("abc", "abc"));
    assert!(!text_is("abc", "abd"));
    assert!(!text_is("abc", "ab"));
    assert!(text_is("", ""));
    assert!(text_is("héllo", "héllo"));
}

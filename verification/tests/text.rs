use versioned_kv::decimal::{parse_number, parse_signed, parse_unsigned, push_digits};
use versioned_kv::decimal::{render_signed, render_unsigned};
use versioned_kv::snapshot::{push_escaped, read_field_at, Stop};
use versioned_kv::text::chars_of;
use versioned_kv::{Key, Text};

#[test]
fn chars_of_gives_the_characters_in_order() {
    assert_eq!(chars_of(""), Vec::<char>::new());
    assert_eq!(chars_of("a,b"), vec!['a', ',', 'b']);
    assert_eq!(chars_of("é日🙂"), vec!['é', '日', '🙂']);
}

#[test]
fn a_string_is_its_own_text() {
    assert_eq!("a,b;c".to_string().to_text(), "a,b;c");
    assert_eq!(String::new().to_text(), "");
    assert_eq!(String::from_text(""), Some(String::new()));
    assert_eq!(String::from_text(" 1\\2 "), Some(" 1\\2 ".to_string()));
    assert!("abc".to_string().same(&"abc".to_string()));
    assert!(!"abc".to_string().same(&"abd".to_string()));
    assert!(!"abc".to_string().same(&"ab".to_string()));
}

#[test]
fn integers_are_written_in_decimal() {
    assert_eq!(0i32.to_text(), "0");
    assert_eq!(11i32.to_text(), "11");
    assert_eq!((-7i32).to_text(), "-7");
    assert_eq!(i32::MAX.to_text(), "2147483647");
    assert_eq!(i32::MIN.to_text(), "-2147483648");
    assert_eq!(i64::MAX.to_text(), "9223372036854775807");
    assert_eq!(i64::MIN.to_text(), "-9223372036854775808");
    assert_eq!(0u32.to_text(), "0");
    assert_eq!(u32::MAX.to_text(), "4294967295");
    assert_eq!(u64::MAX.to_text(), "18446744073709551615");
    assert_eq!(1000u64.to_text(), "1000");
    assert_eq!(render_signed(-120), "-120");
    assert_eq!(render_unsigned(9), "9");
    assert_eq!(render_unsigned(10), "10");
}

#[test]
fn push_digits_appends() {
    let mut s = String::from("n=");
    push_digits(&mut s, 4096);
    assert_eq!(s, "n=4096");
    push_digits(&mut s, 0);
    assert_eq!(s, "n=40960");
}

#[test]
fn signed_integers_are_read_from_decimal() {
    assert_eq!(i32::from_text("0"), Some(0));
    assert_eq!(i32::from_text("11"), Some(11));
    assert_eq!(i32::from_text("-7"), Some(-7));
    assert_eq!(i32::from_text("+7"), Some(7));
    assert_eq!(i32::from_text("007"), Some(7));
    assert_eq!(i32::from_text("-0"), Some(0));
    assert_eq!(i32::from_text("2147483647"), Some(i32::MAX));
    assert_eq!(i32::from_text("-2147483648"), Some(i32::MIN));
    assert_eq!(i32::from_text("0000000000000000000000002147483647"), Some(i32::MAX));
    assert_eq!(i64::from_text("9223372036854775807"), Some(i64::MAX));
    assert_eq!(i64::from_text("-9223372036854775808"), Some(i64::MIN));
    assert_eq!(i64::from_text("-9223372036854775807"), Some(i64::MIN + 1));
}

#[test]
fn what_is_no_signed_integer_is_not_read() {
    assert_eq!(i32::from_text(""), None);
    assert_eq!(i32::from_text("-"), None);
    assert_eq!(i32::from_text("+"), None);
    assert_eq!(i32::from_text("+-1"), None);
    assert_eq!(i32::from_text("--1"), None);
    assert_eq!(i32::from_text("1-"), None);
    assert_eq!(i32::from_text(" 1"), None);
    assert_eq!(i32::from_text("1 "), None);
    assert_eq!(i32::from_text("1_000"), None);
    assert_eq!(i32::from_text("12a"), None);
    assert_eq!(i32::from_text("1.0"), None);
    assert_eq!(i32::from_text("٣"), None);
    assert_eq!(i32::from_text("2147483648"), None);
    assert_eq!(i32::from_text("-2147483649"), None);
    assert_eq!(i32::from_text("99999999999999999999999999999999999999999"), None);
    assert_eq!(i64::from_text("9223372036854775808"), None);
    assert_eq!(i64::from_text("-9223372036854775809"), None);
    assert_eq!(i64::from_text("-18446744073709551616"), None);
}

#[test]
fn unsigned_integers_are_read_from_decimal() {
    assert_eq!(u32::from_text("0"), Some(0));
    assert_eq!(u32::from_text("+42"), Some(42));
    assert_eq!(u32::from_text("4294967295"), Some(u32::MAX));
    assert_eq!(u32::from_text("4294967296"), None);
    assert_eq!(u32::from_text("-1"), None);
    assert_eq!(u32::from_text("-0"), None);
    assert_eq!(u32::from_text(""), None);
    assert_eq!(u32::from_text("+"), None);
    assert_eq!(u64::from_text("18446744073709551615"), Some(u64::MAX));
    assert_eq!(u64::from_text("18446744073709551616"), None);
    assert_eq!(u64::from_text("98446744073709551615"), None);
    assert_eq!(u64::from_text("184467440737095516150"), None);
    assert_eq!(u64::from_text("00018446744073709551615"), Some(u64::MAX));
}

#[test]
fn integers_read_as_the_standard_library_reads_them() {
    let texts = [
        "", "0", "-0", "+0", "1", "-1", "+1", "00", "010", "-", "+", "++1", "a", "1a", " 1",
        "2147483647", "2147483648", "-2147483648", "-2147483649", "4294967295", "4294967296",
        "9223372036854775807", "9223372036854775808", "-9223372036854775808",
        "-9223372036854775809", "18446744073709551615", "18446744073709551616", "1e3", "0x10",
    ];
    for t in texts.iter() {
        assert_eq!(i32::from_text(t), t.parse::<i32>().ok());
        assert_eq!(i64::from_text(t), t.parse::<i64>().ok());
        assert_eq!(u32::from_text(t), t.parse::<u32>().ok());
        assert_eq!(u64::from_text(t), t.parse::<u64>().ok());
    }
    let numbers = [0i64, 1, -1, 9, 10, -10, 99, 100, 12345, -98765, i64::MAX, i64::MIN];
    for n in numbers.iter() {
        assert_eq!(n.to_text(), n.to_string());
        assert_eq!(i64::from_text(&n.to_text()), Some(*n));
    }
}

#[test]
fn integers_within_limits() {
    assert_eq!(parse_signed("-5", -5, 5), Some(-5));
    assert_eq!(parse_signed("-6", -5, 5), None);
    assert_eq!(parse_signed("5", -5, 5), Some(5));
    assert_eq!(parse_signed("6", -5, 5), None);
    assert_eq!(parse_signed("-0", 0, 0), Some(0));
    assert_eq!(parse_signed("-1", 0, 0), None);
    assert_eq!(parse_unsigned("255", 255), Some(255));
    assert_eq!(parse_unsigned("256", 255), None);
    assert_eq!(parse_unsigned("+0", 0), Some(0));
    let s = chars_of("ab123");
    assert_eq!(parse_number(&s, 2, 1000), Some(123));
    assert_eq!(parse_number(&s, 2, 122), None);
    assert_eq!(parse_number(&s, 1, 1000), None);
    assert_eq!(parse_number(&s, 5, 1000), None);
    assert_eq!(parse_number(&s, 4, 3), Some(3));
}

#[test]
fn integers_are_compared_by_value() {
    assert!(5i32.same(&5));
    assert!(!5i32.same(&-5));
    assert!(7u64.same(&7));
    assert!(!7u64.same(&8));
    assert!(0i64.same(&0));
    assert!(!1u32.same(&0));
}

#[test]
fn push_escaped_puts_a_backslash_before_a_separator() {
    let mut s = String::from(">");
    push_escaped(&mut s, "plain");
    assert_eq!(s, ">plain");
    push_escaped(&mut s, "");
    assert_eq!(s, ">plain");
    push_escaped(&mut s, ",;\\");
    assert_eq!(s, ">plain\\,\\;\\\\");
    push_escaped(&mut s, "a,é");
    assert_eq!(s, ">plain\\,\\;\\\\a\\,é");
}

#[test]
fn read_field_at_stops_at_a_separator() {
    let s = chars_of("ab,c\\;d;\\\\");
    assert_eq!(read_field_at(&s, 0), ("ab".to_string(), Stop::Comma, 3));
    assert_eq!(read_field_at(&s, 1), ("b".to_string(), Stop::Comma, 3));
    assert_eq!(read_field_at(&s, 2), ("".to_string(), Stop::Comma, 3));
    assert_eq!(read_field_at(&s, 3), ("c;d".to_string(), Stop::Semicolon, 8));
    assert_eq!(read_field_at(&s, 8), ("\\".to_string(), Stop::End, 10));
    assert_eq!(read_field_at(&s, 10), ("".to_string(), Stop::End, 10));
}

#[test]
fn read_field_at_stops_at_a_misplaced_backslash() {
    let s = chars_of("ab\\cd");
    assert_eq!(read_field_at(&s, 0), ("ab".to_string(), Stop::Broken, 2));
    let t = chars_of("ab\\");
    assert_eq!(read_field_at(&t, 0), ("ab".to_string(), Stop::Broken, 2));
    assert_eq!(read_field_at(&t, 2), ("".to_string(), Stop::Broken, 2));
}

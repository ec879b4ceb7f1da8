use advent::text::{
    parse_i32, parse_i64, parse_u32, rsplit_once, slice, split, split_once, split_once_at,
    starts_with, strip_newline, trim_end,
};

fn chars(s: &str) -> Vec<char> {
    s.chars().collect()
}

fn text(v: &Vec<char>) -> String {
    v.iter().collect()
}

#[test]
fn parse_i32_plain_and_signed() {
    assert_eq!(parse_i32(&chars("0")), Some(0));
    assert_eq!(parse_i32(&chars("42")), Some(42));
    assert_eq!(parse_i32(&chars("-17")), Some(-17));
    assert_eq!(parse_i32(&chars("+8")), Some(8));
    assert_eq!(parse_i32(&chars("007")), Some(7));
}

#[test]
fn parse_i32_limits() {
    assert_eq!(parse_i32(&chars("2147483647")), Some(i32::MAX));
    assert_eq!(parse_i32(&chars("-2147483648")), Some(i32::MIN));
    assert_eq!(parse_i32(&chars("2147483648")), None);
    assert_eq!(parse_i32(&chars("-2147483649")), None);
    assert_eq!(parse_i32(&chars("99999999999999999999999999")), None);
}

#[test]
fn parse_i32_rejects_malformed() {
    assert_eq!(parse_i32(&chars("")), None);
    assert_eq!(parse_i32(&chars("-")), None);
    assert_eq!(parse_i32(&chars("+")), None);
    assert_eq!(parse_i32(&chars("12a")), None);
    assert_eq!(parse_i32(&chars(" 12")), None);
    assert_eq!(parse_i32(&chars("1-2")), None);
}

#[test]
fn parse_agrees_with_std() {
    for s in ["0", "-0", "+0", "123", "-999", "4294967295", "4294967296", "x", "", "--1", "1 "] {
        assert_eq!(parse_i32(&chars(s)), s.parse::<i32>().ok(), "i32 {}", s);
        assert_eq!(parse_u32(&chars(s)), s.parse::<u32>().ok(), "u32 {}", s);
        assert_eq!(parse_i64(&chars(s)), s.parse::<i64>().ok(), "i64 {}", s);
    }
}

#[test]
fn parse_i64_limits() {
    assert_eq!(parse_i64(&chars("9223372036854775807")), Some(i64::MAX));
    assert_eq!(parse_i64(&chars("-9223372036854775808")), Some(i64::MIN));
    assert_eq!(parse_i64(&chars("9223372036854775808")), None);
    assert_eq!(parse_i64(&chars("-9223372036854775809")), None);
}

#[test]
fn parse_u32_rejects_minus() {
    assert_eq!(parse_u32(&chars("-1")), None);
    assert_eq!(parse_u32(&chars("-0")), None);
    assert_eq!(parse_u32(&chars("4294967295")), Some(u32::MAX));
    assert_eq!(parse_u32(&chars("4294967296")), None);
}

#[test]
fn split_once_takes_first_separator() {
    let (a, b) = split_once(&chars("a-b-c"), '-').unwrap();
    assert_eq!((text(&a), text(&b)), ("a".to_string(), "b-c".to_string()));
    assert!(split_once(&chars("abc"), '-').is_none());
    let (a, b) = split_once(&chars("-"), '-').unwrap();
    assert!(a.is_empty() && b.is_empty());
}

#[test]
fn rsplit_once_takes_last_separator() {
    let (a, b) = rsplit_once(&chars("a b c"), ' ').unwrap();
    assert_eq!((text(&a), text(&b)), ("a b".to_string(), "c".to_string()));
    assert!(rsplit_once(&chars("abc"), ' ').is_none());
}

#[test]
fn split_once_at_pattern() {
    let (a, b) = split_once_at(&chars("CH -> B"), &chars(" -> ")).unwrap();
    assert_eq!((text(&a), text(&b)), ("CH".to_string(), "B".to_string()));
    let (a, b) = split_once_at(&chars("1..2..3"), &chars("..")).unwrap();
    assert_eq!((text(&a), text(&b)), ("1".to_string(), "2..3".to_string()));
    assert!(split_once_at(&chars("1.2"), &chars("..")).is_none());
}

#[test]
fn split_like_std() {
    for s in ["3,4,3,1,2", "", ",", "a,,b", ",x,"] {
        let parts: Vec<String> = split(&chars(s), ',').iter().map(text).collect();
        let want: Vec<String> = s.split(',').map(|p| p.to_string()).collect();
        assert_eq!(parts, want, "{:?}", s);
    }
}

#[test]
fn trim_and_strip() {
    assert_eq!(text(&trim_end(&chars("abc \t\n"))), "abc");
    assert_eq!(text(&trim_end(&chars("  a b"))), "  a b");
    assert_eq!(text(&trim_end(&chars(" \n"))), "");
    assert_eq!(text(&strip_newline(&chars("abc\n"))), "abc");
    assert_eq!(text(&strip_newline(&chars("abc\n\n"))), "abc\n");
    assert_eq!(text(&strip_newline(&chars("abc"))), "abc");
}

#[test]
fn starts_with_and_slice() {
    assert!(starts_with(&chars("on x=1"), &chars("on ")));
    assert!(!starts_with(&chars("off x=1"), &chars("on ")));
    assert!(!starts_with(&chars("o"), &chars("on ")));
    assert!(starts_with(&chars("abc"), &chars("")));
    assert_eq!(text(&slice(&chars("hello"), 1, 3)), "el");
}

#[test]
fn decimal_digits() {
    let show = |n: u64| -> String { advent::text::decimal(n).into_iter().collect() };
    assert_eq!(show(0), "0");
    assert_eq!(show(7), "7");
    assert_eq!(show(10), "10");
    assert_eq!(show(4096), "4096");
    assert_eq!(show(1234567890), "1234567890");
    assert_eq!(show(u64::MAX), "18446744073709551615");
}

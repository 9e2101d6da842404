use swl::text::{
    contains, decimal_of_i64, decimal_of_usize, digit_in_radix, digit_to_char, ends_with, matches_at, parse_integer,
    parse_usize, push_range, push_text, starts_with, string_of, string_of_range, text_eq, to_chars,
};

#[test]
fn texts_and_characters() {
    let chars = to_chars("a\u{e9}\u{1f600}b");
    assert_eq!(chars, vec!['a', '\u{e9}', '\u{1f600}', 'b']);
    assert_eq!(string_of(&chars), "a\u{e9}\u{1f600}b");
    assert_eq!(string_of_range(&chars, 1, 3), "\u{e9}\u{1f600}");
    assert_eq!(string_of_range(&chars, 2, 2), "");
    let mut out = String::from("x");
    push_range(&mut out, &chars, 0, 2);
    push_text(&mut out, "yz");
    assert_eq!(out, "xa\u{e9}yz");
    assert!(to_chars("").is_empty());
}

#[test]
fn comparing_and_searching() {
    assert!(text_eq("", ""));
    assert!(text_eq("module", "module"));
    assert!(!text_eq("module", "modul"));
    assert!(!text_eq("modul", "module"));
    assert!(!text_eq("a\u{e9}", "ae"));
    assert!(starts_with("offset=4", "offset="));
    assert!(starts_with("x", ""));
    assert!(!starts_with("offset", "offset="));
    assert!(ends_with("i32.constexpr", ".constexpr"));
    assert!(ends_with("x", ""));
    assert!(!ends_with("constexpr", ".constexpr"));
    assert!(contains("i32.load8_u", ".load"));
    assert!(contains("abc", ""));
    assert!(contains("", ""));
    assert!(!contains("i32load", ".load"));
    assert!(!contains("", "a"));
    let text = to_chars("abcabc");
    assert!(matches_at(&text, 3, &to_chars("abc")));
    assert!(!matches_at(&text, 4, &to_chars("abc")));
    assert!(matches_at(&text, 6, &to_chars("")));
    assert!(!matches_at(&text, 7, &to_chars("")));
}

#[test]
fn digits() {
    assert_eq!(digit_in_radix('7', 8), Some(7));
    assert_eq!(digit_in_radix('8', 8), None);
    assert_eq!(digit_in_radix('f', 16), Some(15));
    assert_eq!(digit_in_radix('F', 16), Some(15));
    assert_eq!(digit_in_radix('z', 36), Some(35));
    assert_eq!(digit_in_radix('g', 16), None);
    assert_eq!(digit_in_radix('_', 36), None);
    assert_eq!(digit_in_radix('\u{663}', 10), None);
    let all: String = (0u8..16).map(digit_to_char).collect();
    assert_eq!(all, "0123456789abcdef");
}

#[test]
fn integers_from_text() {
    let parse = |s: &str, radix: u32, signed: bool, min: i128, max: i128| {
        parse_integer(&to_chars(s), 0, radix, signed, min, max)
    };
    assert_eq!(parse("0", 10, false, 0, 10), Some(0));
    assert_eq!(parse("+10", 10, false, 0, 10), Some(10));
    assert_eq!(parse("11", 10, false, 0, 10), None);
    assert_eq!(parse("-1", 10, false, 0, 10), None);
    assert_eq!(parse("-1", 10, true, -1, 10), Some(-1));
    assert_eq!(parse("-2", 10, true, -1, 10), None);
    assert_eq!(parse("-0", 10, true, 0, 0), Some(0));
    assert_eq!(parse("", 10, true, -5, 5), None);
    assert_eq!(parse("+", 10, true, -5, 5), None);
    assert_eq!(parse("-", 10, true, -5, 5), None);
    assert_eq!(parse("+-1", 10, true, -5, 5), None);
    assert_eq!(parse("1_0", 10, true, -50, 50), None);
    assert_eq!(parse("zz", 36, true, 0, 2000), Some(1295));
    assert_eq!(parse("18446744073709551616", 10, false, 0, 18446744073709551616), Some(18446744073709551616));
    assert_eq!(parse("18446744073709551617", 10, false, 0, 18446744073709551616), None);
    assert_eq!(parse("00000000000000000000000000000000000000000000000007", 10, false, 0, 7), Some(7));
    assert_eq!(parse("99999999999999999999999999999999999999999999999999", 10, false, 0, 7), None);
    assert_eq!(parse_integer(&to_chars("0x1f"), 2, 16, true, 0, 100), Some(31));
    assert_eq!(parse_integer(&to_chars("0x"), 2, 16, true, 0, 100), None);
    assert_eq!(parse_usize("65536"), Some(65536));
    assert_eq!(parse_usize("+0"), Some(0));
    assert_eq!(parse_usize("18446744073709551615"), Some(usize::MAX));
    assert_eq!(parse_usize("18446744073709551616"), None);
    assert_eq!(parse_usize("-0"), None);
    assert_eq!(parse_usize("1 "), None);
    assert_eq!(parse_usize("$1"), None);
}

#[test]
fn integers_to_text() {
    assert_eq!(decimal_of_usize(0), "0");
    assert_eq!(decimal_of_usize(9), "9");
    assert_eq!(decimal_of_usize(10), "10");
    assert_eq!(decimal_of_usize(65536), "65536");
    assert_eq!(decimal_of_usize(usize::MAX), usize::MAX.to_string());
    assert_eq!(decimal_of_i64(0), "0");
    assert_eq!(decimal_of_i64(-1), "-1");
    assert_eq!(decimal_of_i64(129), "129");
    assert_eq!(decimal_of_i64(i64::MAX), "9223372036854775807");
    assert_eq!(decimal_of_i64(i64::MIN), "-9223372036854775808");
}

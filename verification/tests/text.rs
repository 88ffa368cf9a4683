use blame::decimal::{parse_i64, push_decimal};
use blame::text::{
    find_char, from_chars, is_whitespace, next_line, precedes, split_lines, starts_with_at,
    to_chars, trim, trim_bounds,
};

fn chars(s: &str) -> Vec<char> {
    s.chars().collect()
}

#[test]
fn to_chars_and_back() {
    let v = to_chars("héllo");
    assert_eq!(v, vec!['h', 'é', 'l', 'l', 'o']);
    assert_eq!(from_chars(&v, 0, 5), "héllo");
    assert_eq!(from_chars(&v, 1, 3), "él");
    assert_eq!(from_chars(&v, 2, 2), "");
    assert_eq!(to_chars(""), Vec::<char>::new());
}

#[test]
fn whitespace_is_the_unicode_property() {
    for c in ['\t', '\n', '\u{0B}', '\u{0C}', '\r', ' ', '\u{85}', '\u{A0}', '\u{1680}',
        '\u{2000}', '\u{2005}', '\u{200A}', '\u{2028}', '\u{2029}', '\u{202F}', '\u{205F}',
        '\u{3000}']
    {
        assert!(is_whitespace(c), "{:?}", c);
    }
    for c in ['a', '0', '\u{08}', '\u{0E}', '\u{200B}', '\u{1FFF}', '\u{FEFF}', '\u{180E}'] {
        assert!(!is_whitespace(c), "{:?}", c);
    }
}

#[test]
fn whitespace_agrees_with_std_on_every_char() {
    let mut u: u32 = 0;
    while u <= 0x10FFFF {
        if let Some(c) = char::from_u32(u) {
            assert_eq!(is_whitespace(c), c.is_whitespace(), "U+{:04X}", u);
        }
        u += 1;
    }
}

#[test]
fn trim_removes_space_at_both_ends_only() {
    assert_eq!(trim("  a b \n"), "a b");
    assert_eq!(trim("\u{3000}x\u{A0}"), "x");
    assert_eq!(trim("x"), "x");
    assert_eq!(trim(""), "");
    assert_eq!(trim(" \t\r\n"), "");
    assert_eq!(trim_bounds(&chars("  ab ")), (2, 4));
    assert_eq!(trim_bounds(&chars("   ")), (3, 3));
}

#[test]
fn trim_agrees_with_std() {
    for s in ["", " ", "a", " a", "a ", "\n a\tb \r\n", "\u{2003}é\u{2003}", "null\n"] {
        assert_eq!(trim(s), s.trim());
    }
}

#[test]
fn split_lines_splits_at_line_feeds() {
    assert_eq!(split_lines("a\nb\nc"), vec!["a", "b", "c"]);
    assert_eq!(split_lines("a\nb\n"), vec!["a", "b"]);
    assert_eq!(split_lines(""), Vec::<String>::new());
    assert_eq!(split_lines("\n"), vec![""]);
    assert_eq!(split_lines("\n\n"), vec!["", ""]);
    assert_eq!(split_lines("a\r\nb\r\n"), vec!["a", "b"]);
    assert_eq!(split_lines("a\rb\n"), vec!["a\rb"]);
    assert_eq!(split_lines("a\r"), vec!["a\r"]);
    assert_eq!(split_lines("a\r\r\n"), vec!["a\r"]);
}

#[test]
fn split_lines_agrees_with_std() {
    for s in ["", "\n", "a", "a\n", "a\nb", "a\r\nb\r", "\r\n\r\n", "x\n\ny\n", "\r", "é\nü"] {
        let expected: Vec<String> = s.lines().map(|l| l.to_string()).collect();
        assert_eq!(split_lines(s), expected, "{:?}", s);
    }
}

#[test]
fn next_line_gives_content_and_rest() {
    let v = chars("ab\r\ncd\nef");
    assert_eq!(next_line(&v, 0), (2, 4));
    assert_eq!(next_line(&v, 4), (6, 7));
    assert_eq!(next_line(&v, 7), (9, 9));
    assert_eq!(next_line(&v, 3), (3, 4));
}

#[test]
fn find_char_gives_the_first_position() {
    let v = chars("a/b/c");
    assert_eq!(find_char(&v, 0, 5, '/'), 1);
    assert_eq!(find_char(&v, 2, 5, '/'), 3);
    assert_eq!(find_char(&v, 4, 5, '/'), 5);
    assert_eq!(find_char(&v, 0, 1, '/'), 1);
    assert_eq!(find_char(&v, 1, 1, '/'), 1);
}

#[test]
fn starts_with_at_looks_inside_the_range_only() {
    let v = chars("xxauthor Bob");
    assert!(starts_with_at(&v, 2, 12, "author "));
    assert!(!starts_with_at(&v, 0, 12, "author "));
    assert!(!starts_with_at(&v, 2, 8, "author "));
    assert!(starts_with_at(&v, 2, 9, "author "));
    assert!(starts_with_at(&v, 5, 5, ""));
    assert!(!starts_with_at(&v, 2, 12, "author-"));
}

#[test]
fn precedes_is_lexicographic_by_code_point() {
    assert!(precedes("a", "b"));
    assert!(!precedes("b", "a"));
    assert!(!precedes("a", "a"));
    assert!(precedes("", "a"));
    assert!(!precedes("a", ""));
    assert!(!precedes("", ""));
    assert!(precedes("ab", "abc"));
    assert!(precedes("Z", "a"));
    assert!(precedes("z", "é"));
    assert!(precedes("a2@x.com", "a@x.com"));
}

#[test]
fn precedes_agrees_with_std_order() {
    let words = ["", "a", "A", "ab", "abc", "b", "é", "z", "a@x.com", "a2@x.com", "\u{10FFFF}"];
    for x in words {
        for y in words {
            assert_eq!(precedes(x, y), x < y, "{:?} {:?}", x, y);
        }
    }
}

#[test]
fn push_decimal_writes_the_numeral() {
    for (n, text) in [(0u64, "0"), (7, "7"), (10, "10"), (99, "99"), (100, "100"), (12345, "12345"),
        (u64::MAX, "18446744073709551615")]
    {
        let mut s = String::from("n=");
        push_decimal(&mut s, n);
        assert_eq!(s, format!("n={}", text));
    }
}

#[test]
fn parse_i64_reads_sign_and_digits() {
    let cases: [(&str, Option<i64>); 16] = [
        ("0", Some(0)),
        ("-0", Some(0)),
        ("+0", Some(0)),
        ("42", Some(42)),
        ("-42", Some(-42)),
        ("+42", Some(42)),
        ("007", Some(7)),
        ("", None),
        ("-", None),
        ("+", None),
        ("4 2", None),
        ("42x", None),
        ("--1", None),
        ("9223372036854775807", Some(i64::MAX)),
        ("9223372036854775808", None),
        ("-9223372036854775808", Some(i64::MIN)),
    ];
    for (text, expected) in cases {
        let v = chars(text);
        assert_eq!(parse_i64(&v, 0, v.len()), expected, "{:?}", text);
        assert_eq!(text.parse::<i64>().ok(), expected, "{:?}", text);
    }
    let v = chars("-9223372036854775809");
    assert_eq!(parse_i64(&v, 0, v.len()), None);
    let v = chars("000000000000000000000000000000000000005");
    assert_eq!(parse_i64(&v, 0, v.len()), Some(5));
    let v = chars("99999999999999999999999999999999999999999999");
    assert_eq!(parse_i64(&v, 0, v.len()), None);
    let v = chars("ab123cd");
    assert_eq!(parse_i64(&v, 2, 5), Some(123));
    assert_eq!(parse_i64(&v, 2, 6), None);
}

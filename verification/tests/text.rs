use kovi_plugin_transfer::num::{parse_i64, parse_usize, push_dec_i64, push_dec_u64};
use kovi_plugin_transfer::text::{
    chars_of, contains_str, is_whitespace, split_whitespace, str_eq, string_from_chars, trim,
};

const SAMPLES: &[&str] = &[
    "", "0", "-0", "+0", "7", "+7", "-7", "+", "-", "--1", "+-1", "1+", " 1", "1 ", "12a", "a12",
    "007", "9223372036854775807", "9223372036854775808", "-9223372036854775808",
    "-9223372036854775809", "18446744073709551615", "18446744073709551616",
    "99999999999999999999999", "１２", "1_000", "0x10", "123456", "789012",
];

#[test]
fn parse_i64_agrees_with_std() {
    for s in SAMPLES {
        assert_eq!(parse_i64(s), s.parse::<i64>().ok(), "input {:?}", s);
    }
}

#[test]
fn parse_usize_agrees_with_std() {
    for s in SAMPLES {
        assert_eq!(parse_usize(s), s.parse::<usize>().ok(), "input {:?}", s);
    }
}

#[test]
fn decimal_rendering_matches_format() {
    for n in [0i64, 1, -1, 9, 10, -10, 123456, i64::MAX, i64::MIN] {
        let mut s = String::from("x");
        push_dec_i64(&mut s, n);
        assert_eq!(s, format!("x{}", n));
    }
    for n in [0u64, 5, 10, 99, 100, u64::MAX] {
        let mut s = String::new();
        push_dec_u64(&mut s, n);
        assert_eq!(s, n.to_string());
    }
}

#[test]
fn decimal_then_parse_gives_the_number_back() {
    for n in [0i64, 42, -42, 1_000_000_007, i64::MAX, i64::MIN] {
        let mut s = String::new();
        push_dec_i64(&mut s, n);
        assert_eq!(parse_i64(&s), Some(n));
    }
}

#[test]
fn whitespace_matches_char_is_whitespace() {
    for u in 0u32..=0x10FFFF {
        if let Some(c) = char::from_u32(u) {
            assert_eq!(is_whitespace(c), c.is_whitespace(), "char {:#x}", u);
        }
    }
}

#[test]
fn trim_matches_std() {
    for s in ["", "  ", " a ", "\u{3000}/transfer list\u{85}", "x", "\t a b \n", "\u{a0}z"] {
        let t = trim(&chars_of(s));
        let expected: Vec<char> = s.trim().chars().collect();
        assert_eq!(t, expected);
    }
}

#[test]
fn split_whitespace_matches_std() {
    for s in [
        "",
        "   ",
        "/transfer add private 1 -> group 2",
        "  a\u{2003}b\t\tc\n",
        "one",
        "\u{205f}x\u{3000}y ",
    ] {
        let words = split_whitespace(&chars_of(s));
        let expected: Vec<String> = s.split_whitespace().map(String::from).collect();
        assert_eq!(words, expected);
    }
}

#[test]
fn string_helpers() {
    assert!(str_eq("abc", "abc"));
    assert!(!str_eq("abc", "abd"));
    assert!(!str_eq("ab", "abc"));
    assert_eq!(string_from_chars(&['转', '发']), "转发");
    assert!(contains_str(&chars_of("image/gif; q=1"), "gif"));
    assert!(!contains_str(&chars_of("image/png"), "gif"));
    assert!(!contains_str(&chars_of("gi"), "gif"));
    assert!(contains_str(&chars_of("gif"), "gif"));
}

use auxbookmark::number::{decimal_text, parse_i64, parse_u16, parse_u64, parse_usize, signed_text};
use auxbookmark::text::{
    byte_offset, chars_of, contains_text, copy_part, ends_with, eq_ignore_ascii_case, find_text,
    is_white_space, replace_set, split_text, starts_with, strip_prefix, strip_suffix, text_eq,
    text_less, trim, trim_set, CharSet,
};

#[test]
fn white_space_is_that_of_unicode() {
    let mut n: u32 = 0;
    while n <= 0x10ffff {
        if let Some(c) = char::from_u32(n) {
            assert_eq!(is_white_space(c), c.is_whitespace(), "{:x}", n);
        }
        n += 1;
    }
}

#[test]
fn trimming_agrees_with_the_standard_library() {
    for s in ["", " ", "\u{3000}a b\u{a0}", "x", "\t\r\nx y\n", "ゴミ箱 "] {
        assert_eq!(trim(s), s.trim());
        assert_eq!(trim_set(s, CharSet::One('x')), s.trim_matches('x'));
    }
}

#[test]
fn searching_agrees_with_the_standard_library() {
    for (s, p) in [
        ("places.sqlite", "sqlite"),
        ("", ""),
        ("abc", ""),
        ("aab", "ab"),
        ("ab", "abc"),
        ("ブックマーク", "クマ"),
        ("xyz", "q"),
    ] {
        assert_eq!(contains_text(s, p), s.contains(p));
        assert_eq!(starts_with(s, p), s.starts_with(p));
        assert_eq!(ends_with(s, p), s.ends_with(p));
        assert_eq!(strip_prefix(s, p), s.strip_prefix(p));
        assert_eq!(strip_suffix(s, p), s.strip_suffix(p));
        assert_eq!(
            find_text(&chars_of(s), p),
            s.find(p).map(|at| s[..at].chars().count())
        );
        assert_eq!(text_eq(s, p), s == p);
        assert_eq!(text_less(s, p), s < p);
        assert_eq!(text_less(p, s), p < s);
    }
}

#[test]
fn ascii_case_is_ignored_and_no_other() {
    assert!(eq_ignore_ascii_case("BrAvE", "bRaVe"));
    assert!(!eq_ignore_ascii_case("É", "é"));
    assert!(!eq_ignore_ascii_case("Brave", "Brav"));
}

#[test]
fn splitting_and_replacing() {
    assert_eq!(split_text("a//b", '/'), vec!["a", "", "b"]);
    assert_eq!(split_text("", '/'), vec![""]);
    assert_eq!(replace_set("a\tb\nc", CharSet::Three('\t', '\r', '\n'), " "), "a b c");
    assert_eq!(replace_set("a\tb\nc", CharSet::Three('\t', '\r', '\n'), ""), "abc");
    let list = vec!["a".to_string(), "b".to_string(), "c".to_string()];
    assert_eq!(copy_part(&list, 1, 3), vec!["b", "c"]);
}

#[test]
fn bytes_are_counted_as_in_utf8() {
    let s = "aé箱𠮷";
    let chars = chars_of(s);
    assert_eq!(byte_offset(&chars, 4), 10);
    assert_eq!(byte_offset(&chars, 2), 3);
}

#[test]
fn numbers_are_read_as_the_standard_library_reads_them() {
    for s in [
        "", "0", "+7", "-1", "00012", "18446744073709551615", "18446744073709551616", "1 ", "x",
        "+", "-", "-9223372036854775808", "9223372036854775808", "65535", "65536", "１",
    ] {
        assert_eq!(parse_u64(s), s.parse::<u64>().ok(), "{}", s);
        assert_eq!(parse_usize(s), s.parse::<usize>().ok(), "{}", s);
        assert_eq!(parse_u16(s), s.parse::<u16>().ok(), "{}", s);
        assert_eq!(parse_i64(s), s.parse::<i64>().ok(), "{}", s);
    }
}

#[test]
fn numbers_are_written_in_decimal() {
    assert_eq!(decimal_text(0), "0");
    assert_eq!(decimal_text(340282366920938463463374607431768211455), u128::MAX.to_string());
    assert_eq!(signed_text(i64::MIN), "-9223372036854775808");
    assert_eq!(signed_text(-7), "-7");
    assert_eq!(signed_text(42), "42");
}

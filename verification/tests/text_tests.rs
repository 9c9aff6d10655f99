use backoffice_api::text::{
    chars_of, contains_char, contains_str, decimal_i32, decimal_u32, is_space_char, join_from,
    parse_i32, split_words, trim,
};

#[test]
fn trim_removes_outer_whitespace() {
    assert_eq!(trim("  Иванов Иван \t"), "Иванов Иван");
    assert_eq!(trim("\u{3000}x\u{a0}"), "x");
    assert_eq!(trim(" \n\t "), "");
    assert_eq!(trim(""), "");
}

#[test]
fn split_words_skips_runs_of_whitespace() {
    assert_eq!(split_words("  a  bc\td \n"), vec!["a", "bc", "d"]);
    assert_eq!(split_words(""), Vec::<String>::new());
    assert_eq!(split_words("   "), Vec::<String>::new());
    assert_eq!(split_words("одно"), vec!["одно"]);
}

#[test]
fn split_words_then_join_gives_single_spaced_text() {
    let ws = split_words(" Петрович   Иванов\tмл. ");
    assert_eq!(join_from(&ws, 0, " "), "Петрович Иванов мл.");
    assert_eq!(join_from(&ws, 1, " "), "Иванов мл.");
    assert_eq!(join_from(&ws, 3, " "), "");
    assert_eq!(join_from(&ws, 0, ", "), "Петрович, Иванов, мл.");
}

#[test]
fn whitespace_is_the_unicode_set() {
    assert!(is_space_char(' '));
    assert!(is_space_char('\u{85}'));
    assert!(is_space_char('\u{2009}'));
    assert!(!is_space_char('\u{200b}'));
    assert!(!is_space_char('x'));
    for c in ['\t', '\n', '\u{b}', '\u{c}', '\r', '\u{a0}', '\u{1680}', '\u{2028}', '\u{205f}'] {
        assert_eq!(is_space_char(c), c.is_whitespace());
    }
}

#[test]
fn chars_of_lists_the_characters() {
    assert_eq!(chars_of("аб1"), vec!['а', 'б', '1']);
}

#[test]
fn contains_finds_characters_and_infixes() {
    assert!(contains_char("Ива*", '*'));
    assert!(!contains_char("Иван", '*'));
    assert!(contains_str("<img src=\"/i/right-arrow.png\">", "right-arrow.png"));
    assert!(!contains_str("<img src=\"/i/left-arrow.png\">", "right-arrow.png"));
    assert!(contains_str("abc", ""));
    assert!(!contains_str("ab", "abc"));
}

#[test]
fn parse_i32_reads_signed_decimals() {
    assert_eq!(parse_i32("-42"), Some(-42));
    assert_eq!(parse_i32("+7"), Some(7));
    assert_eq!(parse_i32("007"), Some(7));
    assert_eq!(parse_i32("2147483647"), Some(i32::MAX));
    assert_eq!(parse_i32("-2147483648"), Some(i32::MIN));
    assert_eq!(parse_i32("2147483648"), None);
    assert_eq!(parse_i32("99999999999999999999"), None);
    assert_eq!(parse_i32(""), None);
    assert_eq!(parse_i32("-"), None);
    assert_eq!(parse_i32("+"), None);
    assert_eq!(parse_i32(" 1"), None);
    assert_eq!(parse_i32("1a"), None);
}

#[test]
fn parse_i32_agrees_with_std() {
    for s in ["0", "-0", "+12", "12 ", "--1", "3000000000", "-2147483649", "١٢", "12x", "x"] {
        assert_eq!(parse_i32(s), s.parse::<i32>().ok(), "{}", s);
    }
}

#[test]
fn decimal_writes_numbers() {
    assert_eq!(decimal_i32(0), "0");
    assert_eq!(decimal_i32(-305), "-305");
    assert_eq!(decimal_i32(i32::MIN), "-2147483648");
    assert_eq!(decimal_i32(i32::MAX), "2147483647");
    assert_eq!(decimal_u32(u32::MAX), "4294967295");
    assert_eq!(decimal_u32(10), "10");
}

#[test]
fn decimal_then_parse_gives_the_number_back() {
    for n in [0, 1, -1, 9, 10, -10, 123456, i32::MIN, i32::MAX] {
        assert_eq!(parse_i32(&decimal_i32(n)), Some(n));
    }
}

#[test]
fn trim_and_split_agree_with_std() {
    for s in ["", " ", " a ", "\u{2003}a\u{2003}b\u{3000}", "a\u{200b}b", "x\r\ny", "  мир  "] {
        assert_eq!(trim(s), s.trim(), "{:?}", s);
        assert_eq!(split_words(s), s.split_whitespace().collect::<Vec<_>>(), "{:?}", s);
    }
}

#[test]
fn trimming_keeps_the_words() {
    for s in ["  a b  ", "\ta\n", "", "   "] {
        assert_eq!(split_words(&trim(s)), split_words(s));
    }
}

#[test]
fn contains_agrees_with_std() {
    for (h, n) in [("abcabd", "abd"), ("aaa", "aa"), ("", ""), ("", "a"), ("мир", "и"), ("ab", "ba")] {
        assert_eq!(contains_str(h, n), h.contains(n), "{:?} {:?}", h, n);
    }
}

use tailscale_tray::text::{
    chars_of, concat_str, contains_str, debug_opt_i32_str, eq_str, i32_decimal_str, first_word_str, is_whitespace, lex_lt_str,
    parse_u32_str, replace_all_str, starts_with_str, strip_prefix_str, substring,
    trim_end_char_str, trim_str,
};

#[test]
fn chars_of_keeps_order() {
    assert_eq!(chars_of("a🔽b"), vec!['a', '🔽', 'b']);
    assert_eq!(chars_of(""), Vec::<char>::new());
}

#[test]
fn whitespace_is_unicode_white_space() {
    for c in [' ', '\t', '\n', '\r', '\u{0b}', '\u{0c}', '\u{85}', '\u{a0}', '\u{2003}', '\u{3000}'] {
        assert!(is_whitespace(c));
        assert_eq!(is_whitespace(c), c.is_whitespace());
    }
    for c in ['a', '0', '-', '\u{200b}', '🔽'] {
        assert!(!is_whitespace(c));
        assert_eq!(is_whitespace(c), c.is_whitespace());
    }
}

#[test]
fn trim_removes_both_ends() {
    assert_eq!(trim_str("  Active: x \t\r"), "Active: x");
    assert_eq!(trim_str("\u{a0}mid dle\u{3000}"), "mid dle");
    assert_eq!(trim_str("   "), "");
    assert_eq!(trim_str(""), "");
}

#[test]
fn trim_end_char_removes_all_trailing() {
    assert_eq!(trim_end_char_str("host.tail.ts.net.", '.'), "host.tail.ts.net");
    assert_eq!(trim_end_char_str("a...", '.'), "a");
    assert_eq!(trim_end_char_str("...", '.'), "");
    assert_eq!(trim_end_char_str(".a", '.'), ".a");
}

#[test]
fn strip_prefix_gives_rest() {
    assert_eq!(strip_prefix_str("Active: on", "Active:"), Some(String::from(" on")));
    assert_eq!(strip_prefix_str("Active", "Active:"), None);
    assert_eq!(strip_prefix_str("x", ""), Some(String::from("x")));
}

#[test]
fn starts_with_and_contains() {
    assert!(starts_with_str("copy-1.2.3.4", "copy-"));
    assert!(!starts_with_str("cop", "copy-"));
    assert!(contains_str("active (running) since", "active (running)"));
    assert!(!contains_str("inactive (dead)", "active (running)"));
    assert!(contains_str("abc", ""));
    assert!(!contains_str("", "a"));
}

#[test]
fn equality_and_concat() {
    assert!(eq_str("Running", "Running"));
    assert!(!eq_str("Running", "Runnin"));
    assert_eq!(concat_str("--exit-node=", "host"), "--exit-node=host");
    assert_eq!(substring("a🔽bc", 1, 3), "🔽b");
}

#[test]
fn order_of_strings() {
    assert!(lex_lt_str("Canada", "Germany"));
    assert!(!lex_lt_str("Germany", "Canada"));
    assert!(lex_lt_str("Ger", "Germany"));
    assert!(!lex_lt_str("Germany", "Germany"));
    assert!(lex_lt_str("Zeta", "a"));
    assert_eq!(lex_lt_str("Österreich", "Zypern"), String::from("Österreich") < String::from("Zypern"));
}

#[test]
fn parse_u32_like_std() {
    for s in ["123", "+7", "0", "007", "4294967295", "4294967296", "", "+", "-1", "12a", " 1", "99999999999"] {
        assert_eq!(parse_u32_str(s), s.parse::<u32>().ok(), "{}", s);
    }
    assert_eq!(parse_u32_str("+42"), Some(42));
}

#[test]
fn first_word_of_text() {
    assert_eq!(first_word_str("1234 (dockerd)"), Some(String::from("1234")));
    assert_eq!(first_word_str("  ab\tcd"), Some(String::from("ab")));
    assert_eq!(first_word_str("   "), None);
    assert_eq!(first_word_str(""), None);
}

#[test]
fn replace_all_replaces_every_occurrence() {
    assert_eq!(replace_all_str("copy-1.2.3.4", "copy-", ""), "1.2.3.4");
    assert_eq!(replace_all_str("copy-a-copy-b", "copy-", ""), "a-b");
    assert_eq!(replace_all_str("aaa", "aa", "b"), "ba");
    for (s, p, r) in [("xcopy-copy-", "copy-", "Z"), ("abc", "d", "q"), ("", "x", "y")] {
        assert_eq!(replace_all_str(s, p, r), s.replace(p, r));
    }
}

#[test]
fn decimal_numerals_like_display() {
    for n in [0, 7, 10, 126, -1, -45, 2147483647, -2147483648] {
        assert_eq!(i32_decimal_str(n), n.to_string());
    }
    for o in [Some(0), Some(-3), Some(255), None] {
        assert_eq!(debug_opt_i32_str(o), format!("{:?}", o));
    }
}

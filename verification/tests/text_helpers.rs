use snake_tui::session::char_is_control;
use snake_tui::text::{char_is_whitespace, decimal_text};
use snake_tui::text::{has_char, same_text, split_at_char, trim};

#[test]
fn trim_removes_unicode_white_space_at_both_ends() {
    assert_eq!(trim("  a b  "), "a b");
    assert_eq!(trim("\t\n\u{3000}x\u{2028}"), "x");
    assert_eq!(trim("   "), "");
    assert_eq!(trim(""), "");
    assert_eq!(trim("\u{200b}x"), "\u{200b}x");
}

#[test]
fn same_text_compares_characters() {
    assert!(same_text("abc", "abc"));
    assert!(!same_text("abc", "abd"));
    assert!(!same_text("abc", "ab"));
    assert!(same_text("", ""));
}

#[test]
fn has_char_finds_characters() {
    assert!(has_char("red-blue", '-'));
    assert!(!has_char("red", '-'));
    assert!(has_char("→", '→'));
}

#[test]
fn split_cuts_at_every_separator() {
    assert_eq!(split_at_char("a-b-c", '-'), vec!["a", "b", "c"]);
    assert_eq!(split_at_char("abc", '-'), vec!["abc"]);
    assert_eq!(split_at_char("", '-'), vec![""]);
    assert_eq!(split_at_char("-a--", '-'), vec!["", "a", "", ""]);
}

#[test]
fn white_space_and_control_characters() {
    for c in [' ', '\t', '\n', '\r', '\u{b}', '\u{c}', '\u{85}', '\u{a0}', '\u{1680}', '\u{2000}', '\u{200a}', '\u{2028}', '\u{2029}', '\u{202f}', '\u{205f}', '\u{3000}'] {
        assert_eq!(char_is_whitespace(c), c.is_whitespace());
        assert!(char_is_whitespace(c));
    }
    for c in ['a', '\u{200b}', '\u{1f}', '-', '\u{feff}'] {
        assert_eq!(char_is_whitespace(c), c.is_whitespace());
    }
    for c in ['\u{0}', '\u{1f}', '\u{7f}', '\u{9f}', ' ', 'a', '\u{a0}', '\u{200e}'] {
        assert_eq!(char_is_control(c), c.is_control());
    }
}

#[test]
fn decimal_digits() {
    for n in [0u128, 7, 10, 99, 100, 65535, 1234567890, u128::MAX] {
        assert_eq!(decimal_text(n), n.to_string());
    }
}

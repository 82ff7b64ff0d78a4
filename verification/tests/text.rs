use log_analyzer::text::{
    chars_contain, chars_eq_ignore_ascii_case, contains, eq_ignore_ascii_case, is_whitespace,
    to_ascii_lower, to_chars, trim_range,
};

#[test]
fn is_whitespace_agrees_with_std_on_every_char() {
    let mut code: u32 = 0;
    while code <= 0x10FFFF {
        if let Some(c) = char::from_u32(code) {
            assert_eq!(is_whitespace(c), c.is_whitespace(), "U+{:04X}", code);
        }
        code += 1;
    }
}

#[test]
fn is_whitespace_on_named_characters() {
    for c in [' ', '\t', '\n', '\r', '\u{000B}', '\u{000C}', '\u{0085}', '\u{00A0}', '\u{3000}'] {
        assert!(is_whitespace(c));
    }
    for c in ['a', '|', '0', '\u{200B}', '\u{180E}', '\u{FEFF}', '\0'] {
        assert!(!is_whitespace(c));
    }
}

#[test]
fn to_ascii_lower_agrees_with_std_on_every_char() {
    let mut code: u32 = 0;
    while code <= 0x10FFFF {
        if let Some(c) = char::from_u32(code) {
            assert_eq!(to_ascii_lower(c), c.to_ascii_lowercase(), "U+{:04X}", code);
        }
        code += 1;
    }
}

#[test]
fn to_ascii_lower_on_named_characters() {
    assert_eq!(to_ascii_lower('A'), 'a');
    assert_eq!(to_ascii_lower('Z'), 'z');
    assert_eq!(to_ascii_lower('m'), 'm');
    assert_eq!(to_ascii_lower('@'), '@');
    assert_eq!(to_ascii_lower('['), '[');
    assert_eq!(to_ascii_lower('É'), 'É');
}

#[test]
fn to_chars_lists_the_characters() {
    assert_eq!(to_chars("a|é✓"), vec!['a', '|', 'é', '✓']);
    assert_eq!(to_chars(""), Vec::<char>::new());
}

#[test]
fn eq_ignore_ascii_case_folds_ascii_letters_only() {
    assert!(eq_ignore_ascii_case("error", "ERROR"));
    assert!(eq_ignore_ascii_case("ErRoR", "eRrOr"));
    assert!(eq_ignore_ascii_case("", ""));
    assert!(eq_ignore_ascii_case("warn-1", "WARN-1"));
    assert!(!eq_ignore_ascii_case("error", "errors"));
    assert!(!eq_ignore_ascii_case("error", "errar"));
    assert!(!eq_ignore_ascii_case("é", "É"));
    assert!(!eq_ignore_ascii_case("[", "{"));
    assert!(!eq_ignore_ascii_case("@", "`"));
}

#[test]
fn eq_ignore_ascii_case_agrees_with_std() {
    let words = ["", "a", "A", "info", "INFO", "Info", "inf0", "é", "É", "e", "k", "K", "\u{212A}"];
    for a in words {
        for b in words {
            assert_eq!(eq_ignore_ascii_case(a, b), a.eq_ignore_ascii_case(b), "{:?} {:?}", a, b);
            assert_eq!(
                chars_eq_ignore_ascii_case(&to_chars(a), &to_chars(b)),
                a.eq_ignore_ascii_case(b)
            );
        }
    }
}

#[test]
fn trim_range_gives_the_bounds_of_the_trimmed_part() {
    let chars = to_chars("ab|  cd e \t|fg");
    assert_eq!(trim_range(&chars, 0, 2), (0, 2));
    assert_eq!(trim_range(&chars, 3, 11), (5, 9));
    assert_eq!(trim_range(&chars, 12, 14), (12, 14));
}

#[test]
fn trim_range_of_white_space_is_empty() {
    let chars = to_chars("a \t\n b");
    let (lo, hi) = trim_range(&chars, 1, 5);
    assert_eq!(lo, hi);
    let (lo, hi) = trim_range(&chars, 3, 3);
    assert_eq!((lo, hi), (3, 3));
}

#[test]
fn contains_finds_contiguous_parts() {
    assert!(contains("failed to connect", "fail"));
    assert!(contains("failed to connect", "connect"));
    assert!(contains("failed to connect", "d t"));
    assert!(contains("failed to connect", "failed to connect"));
    assert!(!contains("failed to connect", "connected"));
    assert!(!contains("failed to connect", "Fail"));
    assert!(!contains("abc", "ac"));
    assert!(!contains("", "a"));
}

#[test]
fn contains_finds_the_empty_text_everywhere() {
    assert!(contains("abc", ""));
    assert!(contains("", ""));
}

#[test]
fn contains_agrees_with_std() {
    let texts = ["", "a", "aa", "aab", "abab", "ababc", "xyz", "ñandú", "dú", "ñ", "aaa", "baa"];
    for h in texts {
        for n in texts {
            assert_eq!(contains(h, n), h.contains(n), "{:?} {:?}", h, n);
            assert_eq!(chars_contain(&to_chars(h), &to_chars(n)), h.contains(n));
        }
    }
}

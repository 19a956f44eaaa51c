use textutils::text::{
    char_is_terminator, char_is_whitespace, line_trimmed_len, prefix_equal, same_trimmed,
    split_lines,
};

#[test]
fn whitespace_is_what_the_standard_library_calls_whitespace() {
    for code in 0..=0x10ffffu32 {
        if let Some(c) = char::from_u32(code) {
            assert_eq!(char_is_whitespace(c), c.is_whitespace(), "U+{:04X}", code);
        }
    }
}

#[test]
fn terminators_are_line_feed_and_carriage_return() {
    assert!(char_is_terminator('\n'));
    assert!(char_is_terminator('\r'));
    assert!(!char_is_terminator(' '));
    assert!(!char_is_terminator('\t'));
    assert!(!char_is_terminator('\u{2028}'));
    assert!(!char_is_terminator('a'));
}

#[test]
fn trimmed_len_leaves_out_trailing_terminators() {
    assert_eq!(line_trimmed_len(""), 0);
    assert_eq!(line_trimmed_len("\n"), 0);
    assert_eq!(line_trimmed_len("\r\n\r\n"), 0);
    assert_eq!(line_trimmed_len("abc"), 3);
    assert_eq!(line_trimmed_len("abc\n"), 3);
    assert_eq!(line_trimmed_len("abc\r\n"), 3);
    assert_eq!(line_trimmed_len("a\nb\n"), 3);
    assert_eq!(line_trimmed_len("abc \n"), 4);
    assert_eq!(line_trimmed_len("\u{e9}\u{e9}\n"), 2);
}

#[test]
fn prefix_equal_compares_the_first_characters() {
    assert!(prefix_equal("abc", "abd", 2));
    assert!(!prefix_equal("abc", "abd", 3));
    assert!(prefix_equal("abc", "xyz", 0));
    assert!(prefix_equal("\u{e9}a", "\u{e9}b", 1));
    assert!(!prefix_equal("\u{e9}a", "\u{e8}a", 1));
}

#[test]
fn same_trimmed_ignores_only_terminators() {
    assert!(same_trimmed("a\n", "a"));
    assert!(same_trimmed("a\r\n", "a\n"));
    assert!(same_trimmed("", "\n"));
    assert!(!same_trimmed("a \n", "a\n"));
    assert!(!same_trimmed("a\n", "b\n"));
    assert!(!same_trimmed("a\n", "ab\n"));
    assert!(!same_trimmed("a\tb", "a b"));
}

#[test]
fn split_lines_cuts_after_each_line_feed() {
    for text in [
        "",
        "\n",
        "a",
        "a\n",
        "a\nb",
        "a\nb\n",
        "\n\n",
        "a\r\nb\r\n",
        "a\rb\n",
        "one two\n\nthree\n four",
        "\u{e9}\n\u{1f600}\u{2028}x\n",
    ] {
        let expected: Vec<String> = text.split_inclusive('\n').map(String::from).collect();
        assert_eq!(split_lines(text), expected, "{:?}", text);
        assert_eq!(split_lines(text).concat(), text);
    }
}

#[test]
fn split_lines_keeps_terminators_and_an_unterminated_last_line() {
    assert_eq!(split_lines("a\r\nb"), vec!["a\r\n".to_string(), "b".to_string()]);
    assert!(split_lines("").is_empty());
}

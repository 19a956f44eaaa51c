use textutils::text::split_lines;
use textutils::wcr::{count, format_info, gen_config, tally, FileInfo, InputError};

fn info(num_lines: usize, num_words: usize, num_bytes: usize, num_chars: usize) -> FileInfo {
    FileInfo { num_lines, num_words, num_bytes, num_chars }
}

#[test]
fn test_count() {
    let text = "I don't want the world. I just want your half.\r\n";
    let info = count(text.as_bytes());
    assert!(info.is_ok());
    let expected = FileInfo {
        num_lines: 1,
        num_words: 10,
        num_chars: 48,
        num_bytes: 48,
    };
    assert_eq!(info.unwrap(), expected);
}

#[test]
fn count_of_empty_input_is_zero() {
    assert_eq!(count(b""), Ok(info(0, 0, 0, 0)));
    assert_eq!(tally(""), info(0, 0, 0, 0));
}

#[test]
fn count_rejects_invalid_utf8() {
    assert_eq!(count(&[0x61, 0xff, 0x0a]), Err(InputError::InvalidUtf8));
    assert_eq!(count(&[0xe2, 0x82]), Err(InputError::InvalidUtf8));
    assert_eq!(count(&[0xed, 0xa0, 0x80]), Err(InputError::InvalidUtf8));
}

#[test]
fn count_decodes_its_input() {
    let bytes = "na\u{ef}ve caf\u{e9}\n".as_bytes();
    assert_eq!(count(bytes), Ok(info(1, 2, 13, 11)));
}

#[test]
fn tally_counts_a_last_line_without_terminator() {
    assert_eq!(tally("one\ntwo"), info(2, 2, 7, 7));
    assert_eq!(tally("one\ntwo\n"), info(2, 2, 8, 8));
    assert_eq!(tally("x"), info(1, 1, 1, 1));
}

#[test]
fn tally_counts_blank_lines() {
    assert_eq!(tally("\n\n\n"), info(3, 0, 3, 3));
    assert_eq!(tally("a\n\nb\n"), info(3, 2, 5, 5));
}

#[test]
fn tally_counts_a_carriage_return_as_part_of_its_line() {
    assert_eq!(tally("a\rb\r\n"), info(1, 2, 5, 5));
}

#[test]
fn tally_splits_words_on_any_whitespace() {
    assert_eq!(tally("  a \t b\u{a0}c\u{3000}d  \n"), info(1, 4, 17, 14));
    assert_eq!(tally("   \t  "), info(1, 0, 6, 6));
}

#[test]
fn tally_counts_bytes_of_multibyte_characters() {
    // one, two, three and four bytes
    assert_eq!(tally("a\u{e9}\u{20ac}\u{1f600}"), info(1, 1, 10, 4));
}

#[test]
fn tally_bytes_are_the_sum_of_the_lines_bytes() {
    let lines = ["alpha beta\n", "\u{3b3}\u{3b4}\r\n", "\n", "last"];
    let text: String = lines.concat();
    let whole = tally(&text);
    let mut bytes = 0;
    let mut chars = 0;
    let mut words = 0;
    for line in lines.iter() {
        let one = tally(line);
        assert_eq!(one.num_lines, 1);
        assert_eq!(one.num_bytes, line.len());
        bytes += one.num_bytes;
        chars += one.num_chars;
        words += one.num_words;
    }
    assert_eq!(whole, info(4, words, bytes, chars));
    assert_eq!(whole.num_bytes, text.len());
}

#[test]
fn tally_chars_never_exceed_bytes() {
    for text in ["", "plain ascii\n", "\u{e9}t\u{e9}\n", "\u{1f600}\u{1f600}", "a\u{0}b"] {
        let t = tally(text);
        assert!(t.num_chars <= t.num_bytes);
        assert_eq!(t.num_chars == t.num_bytes, text.is_ascii());
    }
}

#[test]
fn tally_agrees_with_the_standard_library() {
    let text = "The quick\tbrown\u{2003}fox\r\njumps over\n\n the lazy dog \u{85} end";
    let t = tally(text);
    assert_eq!(t.num_words, text.split_whitespace().count());
    assert_eq!(t.num_chars, text.chars().count());
    assert_eq!(t.num_bytes, text.len());
    assert_eq!(t.num_lines, text.split_inclusive('\n').count());
}

#[test]
fn gen_config_shows_lines_words_and_bytes_by_default() {
    let c = gen_config(vec!["-".to_string()], false, false, false, false).unwrap();
    assert_eq!(c.files, vec!["-".to_string()]);
    assert!(c.lines && c.words && c.bytes && !c.chars);
}

#[test]
fn gen_config_keeps_the_flags_that_are_set() {
    let c = gen_config(vec!["a".to_string(), "b".to_string()], false, true, false, false).unwrap();
    assert_eq!(c.files, vec!["a".to_string(), "b".to_string()]);
    assert!(!c.lines && c.words && !c.bytes && !c.chars);
    let c = gen_config(vec![], false, false, false, true).unwrap();
    assert!(!c.lines && !c.words && !c.bytes && c.chars);
    let c = gen_config(vec![], true, true, true, false).unwrap();
    assert!(c.lines && c.words && c.bytes && !c.chars);
}

#[test]
fn format_info_writes_the_default_columns() {
    let c = gen_config(vec![], false, false, false, false).unwrap();
    let row = format_info(&info(1, 10, 48, 48), &c, "fox.txt");
    assert_eq!(row, "       1      10      48 fox.txt\n");
    assert_eq!(row, format!("{:>8}{:>8}{:>8} {}\n", 1, 10, 48, "fox.txt"));
}

#[test]
fn format_info_writes_only_the_columns_that_are_shown() {
    let i = info(3, 20, 100, 90);
    let c = gen_config(vec![], true, false, false, false).unwrap();
    assert_eq!(format_info(&i, &c, "-"), "       3 -\n");
    let c = gen_config(vec![], false, true, false, true).unwrap();
    assert_eq!(format_info(&i, &c, "f"), "      20      90 f\n");
    let c = gen_config(vec![], false, false, true, false).unwrap();
    assert_eq!(format_info(&i, &c, "f"), "     100 f\n");
}

#[test]
fn gen_config_refuses_bytes_together_with_chars() {
    let res = gen_config(vec!["-".to_string()], false, false, true, true);
    assert_eq!(res.unwrap_err(), "the character count cannot be shown with the byte count");
    assert!(gen_config(vec![], true, true, true, true).is_err());
}

#[test]
fn format_info_keeps_the_order_of_the_columns() {
    let mut c = gen_config(vec![], true, true, true, false).unwrap();
    c.chars = true;
    assert_eq!(format_info(&info(1, 2, 3, 4), &c, "n"), "       1       2       3       4 n\n");
}

#[test]
fn format_info_widens_a_field_for_a_long_count() {
    let c = gen_config(vec![], true, false, true, false).unwrap();
    let row = format_info(&info(123456789, 0, 12345678, 0), &c, "big");
    assert_eq!(row, "12345678912345678 big\n");
}

#[test]
fn tally_is_the_sum_over_the_lines_of_the_text() {
    let text = "alpha  beta\n\u{3b3}\u{3b4} \u{1f600}\r\n\n  last one";
    let whole = tally(text);
    let lines = split_lines(text);
    let mut sum = info(0, 0, 0, 0);
    for line in &lines {
        let one = tally(line);
        sum.num_lines += 1;
        sum.num_words += one.num_words;
        sum.num_bytes += line.len();
        sum.num_chars += line.chars().count();
        assert_eq!(one.num_bytes, line.len());
    }
    assert_eq!(whole, sum);
    assert_eq!(whole, info(4, 6, 34, 29));
}

use textutils::decimal::{decimal_len, parse_usize, push_decimal, push_right_aligned, push_spaces};

#[test]
fn parse_usize_agrees_with_the_standard_library() {
    let max = usize::MAX.to_string();
    let over = format!("{}0", max);
    let next = (usize::MAX as u128 + 1).to_string();
    let cases = [
        "", "0", "1", "42", "+42", "-42", "++1", "+", "-", "+-1", "1+", "007", "+007", "12a", "a12",
        " 12", "12 ", "1_000", "1e3", "0x1f", "\u{ff11}", "9\u{663}", max.as_str(), over.as_str(),
        next.as_str(), "99999999999999999999999999999999999999",
        "00000000000000000000000000000000000001",
    ];
    for case in cases {
        assert_eq!(parse_usize(case), case.parse::<usize>().ok(), "{:?}", case);
    }
}

#[test]
fn push_decimal_writes_the_digits() {
    for n in [0u64, 1, 9, 10, 11, 99, 100, 101, 4096, 1234567890, u64::MAX] {
        let mut out = String::from("n=");
        push_decimal(&mut out, n);
        assert_eq!(out, format!("n={}", n));
        assert_eq!(decimal_len(n), n.to_string().len());
    }
}

#[test]
fn push_spaces_writes_spaces() {
    let mut out = String::from("a");
    push_spaces(&mut out, 0);
    assert_eq!(out, "a");
    push_spaces(&mut out, 3);
    assert_eq!(out, "a   ");
}

#[test]
fn push_right_aligned_pads_to_the_width() {
    for (n, width) in [(0u64, 0usize), (0, 1), (0, 4), (7, 8), (1234, 4), (12345, 4), (999, 4)] {
        let mut out = String::from("|");
        push_right_aligned(&mut out, n, width);
        assert_eq!(out, format!("|{:>1$}", n, width));
    }
}

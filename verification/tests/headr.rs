use textutils::headr::{make_config, parse_positive_int};

#[test]
fn test_parse_positive_int() {
    let res = parse_positive_int("3");
    assert!(res.is_ok());
    assert_eq!(res.unwrap(), 3);

    let res = parse_positive_int("foo");
    assert!(res.is_err());
    assert_eq!(res.unwrap_err().to_string(), "foo".to_string());

    let res = parse_positive_int("0");
    assert!(res.is_err());
    assert_eq!(res.unwrap_err().to_string(), "0".to_string());
}

#[test]
fn parse_positive_int_hands_back_what_it_rejects() {
    for bad in ["", "+", "-1", "1.5", " 1", "1 ", "0x10", "000", "+0", "\u{661}"] {
        assert_eq!(parse_positive_int(bad), Err(bad.to_string()));
    }
}

#[test]
fn parse_positive_int_accepts_a_plus_sign_and_leading_zeros() {
    assert_eq!(parse_positive_int("+7"), Ok(7));
    assert_eq!(parse_positive_int("007"), Ok(7));
    assert_eq!(parse_positive_int("10"), Ok(10));
}

#[test]
fn parse_positive_int_stops_at_the_largest_number() {
    let max = usize::MAX.to_string();
    assert_eq!(parse_positive_int(&max), Ok(usize::MAX));
    let mut over = max.clone();
    over.push('0');
    assert_eq!(parse_positive_int(&over), Err(over.clone()));
    let next = (usize::MAX as u128 + 1).to_string();
    assert_eq!(parse_positive_int(&next), Err(next.clone()));
}

#[test]
fn make_config_rejects_a_line_count_of_zero() {
    let res = make_config(vec!["-".to_string()], "0", None);
    assert!(res.is_err());
    let message = res.unwrap_err();
    assert!(message.contains("illegal line count -- : 0"));
    assert_eq!(message, "illegal line count -- : 0");
}

#[test]
fn make_config_rejects_a_line_count_that_is_no_number() {
    let res = make_config(vec![], "ten", Some("5"));
    assert_eq!(res.unwrap_err(), "illegal line count -- : ten");
}

#[test]
fn make_config_rejects_a_bad_byte_count() {
    let res = make_config(vec![], "3", Some("0"));
    assert_eq!(res.unwrap_err(), "illegal byte count -- : 0");
    let res = make_config(vec![], "3", Some("many"));
    assert_eq!(res.unwrap_err(), "illegal byte count -- : many");
}

#[test]
fn make_config_complains_about_the_line_count_first() {
    let res = make_config(vec![], "-3", Some("-4"));
    assert_eq!(res.unwrap_err(), "illegal line count -- : -3");
}

#[test]
fn make_config_keeps_valid_counts() {
    let files = vec!["a.txt".to_string(), "-".to_string()];
    let c = make_config(files.clone(), "10", None).unwrap();
    assert_eq!(c.files, files);
    assert_eq!(c.lines, 10);
    assert_eq!(c.bytes, None);
    let c = make_config(files.clone(), "2", Some("100")).unwrap();
    assert_eq!(c.lines, 2);
    assert_eq!(c.bytes, Some(100));
}

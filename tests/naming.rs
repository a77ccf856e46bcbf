use temp_testdir::{format_decimal, next_name, parse_i32, resolve_root, ROOT_NAME_DEFAULT};

#[test]
fn next_name_appends_one_to_a_bare_name() {
    assert_eq!(next_name("rstest"), "rstest.1");
}

#[test]
fn next_name_increments_a_numeric_suffix() {
    assert_eq!(next_name("rstest.1"), "rstest.2");
    assert_eq!(next_name("rstest.9"), "rstest.10");
    assert_eq!(next_name("a.-3"), "a.-2");
    assert_eq!(next_name("a.+5"), "a.6");
    assert_eq!(next_name("a.007"), "a.8");
}

#[test]
fn next_name_replaces_a_non_numeric_extension() {
    assert_eq!(next_name("a.txt"), "a.1");
    assert_eq!(next_name("a."), "a.1");
    assert_eq!(next_name("x.y.9"), "x.y.10");
}

#[test]
fn next_name_keeps_a_leading_dot_in_the_stem() {
    assert_eq!(next_name(".hidden"), ".hidden.1");
    assert_eq!(next_name(""), ".1");
    assert_eq!(next_name(".1"), ".1.1");
}

#[test]
fn next_name_at_the_end_of_the_i32_range() {
    assert_eq!(next_name("a.2147483647"), "a.2147483648");
    assert_eq!(next_name("a.2147483648"), "a.1");
    assert_eq!(next_name("a.-2147483648"), "a.-2147483647");
}

#[test]
fn parse_i32_reads_signed_decimals() {
    assert_eq!(parse_i32("0"), Some(0));
    assert_eq!(parse_i32("+7"), Some(7));
    assert_eq!(parse_i32("-2147483648"), Some(i32::MIN));
    assert_eq!(parse_i32("2147483647"), Some(i32::MAX));
    assert_eq!(parse_i32("00012"), Some(12));
}

#[test]
fn parse_i32_refuses_what_std_refuses() {
    for s in ["", "-", "+", "2147483648", "-2147483649", "1a", " 1", "1 ", "--1", "txt", "99999999999999999999"] {
        assert_eq!(parse_i32(s), None, "{}", s);
        assert_eq!(parse_i32(s), s.parse::<i32>().ok(), "{}", s);
    }
}

#[test]
fn parse_i32_agrees_with_std() {
    for s in ["1", "-1", "+0", "-0", "42", "2147483646", "-2147483647", "0009"] {
        assert_eq!(parse_i32(s), s.parse::<i32>().ok(), "{}", s);
    }
}

#[test]
fn format_decimal_writes_as_to_string() {
    assert_eq!(format_decimal(0), "0");
    assert_eq!(format_decimal(-42), "-42");
    assert_eq!(format_decimal(1234567890123), "1234567890123");
    assert_eq!(format_decimal(i64::MAX), i64::MAX.to_string());
    assert_eq!(format_decimal(i64::MIN + 1), (i64::MIN + 1).to_string());
    assert_eq!(format_decimal(i64::MIN), i64::MIN.to_string());
}

#[test]
fn resolve_root_falls_back_to_defaults() {
    let (base, name) = resolve_root(None, None, "/var/tmp".to_string());
    assert_eq!(base, "/var/tmp");
    assert_eq!(name, "rstest");
    assert_eq!(ROOT_NAME_DEFAULT, "rstest");
}

#[test]
fn resolve_root_takes_each_override_alone() {
    let (base, name) = resolve_root(Some("b".to_string()), None, "/tmp".to_string());
    assert_eq!((base.as_str(), name.as_str()), ("b", "rstest"));
    let (base, name) = resolve_root(None, Some("n".to_string()), "/tmp".to_string());
    assert_eq!((base.as_str(), name.as_str()), ("/tmp", "n"));
}

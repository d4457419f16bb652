use image_watch::config::{parse_decimal, secs_to_millis, split_on_commas};

#[test]
fn decimal_numbers() {
    assert_eq!(parse_decimal("1000"), Some(1000));
    assert_eq!(parse_decimal("+16"), Some(16));
    assert_eq!(parse_decimal("0"), Some(0));
    assert_eq!(parse_decimal("18446744073709551615"), Some(u64::MAX));
    assert_eq!(parse_decimal("18446744073709551616"), None);
    assert_eq!(parse_decimal(""), None);
    assert_eq!(parse_decimal("+"), None);
    assert_eq!(parse_decimal("-1"), None);
    assert_eq!(parse_decimal("12a"), None);
    assert_eq!(parse_decimal(" 1"), None);
}

#[test]
fn decimal_agrees_with_std() {
    for s in ["7", "+7", "007", "99999999999999999999", "", "x", "1_0"] {
        assert_eq!(parse_decimal(s), s.parse::<u64>().ok(), "input {s:?}");
    }
}

#[test]
fn comma_pieces() {
    assert_eq!(split_on_commas("jpg,jpeg"), vec!["jpg", "jpeg"]);
    assert_eq!(split_on_commas("png"), vec!["png"]);
    assert_eq!(split_on_commas(""), vec![""]);
    assert_eq!(split_on_commas("a,,b,"), vec!["a", "", "b", ""]);
}

#[test]
fn seconds_to_millis() {
    assert_eq!(secs_to_millis(3600), Some(3_600_000));
    assert_eq!(secs_to_millis(0), Some(0));
    assert_eq!(secs_to_millis(u64::MAX), None);
    assert_eq!(secs_to_millis(9_223_372_036_854_775), Some(9_223_372_036_854_775_000));
    assert_eq!(secs_to_millis(9_223_372_036_854_776), None);
}

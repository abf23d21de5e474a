use worktable::utils::{checked_end_of_month, end_of_month, split___, split_eq};

#[test]
fn split_at_three_underscores() {
    assert_eq!(split___("head___tail"), ("head", "tail"));
    assert_eq!(split___("a___b___c"), ("a", "b___c"));
    assert_eq!(split___("___tail"), ("", "tail"));
    assert_eq!(split___("head___"), ("head", ""));
    assert_eq!(split___("a____b"), ("a", "_b"));
}

#[test]
fn split_without_three_underscores() {
    assert_eq!(split___("plain"), ("plain", ""));
    assert_eq!(split___("a__b"), ("a__b", ""));
    assert_eq!(split___(""), ("", ""));
}

#[test]
fn split_key_and_value() {
    assert_eq!(split_eq("url=https://example.org").unwrap(), ("url", "https://example.org"));
    assert_eq!(split_eq("a=b=c").unwrap(), ("a", "b=c"));
    assert_eq!(split_eq("=").unwrap(), ("", ""));
    assert_eq!(split_eq("clé=valeur").unwrap(), ("clé", "valeur"));
}

#[test]
fn split_without_equals_sign() {
    let error = split_eq("no-value").unwrap_err();
    assert_eq!(error.field, "no-value");
    assert_eq!(error.reason, "field should contain one `=` (key=value)");
    assert_eq!(error.message(), "no-value: field should contain one `=` (key=value)");
    assert!(split_eq("").is_err());
}

#[test]
fn the_end_of_a_month() {
    // 2024-01-31T00:00:00 is followed, a month later, by 2024-02-29T00:00:00.
    assert_eq!(end_of_month(1_706_659_200_000), 1_709_164_799_999);
    // 2024-10-12T13:00:00 and 2024-11-12T13:00:00.
    assert_eq!(end_of_month(1_728_738_000_000), 1_731_416_399_999);
    assert_eq!(checked_end_of_month(1_706_659_200_000), Some(1_709_164_799_999));
}

#[test]
fn no_end_of_a_month_beyond_the_calendar() {
    assert_eq!(checked_end_of_month(i64::MAX), None);
    assert_eq!(checked_end_of_month(i64::MIN), None);
    // The last month that can be represented has no month behind it.
    assert_eq!(checked_end_of_month(8_210_266_876_799_000), None);
}

use compact_tracker::decimal::{parse_i64, render_i64};

#[test]
fn render_known_values() {
    assert_eq!(render_i64(0), "0");
    assert_eq!(render_i64(7), "7");
    assert_eq!(render_i64(100), "100");
    assert_eq!(render_i64(-1), "-1");
    assert_eq!(render_i64(i64::MAX), "9223372036854775807");
    assert_eq!(render_i64(i64::MIN), "-9223372036854775808");
}

#[test]
fn parse_known_values() {
    assert_eq!(parse_i64("0"), Some(0));
    assert_eq!(parse_i64("007"), Some(7));
    assert_eq!(parse_i64("+42"), Some(42));
    assert_eq!(parse_i64("-42"), Some(-42));
    assert_eq!(parse_i64("9223372036854775807"), Some(i64::MAX));
    assert_eq!(parse_i64("-9223372036854775808"), Some(i64::MIN));
}

#[test]
fn parse_rejects_malformed() {
    assert_eq!(parse_i64(""), None);
    assert_eq!(parse_i64("-"), None);
    assert_eq!(parse_i64("+"), None);
    assert_eq!(parse_i64("12a"), None);
    assert_eq!(parse_i64(" 12"), None);
    assert_eq!(parse_i64("9223372036854775808"), None);
    assert_eq!(parse_i64("-9223372036854775809"), None);
    assert_eq!(parse_i64("99999999999999999999999999"), None);
}

#[test]
fn parse_inverts_render() {
    for v in [0i64, 1, -1, 10, -10, 123456789, -987654321, i64::MAX, i64::MIN] {
        assert_eq!(parse_i64(render_i64(v).as_str()), Some(v));
    }
}

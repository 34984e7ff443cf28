use minicc::decimal::decimal_string;

#[test]
fn integers_in_decimal() {
    assert_eq!(decimal_string(0), "0");
    assert_eq!(decimal_string(5), "5");
    assert_eq!(decimal_string(10), "10");
    assert_eq!(decimal_string(208), "208");
    assert_eq!(decimal_string(1000000007), "1000000007");
    assert_eq!(decimal_string(-1), "-1");
    assert_eq!(decimal_string(-90), "-90");
    assert_eq!(decimal_string(i64::MAX), "9223372036854775807");
    assert_eq!(decimal_string(i64::MIN), "-9223372036854775808");
}

#[test]
fn decimal_agrees_with_the_standard_library() {
    let mut value: i64 = 1;
    for _ in 0..62 {
        assert_eq!(decimal_string(value), value.to_string());
        assert_eq!(decimal_string(-value), (-value).to_string());
        assert_eq!(decimal_string(value - 1), (value - 1).to_string());
        value *= 2;
    }
}

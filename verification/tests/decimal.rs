use exercises::algorithm::decimal::{append_digits, digits_of_u64, to_decimal};

#[test]
fn decimal_of_small_values() {
    assert_eq!(to_decimal(0), "0");
    assert_eq!(to_decimal(7), "7");
    assert_eq!(to_decimal(10), "10");
    assert_eq!(to_decimal(-1), "-1");
    assert_eq!(to_decimal(1234567890), "1234567890");
    assert_eq!(to_decimal(-9001), "-9001");
}

#[test]
fn decimal_of_extreme_values() {
    assert_eq!(to_decimal(i64::MAX), "9223372036854775807");
    assert_eq!(to_decimal(i64::MIN), "-9223372036854775808");
}

#[test]
fn decimal_agrees_with_std_formatting() {
    let mut v: i64 = 1;
    for _ in 0..62 {
        assert_eq!(to_decimal(v), format!("{}", v));
        assert_eq!(to_decimal(-v), format!("{}", -v));
        assert_eq!(to_decimal(v - 1), format!("{}", v - 1));
        v *= 2;
    }
}

#[test]
fn digits_come_least_significant_first() {
    assert_eq!(digits_of_u64(0), vec![0]);
    assert_eq!(digits_of_u64(9), vec![9]);
    assert_eq!(digits_of_u64(120), vec![0, 2, 1]);
    assert_eq!(digits_of_u64(u64::MAX).len(), 20);
    let mut out = String::from("n=");
    append_digits(&mut out, &vec![0, 2, 1]);
    assert_eq!(out, "n=120");
}

use cfd_status::{u64_to_string, centi_to_string, pad_left_string, pad_right_string};

#[test]
fn decimal_rendering() {
    assert_eq!(u64_to_string(0), "0");
    assert_eq!(u64_to_string(7), "7");
    assert_eq!(u64_to_string(42), "42");
    assert_eq!(u64_to_string(1009), "1009");
    assert_eq!(u64_to_string(u64::MAX), "18446744073709551615");
}

#[test]
fn hundredths_render_with_two_decimals() {
    assert_eq!(centi_to_string(0), "0.00");
    assert_eq!(centi_to_string(5), "0.05");
    assert_eq!(centi_to_string(50), "0.50");
    assert_eq!(centi_to_string(12345), "123.45");
    assert_eq!(centi_to_string(900), "9.00");
}

#[test]
fn padding_reaches_minimum_width() {
    assert_eq!(pad_left_string("42", 8), "      42");
    assert_eq!(pad_right_string("caseA", 8), "caseA   ");
    assert_eq!(pad_left_string("0123456789", 8), "0123456789");
    assert_eq!(pad_right_string("0123456789", 8), "0123456789");
    assert_eq!(pad_left_string("", 3), "   ");
}

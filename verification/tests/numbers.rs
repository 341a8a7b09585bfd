use svt::number::{is_float, parse_i32, push_int};
use svt::time::parse_time;

fn written(v: i64) -> String {
    let mut out = Vec::new();
    push_int(&mut out, v);
    String::from_utf8(out).unwrap()
}

#[test]
fn whole_numbers_are_read() {
    assert_eq!(parse_i32(b"0"), Some(0));
    assert_eq!(parse_i32(b"4"), Some(4));
    assert_eq!(parse_i32(b"-1"), Some(-1));
    assert_eq!(parse_i32(b"+17"), Some(17));
    assert_eq!(parse_i32(b"007"), Some(7));
    assert_eq!(parse_i32(b"-0"), Some(0));
    assert_eq!(parse_i32(b"2147483647"), Some(i32::MAX));
    assert_eq!(parse_i32(b"-2147483648"), Some(i32::MIN));
}

#[test]
fn whole_numbers_out_of_range_are_refused() {
    assert_eq!(parse_i32(b"2147483648"), None);
    assert_eq!(parse_i32(b"-2147483649"), None);
    assert_eq!(parse_i32(b"99999999999999999999999999"), None);
}

#[test]
fn malformed_whole_numbers_are_refused() {
    assert_eq!(parse_i32(b""), None);
    assert_eq!(parse_i32(b"-"), None);
    assert_eq!(parse_i32(b"+"), None);
    assert_eq!(parse_i32(b" 1"), None);
    assert_eq!(parse_i32(b"1 "), None);
    assert_eq!(parse_i32(b"1.0"), None);
    assert_eq!(parse_i32(b"--1"), None);
    assert_eq!(parse_i32(b"12a"), None);
}

#[test]
fn whole_numbers_agree_with_the_standard_reader() {
    for text in ["0", "-5", "+5", "2147483647", "2147483648", "-2147483648", "", "-", "1e3", "0x10", "٣"] {
        assert_eq!(parse_i32(text.as_bytes()), text.parse::<i32>().ok(), "{}", text);
    }
}

#[test]
fn times_are_rounded_to_the_nearest_millisecond() {
    assert_eq!(parse_time(b"1000"), Some(1000));
    assert_eq!(parse_time(b"1000.4"), Some(1000));
    assert_eq!(parse_time(b"1000.5"), Some(1001));
    assert_eq!(parse_time(b"1000.49999"), Some(1000));
    assert_eq!(parse_time(b"-0.5"), Some(-1));
    assert_eq!(parse_time(b"-0.4"), Some(0));
    assert_eq!(parse_time(b"-1000.5"), Some(-1001));
    assert_eq!(parse_time(b".5"), Some(1));
    assert_eq!(parse_time(b"5."), Some(5));
    assert_eq!(parse_time(b"+12.25"), Some(12));
}

#[test]
fn times_agree_with_rounded_floats() {
    for text in [
        "0", "12", "12.5", "-12.5", "111376", "111376.75", "-3.2", ".75", "7.", "+8.5", "1e3",
        "2.5e1", "25e-1", "inf", "-inf", "NaN", "1e30", "-1e30", "1e-30",
    ] {
        let expected = text.parse::<f32>().unwrap().round() as i32;
        assert_eq!(parse_time(text.as_bytes()), Some(expected), "{}", text);
    }
}

#[test]
fn times_are_held_to_32_bits() {
    assert_eq!(parse_time(b"2147483647"), Some(i32::MAX));
    assert_eq!(parse_time(b"2147483647.5"), Some(i32::MAX));
    assert_eq!(parse_time(b"99999999999999999999"), Some(i32::MAX));
    assert_eq!(parse_time(b"-99999999999999999999"), Some(i32::MIN));
    assert_eq!(parse_time(b"-2147483648.9"), Some(i32::MIN));
}

#[test]
fn malformed_times_are_refused() {
    assert_eq!(parse_time(b""), None);
    assert_eq!(parse_time(b"."), None);
    assert_eq!(parse_time(b"-"), None);
    assert_eq!(parse_time(b"1.2.3"), None);
    assert_eq!(parse_time(b"1e"), None);
    assert_eq!(parse_time(b"e3"), None);
    assert_eq!(parse_time(b"1e3.5"), None);
    assert_eq!(parse_time(b"abc"), None);
    assert_eq!(parse_time(b" 1"), None);
    assert_eq!(parse_time(b"1,5"), None);
}

#[test]
fn an_exponent_moves_the_point() {
    assert_eq!(parse_time(b"1e3"), Some(1000));
    assert_eq!(parse_time(b"1E3"), Some(1000));
    assert_eq!(parse_time(b"1.5e3"), Some(1500));
    assert_eq!(parse_time(b"1.2345e2"), Some(123));
    assert_eq!(parse_time(b"1.2355e2"), Some(124));
    assert_eq!(parse_time(b"-1.2355e+2"), Some(-124));
    assert_eq!(parse_time(b"12345e-2"), Some(123));
    assert_eq!(parse_time(b"12355e-2"), Some(124));
    assert_eq!(parse_time(b"5e-1"), Some(1));
    assert_eq!(parse_time(b"4e-1"), Some(0));
    assert_eq!(parse_time(b"5e-2"), Some(0));
    assert_eq!(parse_time(b"9e-99999999999999999999999999"), Some(0));
    assert_eq!(parse_time(b".5e1"), Some(5));
    assert_eq!(parse_time(b"5.e0"), Some(5));
    assert_eq!(parse_time(b"0e99999999999999999999999999"), Some(0));
    assert_eq!(parse_time(b"1e99999999999999999999999999"), Some(i32::MAX));
    assert_eq!(parse_time(b"-1e10"), Some(i32::MIN));
    assert_eq!(parse_time(b"0.0000000001e10"), Some(1));
    assert_eq!(parse_time(b"2147483647e0"), Some(i32::MAX));
    assert_eq!(parse_time(b"214748364.7e1"), Some(i32::MAX));
    assert_eq!(parse_time(b"214748364.6e1"), Some(2147483646));
}

#[test]
fn what_is_no_number_is_time_zero_and_an_infinite_value_the_last_time() {
    assert_eq!(parse_time(b"nan"), Some(0));
    assert_eq!(parse_time(b"-NaN"), Some(0));
    assert_eq!(parse_time(b"inf"), Some(i32::MAX));
    assert_eq!(parse_time(b"+Infinity"), Some(i32::MAX));
    assert_eq!(parse_time(b"-inf"), Some(i32::MIN));
    assert_eq!(parse_time(b"-INFINITY"), Some(i32::MIN));
}

#[test]
fn decimal_values_are_recognised() {
    for text in [
        "0", "-100", "500.0", "-76.92308", "+1.5", ".5", "5.", "1e3", "1E3", "1.5e-3", "2e+7",
        "inf", "-inf", "+Infinity", "NaN", "nan", "INF", "0.333333333333333333333333",
    ] {
        assert!(is_float(text.as_bytes()), "{}", text);
    }
}

#[test]
fn malformed_decimal_values_are_refused() {
    for text in [
        "", "-", "+", ".", "e", "e5", "1e", "1e+", "1.2.3", "--1", " 1", "1 ", "abc", "infi",
        "infinit", "na", "1,5", "0x10", "1ee3", "1e3.5", "-.", "+.e1",
    ] {
        assert!(!is_float(text.as_bytes()), "{}", text);
    }
}

#[test]
fn decimal_values_agree_with_the_standard_reader() {
    for text in [
        "0", "-100", "500.0", ".5", "5.", "1e3", "1E-3", "inf", "-inf", "infinity", "NaN", "",
        "-", ".", "e5", "1e", "1.2.3", " 1", "1_0", "+.5", "-5.e2", ".e2", "iNf", "nAn", "+nan",
    ] {
        assert_eq!(is_float(text.as_bytes()), text.parse::<f32>().is_ok(), "{}", text);
    }
}

#[test]
fn whole_numbers_are_written_in_decimal() {
    assert_eq!(written(0), "0");
    assert_eq!(written(7), "7");
    assert_eq!(written(10), "10");
    assert_eq!(written(-1), "-1");
    assert_eq!(written(1000), "1000");
    assert_eq!(written(4294967295), "4294967295");
    assert_eq!(written(i64::MAX), "9223372036854775807");
    assert_eq!(written(i64::MIN), "-9223372036854775808");
}

#[test]
fn what_is_written_reads_back() {
    for v in [0, 1, -1, 9, 10, 99, 100, 12345, -98765, i32::MAX, i32::MIN] {
        let mut out = Vec::new();
        push_int(&mut out, v as i64);
        assert_eq!(parse_i32(&out), Some(v));
    }
}

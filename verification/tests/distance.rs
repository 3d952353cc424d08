use tour_planner::distance::{parse_distance, MAX_DISTANCE};

fn as_the_standard_library(field: &str) -> Option<u32> {
    match field.parse::<i32>() {
        Ok(v) if v >= 0 => Some(v as u32),
        _ => None,
    }
}

#[test]
fn parse_plain_number() {
    assert_eq!(parse_distance("42"), Some(42));
}

#[test]
fn parse_zero() {
    assert_eq!(parse_distance("0"), Some(0));
}

#[test]
fn parse_leading_zeros() {
    assert_eq!(parse_distance("007"), Some(7));
}

#[test]
fn parse_plus_sign() {
    assert_eq!(parse_distance("+7"), Some(7));
}

#[test]
fn parse_minus_zero_is_zero() {
    assert_eq!(parse_distance("-0"), Some(0));
    assert_eq!(parse_distance("-000"), Some(0));
}

#[test]
fn parse_negative_number_states_no_distance() {
    assert_eq!(parse_distance("-7"), None);
    assert_eq!(parse_distance("-2147483648"), None);
}

#[test]
fn parse_empty_text() {
    assert_eq!(parse_distance(""), None);
}

#[test]
fn parse_sign_alone() {
    assert_eq!(parse_distance("+"), None);
    assert_eq!(parse_distance("-"), None);
}

#[test]
fn parse_two_signs() {
    assert_eq!(parse_distance("+-3"), None);
    assert_eq!(parse_distance("--3"), None);
    assert_eq!(parse_distance("3-"), None);
}

#[test]
fn parse_rejects_spaces() {
    assert_eq!(parse_distance(" 3"), None);
    assert_eq!(parse_distance("3 "), None);
    assert_eq!(parse_distance("1 2"), None);
}

#[test]
fn parse_rejects_fraction_and_exponent() {
    assert_eq!(parse_distance("1.5"), None);
    assert_eq!(parse_distance("1e3"), None);
}

#[test]
fn parse_rejects_letters() {
    assert_eq!(parse_distance("abc"), None);
    assert_eq!(parse_distance("12km"), None);
}

#[test]
fn parse_rejects_digits_outside_ascii() {
    assert_eq!(parse_distance("\u{0661}\u{0662}"), None);
    assert_eq!(parse_distance("\u{ff11}"), None);
}

#[test]
fn parse_greatest_distance() {
    assert_eq!(MAX_DISTANCE, 2147483647);
    assert_eq!(parse_distance("2147483647"), Some(2147483647));
    assert_eq!(parse_distance("+2147483647"), Some(2147483647));
    assert_eq!(parse_distance("0000002147483647"), Some(2147483647));
}

#[test]
fn parse_beyond_greatest_distance() {
    assert_eq!(parse_distance("2147483648"), None);
    assert_eq!(parse_distance("4294967295"), None);
    assert_eq!(parse_distance("4294967296"), None);
    assert_eq!(parse_distance("21474836470"), None);
    assert_eq!(parse_distance("99999999999999999999999999"), None);
}

#[test]
fn parse_overflow_followed_by_junk() {
    assert_eq!(parse_distance("99999999999x"), None);
}

#[test]
fn parse_agrees_with_signed_integer_parsing() {
    let samples = [
        "", "0", "1", "9", "10", "123456", "2147483646", "2147483647", "2147483648", "-1", "-0",
        "+0", "+", "-", "++1", "1+", "0x10", "\u{0661}", " 1", "1\n", "000", "-000", "+000123",
        "3000000000", "-2147483648", "-2147483649", "12a", "a12", "1_000",
    ];
    for s in samples {
        assert_eq!(parse_distance(s), as_the_standard_library(s), "for {:?}", s);
    }
}

#[test]
fn parse_agrees_with_signed_integer_parsing_on_all_small_numbers() {
    let mut n: i32 = -300;
    while n <= 300 {
        let text = format!("{}", n);
        assert_eq!(parse_distance(&text), as_the_standard_library(&text));
        n += 1;
    }
}

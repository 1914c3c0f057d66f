use godot_tileset::double::{is_double, is_literal};
use godot_tileset::number::{fmt_integer, fmt_unsigned, parse_integer};
use godot_tileset::value::{Double, Vector2i};

fn integer_text(n: i64) -> Vec<u8> {
    let mut out = Vec::new();
    fmt_integer(n, &mut out);
    out
}

#[test]
fn integers_are_written_digit_by_digit() {
    assert_eq!(integer_text(0), b"0".to_vec());
    assert_eq!(integer_text(7), b"7".to_vec());
    assert_eq!(integer_text(10), b"10".to_vec());
    assert_eq!(integer_text(-1), b"-1".to_vec());
    assert_eq!(integer_text(1234567890), b"1234567890".to_vec());
    assert_eq!(integer_text(i64::MAX), b"9223372036854775807".to_vec());
    assert_eq!(integer_text(i64::MIN), b"-9223372036854775808".to_vec());
}

#[test]
fn integer_text_is_appended() {
    let mut out = b"x=".to_vec();
    fmt_integer(-42, &mut out);
    assert_eq!(out, b"x=-42".to_vec());
    fmt_unsigned(u64::MAX, &mut out);
    assert_eq!(out, b"x=-4218446744073709551615".to_vec());
}

#[test]
fn integer_literals_are_read() {
    assert_eq!(parse_integer(b"0"), Some(0));
    assert_eq!(parse_integer(b"-0"), Some(0));
    assert_eq!(parse_integer(b"0042"), Some(42));
    assert_eq!(parse_integer(b"-9223372036854775808"), Some(i64::MIN));
    assert_eq!(parse_integer(b"9223372036854775807"), Some(i64::MAX));
}

#[test]
fn what_is_no_integer_literal_is_not_read() {
    assert_eq!(parse_integer(b""), None);
    assert_eq!(parse_integer(b"-"), None);
    assert_eq!(parse_integer(b"+5"), None);
    assert_eq!(parse_integer(b"12a"), None);
    assert_eq!(parse_integer(b"1.5"), None);
    assert_eq!(parse_integer(b"--5"), None);
    assert_eq!(parse_integer(b"9223372036854775808"), None);
    assert_eq!(parse_integer(b"-9223372036854775809"), None);
    assert_eq!(parse_integer(b"99999999999999999999999999999999999999"), None);
}

#[test]
fn reading_the_text_of_an_integer_gives_it_back() {
    for n in [0i64, 1, -1, 9, 10, -10, 99, 100, 4096, -65536, i64::MAX, i64::MIN] {
        assert_eq!(parse_integer(&integer_text(n)), Some(n));
    }
}

#[test]
fn number_literals_are_told_from_other_text() {
    assert!(is_literal(b"1"));
    assert!(is_literal(b"-1.5e3"));
    assert!(is_literal(b"007"));
    assert!(is_literal(b".5") == false);
    assert!(!is_literal(b""));
    assert!(!is_literal(b"1e"));
    assert!(!is_literal(b"1 "));
    assert!(!is_literal(b"1.5.2"));
    assert!(!is_literal(b"99999999999999999999"));
    assert!(is_literal(b"99999999999999999999.0"));
}

#[test]
fn text_of_a_finite_number_has_no_leading_zeros_as_integer() {
    assert!(is_double(b"5"));
    assert!(is_double(b"-5"));
    assert!(is_double(b"0.50"));
    assert!(is_double(b"1e16"));
    assert!(!is_double(b"05"));
    assert!(!is_double(b"-0"));
    assert!(!is_double(b"inf"));
    assert!(!is_double(b""));
}

#[test]
fn shortest_form_loses_its_point_zero() {
    assert_eq!(Double::from_shortest(b"1.0"), Some(Double::Finite(b"1".to_vec())));
    assert_eq!(Double::from_shortest(b"-12.0"), Some(Double::Finite(b"-12".to_vec())));
    assert_eq!(Double::from_shortest(b"100.0"), Some(Double::Finite(b"100".to_vec())));
}

#[test]
fn shortest_form_of_zero_is_zero() {
    assert_eq!(Double::from_shortest(b"0.0"), Some(Double::Finite(b"0".to_vec())));
    assert_eq!(Double::from_shortest(b"-0.0"), Some(Double::Finite(b"0".to_vec())));
    assert_eq!(Double::from_shortest(b"0e0"), Some(Double::Finite(b"0".to_vec())));
    assert_eq!(Double::from_shortest(b"0"), Some(Double::Finite(b"0".to_vec())));
}

#[test]
fn shortest_form_with_fraction_or_exponent_is_kept() {
    assert_eq!(Double::from_shortest(b"0.1"), Some(Double::Finite(b"0.1".to_vec())));
    assert_eq!(Double::from_shortest(b"1.5e-7"), Some(Double::Finite(b"1.5e-7".to_vec())));
    assert_eq!(Double::from_shortest(b"1e16"), Some(Double::Finite(b"1e16".to_vec())));
    assert_eq!(Double::from_shortest(b"-2.5"), Some(Double::Finite(b"-2.5".to_vec())));
    assert_eq!(Double::from_shortest(b"1.05"), Some(Double::Finite(b"1.05".to_vec())));
}

#[test]
fn what_is_no_number_has_no_shortest_form() {
    assert_eq!(Double::from_shortest(b""), None);
    assert_eq!(Double::from_shortest(b"NaN"), None);
    assert_eq!(Double::from_shortest(b"inf"), None);
    assert_eq!(Double::from_shortest(b"1e"), None);
    assert_eq!(Double::from_shortest(b"1.0 "), None);
    assert_eq!(Double::from_shortest(b"007.0"), None);
    assert_eq!(Double::from_shortest(b"99999999999999999999.0"), None);
}

#[test]
fn vector_of_a_size() {
    assert_eq!(Vector2i::from([16u32, 32u32]), Vector2i { x: 16, y: 32 });
    assert_eq!(
        Vector2i::from([u32::MAX, 0u32]),
        Vector2i { x: 4294967295, y: 0 }
    );
}

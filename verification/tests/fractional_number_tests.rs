use ficsit_companion_rs::FractionalNumber;

fn value(f: &FractionalNumber) -> f64 {
    f.numerator() as f64 / f.denominator() as f64
}

#[test]
fn test_basic_creation() {
    let f = FractionalNumber::new(3, 4);
    assert_eq!(f.numerator(), 3);
    assert_eq!(f.denominator(), 4);
    assert_eq!(value(&f), 0.75);
}

#[test]
fn test_simplification() {
    let f = FractionalNumber::new(6, 8);
    assert_eq!(f.numerator(), 3);
    assert_eq!(f.denominator(), 4);
}

#[test]
fn test_arithmetic() {
    let a = FractionalNumber::new(1, 2);
    let b = FractionalNumber::new(1, 3);

    let sum = a.add(b);
    assert_eq!(sum.numerator(), 5);
    assert_eq!(sum.denominator(), 6);

    let diff = a.sub(b);
    assert_eq!(diff.numerator(), 1);
    assert_eq!(diff.denominator(), 6);

    let prod = a.mul(b);
    assert_eq!(prod.numerator(), 1);
    assert_eq!(prod.denominator(), 6);

    let quot = a.div(b);
    assert_eq!(quot.numerator(), 3);
    assert_eq!(quot.denominator(), 2);
}

#[test]
fn test_to_fraction_string() {
    let f = FractionalNumber::new(9, 16);
    assert_eq!(f.to_fraction_string(), "9/16");

    let g = FractionalNumber::new(5, 1);
    assert_eq!(g.to_fraction_string(), "5");
}

#[test]
fn negative_denominator_is_normalized() {
    let f = FractionalNumber::new(3, -6);
    assert_eq!(f.numerator(), -1);
    assert_eq!(f.denominator(), 2);
    assert_eq!(f.to_fraction_string(), "-1/2");
}

#[test]
fn checked_operations_detect_overflow() {
    let big = FractionalNumber::new(i64::MAX, 1);
    assert!(big.checked_add(big).is_none());
    assert!(big.checked_mul(FractionalNumber::new(2, 1)).is_none());
    assert!(FractionalNumber::new(1, 1).checked_div(FractionalNumber::new(0, 1)).is_none());
    assert_eq!(
        FractionalNumber::new(1, 2).checked_add(FractionalNumber::new(1, 2)),
        Some(FractionalNumber::new(1, 1))
    );
}

#[test]
fn zero_and_sign() {
    assert!(FractionalNumber::default().is_zero());
    assert!(FractionalNumber::new(-1, 3).is_negative());
    assert_eq!(FractionalNumber::new(-1, 3).abs(), FractionalNumber::new(1, 3));
    assert!(FractionalNumber::new(1, 3).lt(&FractionalNumber::new(1, 2)));
    assert!(FractionalNumber::new(2, 4).value_eq(&FractionalNumber::new(1, 2)));
}

#[test]
fn test_parse_decimal() {
    let f = FractionalNumber::from_string("1.5").unwrap();
    assert_eq!(f.numerator(), 3);
    assert_eq!(f.denominator(), 2);
}

#[test]
fn test_parse_expression() {
    let f = FractionalNumber::from_string("1 + 2").unwrap();
    assert_eq!(f.numerator(), 3);
    assert_eq!(f.denominator(), 1);

    let f = FractionalNumber::from_string("1 + 2 * 3").unwrap();
    assert_eq!(f.numerator(), 7);
    assert_eq!(f.denominator(), 1);

    let f = FractionalNumber::from_string("(1 + 2) * 3").unwrap();
    assert_eq!(f.numerator(), 9);
    assert_eq!(f.denominator(), 1);
}

#[test]
fn test_parse_decimal_division() {
    let f = FractionalNumber::from_string("300.0/75.000000").unwrap();
    assert_eq!(value(&f), 4.0);
    assert_eq!(f.numerator(), 4);
    assert_eq!(f.denominator(), 1);
}

#[test]
fn test_to_string() {
    let f = FractionalNumber::new(3, 4);
    assert_eq!(f.to_fraction_string(), "3/4");
    assert_eq!(format!("{:.3}", value(&f)), "0.750");

    let g = FractionalNumber::new(5, 1);
    assert_eq!(g.to_fraction_string(), "5");
}

#[test]
fn test_from_fraction_string() {
    let f = FractionalNumber::from_string("9/16").unwrap();
    assert_eq!(f.to_fraction_string(), "9/16");
}

#[test]
fn test_negative_number_parsing() {
    let n1 = FractionalNumber::from_string("-5").expect("failed to parse -5");
    assert_eq!(n1.numerator(), -5);
    assert_eq!(n1.denominator(), 1);

    let n2 = FractionalNumber::from_string("-3.5").expect("failed to parse -3.5");
    assert!((value(&n2) + 3.5).abs() < 1e-9);

    let n3 = FractionalNumber::from_string("-3/4").expect("failed to parse -3/4");
    assert_eq!(n3.numerator(), -3);
    assert_eq!(n3.denominator(), 4);

    let n4 = FractionalNumber::from_string("5 + -3").expect("failed to parse 5 + -3");
    assert!((value(&n4) - 2.0).abs() < 1e-9);

    let n5 = FractionalNumber::from_string("-6250").expect("failed to parse -6250");
    assert_eq!(n5.numerator(), -6250);

    let n6 = FractionalNumber::from_string("-1.25 * 4").expect("failed to parse -1.25 * 4");
    assert!((value(&n6) + 5.0).abs() < 1e-9);

    let n7 = FractionalNumber::from_string("(7.2 - 4.8) + 2 / (4/3 - 1/3)")
        .expect("failed to parse (7.2 - 4.8) + 2 / (4/3 - 1/3)");
    assert!((value(&n7) - 4.4).abs() < 1e-9);
    assert_eq!(n7.numerator(), 22);
    assert_eq!(n7.denominator(), 5);
}

#[test]
fn malformed_expressions_are_refused() {
    assert_eq!(FractionalNumber::from_string("(1 + 2").unwrap_err(), "Mismatched parentheses");
    assert_eq!(FractionalNumber::from_string("1 + 2)").unwrap_err(), "Mismatched parentheses");
    assert_eq!(FractionalNumber::from_string("1 +").unwrap_err(), "Invalid expression");
    assert_eq!(FractionalNumber::from_string("").unwrap_err(), "Invalid expression");
    assert_eq!(FractionalNumber::from_string("1 2").unwrap_err(), "Invalid expression");
    assert_eq!(FractionalNumber::from_string("1 / 0").unwrap_err(), "Division by zero");
    assert_eq!(FractionalNumber::from_string("1.").unwrap_err(), "Invalid fractional part: ");
    assert_eq!(FractionalNumber::from_string("1.2.3").unwrap_err(), "Invalid fractional part: 2.3");
    assert_eq!(
        FractionalNumber::from_string("0.1234567890123456789").unwrap_err(),
        "Number out of range: 0.1234567890123456789"
    );
    assert_eq!(
        FractionalNumber::from_string("99999999999999999999").unwrap_err(),
        "Invalid integer: 99999999999999999999"
    );
    assert_eq!(
        FractionalNumber::from_string("9223372036854775807 * 2").unwrap_err(),
        "Arithmetic overflow"
    );
}

#[test]
fn unknown_characters_and_spaces_are_skipped() {
    let f = FractionalNumber::from_string("  2 x * \t 3 ").unwrap();
    assert_eq!(f.numerator(), 6);
    assert_eq!(f.denominator(), 1);
    let g = FractionalNumber::from_string(".5").unwrap();
    assert_eq!((g.numerator(), g.denominator()), (1, 2));
}

#[test]
fn whitespace_and_digits_are_read_as_such() {
    assert_eq!(FractionalNumber::from_string("\t7 \n"), Ok(FractionalNumber::new(7, 1)));
    assert!(FractionalNumber::from_string("x").is_err());
}

#[test]
fn products_cancel_before_they_overflow() {
    let a = FractionalNumber::new(3, 4611686018427387904);
    let b = FractionalNumber::new(4611686018427387904, 3);
    assert_eq!(a.checked_mul(b), Some(FractionalNumber::new(1, 1)));
    assert_eq!(b.checked_div(b), Some(FractionalNumber::new(1, 1)));
}

#[test]
fn sums_use_the_common_denominator() {
    let a = FractionalNumber::new(1, 10000000000);
    assert_eq!(a.checked_add(a), Some(FractionalNumber::new(1, 5000000000)));
    assert_eq!(a.checked_sub(a), Some(FractionalNumber::new(0, 1)));
}

#[test]
fn products_that_do_not_fit_are_refused() {
    let a = FractionalNumber::new(4611686018427387904, 1);
    assert_eq!(a.checked_mul(FractionalNumber::new(4, 1)), None);
}

#[test]
fn unicode_whitespace_is_skipped() {
    assert_eq!(FractionalNumber::from_string("\u{a0}5\u{3000}"), Ok(FractionalNumber::new(5, 1)));
    assert_eq!(FractionalNumber::from_string("\u{2009}1 /\u{85}4"), Ok(FractionalNumber::new(1, 4)));
}

#[test]
fn a_printed_fraction_reads_back() {
    for (n, d) in [(9i64, 16i64), (-3, 4), (5, 1), (0, 1), (i64::MIN, 1), (i64::MAX, 2)] {
        let x = FractionalNumber::new(n, d);
        assert_eq!(FractionalNumber::from_string(&x.to_fraction_string()), Ok(x));
    }
}

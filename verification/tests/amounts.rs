use spent::amount::push_amount;
use spent::database::Database;

fn cents(text: &str) -> Result<i64, String> {
    Database::parse_amount(text)
}

fn written(cents: i64) -> String {
    let mut out = String::new();
    push_amount(&mut out, cents);
    out
}

#[test]
fn amount_with_dollar_sign() {
    assert_eq!(cents("$12.50"), Ok(1250));
}

#[test]
fn amount_with_thousands_separator() {
    assert_eq!(cents("1,234.56"), Ok(123456));
    assert_eq!(cents("$1,000,000"), Ok(100_000_000));
}

#[test]
fn amount_with_euro_and_pound_signs() {
    assert_eq!(cents("\u{20ac}3"), Ok(300));
    assert_eq!(cents("\u{a3}3.10"), Ok(310));
    assert_eq!(cents("\u{20ac} 7.25"), Ok(725));
}

#[test]
fn amount_with_sign() {
    assert_eq!(cents("-5"), Ok(-500));
    assert_eq!(cents("+5"), Ok(500));
    assert_eq!(cents("$-5.00"), Ok(-500));
    assert_eq!(cents("-$5.00"), Ok(-500));
    assert_eq!(cents("-0"), Ok(0));
}

#[test]
fn amount_with_surrounding_space() {
    assert_eq!(cents("  12  "), Ok(1200));
    assert_eq!(cents("\t4.2\n"), Ok(420));
    assert_eq!(cents("$ 5"), Ok(500));
}

#[test]
fn amount_with_bare_point() {
    assert_eq!(cents(".5"), Ok(50));
    assert_eq!(cents("5."), Ok(500));
    assert_eq!(cents("-.25"), Ok(-25));
}

#[test]
fn amount_rounds_to_the_nearest_cent() {
    assert_eq!(cents("0.004"), Ok(0));
    assert_eq!(cents("0.005"), Ok(1));
    assert_eq!(cents("0.125"), Ok(13));
    assert_eq!(cents("-0.125"), Ok(-13));
    assert_eq!(cents("1.23456"), Ok(123));
    assert_eq!(cents("2.999"), Ok(300));
}

#[test]
fn amount_beyond_sixty_four_bits_is_held_to_the_limit() {
    assert_eq!(cents("99999999999999999999999"), Ok(i64::MAX));
    assert_eq!(cents("-99999999999999999999999"), Ok(i64::MIN));
    assert_eq!(cents("92233720368547758.07"), Ok(i64::MAX));
    assert_eq!(cents("-92233720368547758.08"), Ok(i64::MIN));
    assert_eq!(cents("92233720368547758.06"), Ok(i64::MAX - 1));
}

#[test]
fn amount_that_is_no_number_is_refused() {
    let refused = Err("Cannot parse as number".to_string());
    assert_eq!(cents("abc"), refused);
    assert_eq!(cents(""), refused);
    assert_eq!(cents("   "), refused);
    assert_eq!(cents("."), refused);
    assert_eq!(cents("-"), refused);
    assert_eq!(cents("$"), refused);
    assert_eq!(cents("1.2.3"), refused);
    assert_eq!(cents("--5"), refused);
    assert_eq!(cents("1 000"), refused);
    assert_eq!(cents("(5.00)"), refused);
    assert_eq!(cents("12.5x"), refused);
    assert_eq!(cents("1e3"), refused);
}

#[test]
fn amount_is_written_with_two_places() {
    assert_eq!(written(1250), "12.50");
    assert_eq!(written(0), "0.00");
    assert_eq!(written(5), "0.05");
    assert_eq!(written(-5), "-0.05");
    assert_eq!(written(-1250), "-12.50");
    assert_eq!(written(100), "1.00");
    assert_eq!(written(i64::MAX), "92233720368547758.07");
    assert_eq!(written(i64::MIN), "-92233720368547758.08");
}

#[test]
fn amount_written_and_read_back_is_the_same() {
    for value in [0i64, 1, -1, 99, 100, -100, 1250, -999_999, 123_456_789, i64::MAX, i64::MIN] {
        assert_eq!(cents(&written(value)), Ok(value));
    }
}

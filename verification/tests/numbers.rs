//! Tests of the decimal number type and numeric round trips.

use lispy::num::Num;
use lispy::tokenizer::{tokenize, LexError, Token};

fn lex_one_number(src: &str) -> Num {
    let tokens = tokenize(&src.to_string()).unwrap();
    assert_eq!(tokens.len(), 1, "{src:?} should lex to one token");
    match &tokens[0] {
        Token::Number(n) => *n,
        other => panic!("{src:?} lexed to {other:?}"),
    }
}

fn render(n: Num) -> String {
    n.to_chars().iter().collect()
}

#[test]
fn numeric_text_round_trips_to_an_equal_value() {
    for src in [
        "0", "1", "3", "42", "007", "1.5", "0.05", "2.50", "10.010",
        "9223372036854775807", "0.000000000000000001", "123.456",
    ] {
        let n = lex_one_number(src);
        let again = lex_one_number(&render(n));
        assert_eq!(n, again, "{src:?} rendered as {:?}", render(n));
    }
}

#[test]
fn rendering_is_canonical() {
    assert_eq!(render(lex_one_number("2.50")), "2.5");
    assert_eq!(render(lex_one_number("007")), "7");
    assert_eq!(render(lex_one_number("1.000")), "1");
    assert_eq!(render(lex_one_number("0.05")), "0.05");
    assert_eq!(render(lex_one_number("0")), "0");
}

#[test]
fn equal_values_are_equal_numbers() {
    assert_eq!(lex_one_number("1.50"), lex_one_number("1.5"));
    assert_eq!(lex_one_number("10"), lex_one_number("10.0"));
    assert_ne!(lex_one_number("1.5"), lex_one_number("15"));
}

#[test]
fn constructors_normalize() {
    assert_eq!(Num::new(15, 1).unwrap(), lex_one_number("1.5"));
    assert_eq!(Num::new(1500, 2).unwrap(), Num::from_int(15));
    assert_eq!(Num::new(0, 7).unwrap(), Num::zero());
    assert_eq!(Num::new(-25, 1).unwrap(), Num::new(-25, 1).unwrap());
}

#[test]
fn too_fine_a_scale_is_rejected() {
    // Nineteen places cannot be normalized away when the last digit is set.
    assert!(Num::new(3, 19).is_none());
    // But trailing zeros strip first.
    assert_eq!(Num::new(30, 19).unwrap(), Num::new(3, 18).unwrap());
}

#[test]
fn exact_decimal_addition() {
    let a = lex_one_number("0.1");
    let b = lex_one_number("0.2");
    assert_eq!(a.add(&b).unwrap(), lex_one_number("0.3"));
    let c = lex_one_number("1.25");
    assert_eq!(c.add(&c).unwrap(), lex_one_number("2.5"));
}

#[test]
fn addition_overflow_is_none() {
    let max = Num::from_int(i64::MAX);
    assert!(max.add(&Num::from_int(1)).is_none());
    assert_eq!(max.add(&Num::zero()).unwrap(), max);
}

#[test]
fn negative_numbers_render_with_a_sign() {
    assert_eq!(render(Num::from_int(-7)), "-7");
    assert_eq!(render(Num::new(-15, 1).unwrap()), "-1.5");
}

#[test]
fn order_is_by_value() {
    let a = lex_one_number("1.5");
    let b = lex_one_number("2");
    assert!(a.lt(&b));
    assert!(!b.lt(&a));
    assert!(!a.lt(&a));
    assert!(a.le(&a));
    assert!(Num::new(-1, 0).unwrap().lt(&Num::zero()));
}

#[test]
fn integrality_follows_the_scale() {
    assert!(lex_one_number("10").is_integer());
    assert!(lex_one_number("10.0").is_integer());
    assert!(!lex_one_number("1.5").is_integer());
    assert_eq!(lex_one_number("42").int_value(), 42);
}

#[test]
fn long_literals_are_invalid_numbers() {
    let r = tokenize(&"9223372036854775808".to_string());
    assert_eq!(r.unwrap_err(), LexError::InvalidNumber);
    let r = tokenize(&"0.0000000000000000001".to_string());
    assert_eq!(r.unwrap_err(), LexError::InvalidNumber);
    let r = tokenize(&"1.".to_string());
    assert_eq!(r.unwrap_err(), LexError::InvalidNumber);
}

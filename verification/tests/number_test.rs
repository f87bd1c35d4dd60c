use rag_gate::binary64::Binary64;
use rag_gate::decimal::{fixed_text, number_text, parse_natural, right_aligned_text};
use rag_gate::text::{same_text, starts_with, trim};

fn b(x: f64) -> Binary64 {
    Binary64::from_bits(x.to_bits())
}

fn f(x: Binary64) -> f64 {
    f64::from_bits(x.to_bits())
}

fn same(x: f64, y: f64) -> bool {
    (x.is_nan() && y.is_nan()) || x.to_bits() == y.to_bits()
}

fn next(state: &mut u64) -> u64 {
    *state = state.wrapping_mul(6364136223846793005).wrapping_add(1442695040888963407);
    let x = *state;
    (x ^ (x >> 29)).wrapping_mul(0xbf58476d1ce4e5b9) ^ (x >> 17)
}

fn specials() -> Vec<f64> {
    vec![
        0.0,
        -0.0,
        1.0,
        -1.0,
        0.5,
        -0.7,
        0.1,
        1.0 / 3.0,
        2.0,
        10.0,
        1e308,
        -1e308,
        f64::MAX,
        f64::MIN_POSITIVE,
        5e-324,
        -5e-324,
        2.2250738585072011e-308,
        9007199254740991.0,
        9007199254740993.0,
        f64::EPSILON,
        1.0 + f64::EPSILON,
        f64::INFINITY,
        f64::NEG_INFINITY,
        f64::NAN,
    ]
}

fn check_pair(x: f64, y: f64) {
    assert!(same(f(b(x).plus(b(y))), x + y), "{x:e} + {y:e}");
    assert!(same(f(b(x).minus(b(y))), x - y), "{x:e} - {y:e}");
    assert!(same(f(b(x).times(b(y))), x * y), "{x:e} * {y:e}");
    assert!(same(f(b(x).over(b(y))), x / y), "{x:e} / {y:e}");
    assert_eq!(b(x).less_than(b(y)), x < y);
    assert_eq!(b(x).at_most(b(y)), x <= y);
}

#[test]
fn arithmetic_of_special_numbers_is_that_of_the_hardware() {
    for x in specials() {
        for y in specials() {
            check_pair(x, y);
        }
    }
}

#[test]
fn arithmetic_of_random_patterns_is_that_of_the_hardware() {
    let mut state = 42;
    for _ in 0..20000 {
        let x = f64::from_bits(next(&mut state));
        let y = f64::from_bits(next(&mut state));
        check_pair(x, y);
    }
}

#[test]
fn arithmetic_of_near_numbers_is_that_of_the_hardware() {
    let mut state = 4711;
    for _ in 0..20000 {
        let bits = next(&mut state);
        let x = f64::from_bits(bits);
        let e = (next(&mut state) % 120) << 52;
        let y = f64::from_bits((bits ^ (next(&mut state) % 8)).wrapping_add(e));
        check_pair(x, y);
        check_pair(x, -y);
    }
}

#[test]
fn integers_round_as_the_hardware_does() {
    let mut state = 99;
    for i in 0..64u32 {
        for d in [0u64, 1, 2, 3] {
            let n = (1u64 << i).wrapping_add(d);
            assert_eq!(f(Binary64::of(n)), n as f64);
            let n = (1u64 << i).wrapping_sub(d);
            assert_eq!(f(Binary64::of(n)), n as f64);
        }
    }
    for _ in 0..5000 {
        let n = next(&mut state) >> (next(&mut state) % 64);
        let d = next(&mut state) >> (next(&mut state) % 64);
        assert_eq!(f(Binary64::of(n)), n as f64);
        assert!(same(f(Binary64::ratio(n, d)), n as f64 / d as f64));
    }
}

#[test]
fn rounding_to_integers_is_that_of_the_hardware() {
    let mut state = 5;
    for x in specials() {
        assert_eq!(b(x).round_clamped(u64::MAX), x.round() as u64);
    }
    for _ in 0..20000 {
        let x = (next(&mut state) >> (next(&mut state) % 60)) as f64 / 64.0;
        assert_eq!(b(x).round_clamped(u64::MAX), x.round() as u64);
        assert_eq!(b(-x).round_clamped(u64::MAX), (-x).round() as u64);
        assert_eq!(b(x).round_clamped(1000), (x.round() as u64).min(1000));
    }
}

#[test]
fn signs_and_kinds() {
    assert!(same(f(b(1.5).neg()), -1.5));
    assert!(same(f(Binary64::zero(true)), -0.0));
    assert!(same(f(Binary64::infinity(false)), f64::INFINITY));
    assert!(f(Binary64::nan()).is_nan());
    assert!(!b(f64::NAN).is_number());
    assert!(b(f64::INFINITY).is_number());
}

#[test]
fn fixed_point_is_that_of_the_formatter() {
    for x in specials() {
        assert_eq!(fixed_text(b(x), 4), format!("{:.4}", x));
        assert_eq!(fixed_text(b(x), 2), format!("{:.2}", x));
    }
    let mut state = 17;
    for _ in 0..3000 {
        let x = (next(&mut state) as i64 >> (next(&mut state) % 60)) as f64 / 16384.0;
        assert_eq!(fixed_text(b(x), 4), format!("{:.4}", x));
        let x = f64::from_bits(next(&mut state));
        if x.abs() < 1e25 {
            assert_eq!(fixed_text(b(x), 7), format!("{:.7}", x));
        }
    }
}

#[test]
fn numbers_as_text() {
    assert_eq!(number_text(0), "0");
    assert_eq!(number_text(1234567890), "1234567890");
    assert_eq!(number_text(u128::MAX), format!("{}", u128::MAX));
    assert_eq!(right_aligned_text("ab", 5), "   ab");
    assert_eq!(right_aligned_text("abcdef", 3), "abcdef");
}

#[test]
fn naturals_are_read_as_the_parser_does() {
    for text in [
        "0", "7", "0042", "+5", "", "+", "-1", "1 ", " 1", "12a", "18446744073709551615",
        "18446744073709551616", "99999999999999999999999", "++1", "1_000", "\u{664}",
    ] {
        assert_eq!(parse_natural(text, u64::MAX), text.parse::<u64>().ok(), "{text:?}");
    }
    assert_eq!(parse_natural("11", 10), None);
    assert_eq!(parse_natural("10", 10), Some(10));
}

#[test]
fn text_helpers_agree_with_std() {
    for text in ["", " a ", "\t\u{a0}data: [DONE]\n\n", "\u{3000}x\u{2003}y\u{85}", "data: {", "\u{200b}"] {
        assert_eq!(trim(text), text.trim());
        assert_eq!(starts_with(text, "data: "), text.starts_with("data: "));
        assert_eq!(same_text(trim(text), "data: [DONE]"), text.trim() == "data: [DONE]");
    }
}

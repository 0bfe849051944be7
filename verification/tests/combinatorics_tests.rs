use bezier::arith::pow_i128;
use bezier::combinatorics::{binomial, binomial_row};
use bezier::vec2::Vec2;

#[test]
fn pascal_rows_are_exact() {
    assert_eq!(binomial_row(0), vec![1]);
    assert_eq!(binomial_row(1), vec![1, 1]);
    assert_eq!(binomial_row(4), vec![1, 4, 6, 4, 1]);
    assert_eq!(binomial_row(6), vec![1, 6, 15, 20, 15, 6, 1]);
}

#[test]
fn single_coefficients_match_the_closed_form() {
    assert_eq!(binomial(0, 0), 1);
    assert_eq!(binomial(5, 2), 10);
    assert_eq!(binomial(10, 5), 252);
    assert_eq!(binomial(20, 10), 184756);
    assert_eq!(binomial(63, 0), 1);
    assert_eq!(binomial(63, 63), 1);
}

#[test]
fn integer_powers_are_exact() {
    assert_eq!(pow_i128(5, 0), 1);
    assert_eq!(pow_i128(0, 0), 1);
    assert_eq!(pow_i128(0, 7), 0);
    assert_eq!(pow_i128(2, 10), 1024);
    assert_eq!(pow_i128(-2, 3), -8);
    assert_eq!(pow_i128(-1, 4), 1);
    assert_eq!(pow_i128(10, 18), 1_000_000_000_000_000_000);
}

#[test]
fn vec2_packs_its_components() {
    let v = Vec2::new(3i64, -4i64);
    assert_eq!(v.x, 3);
    assert_eq!(v.y, -4);
    let w = Vec2::new(0.25f64, 1.5f64);
    assert_eq!(w.x, 0.25);
    assert_eq!(w.y, 1.5);
}

use rust_rational::arith::{gcd, lcm};
use rust_rational::{Rational, RationalError};

fn q(n: i64, d: i64) -> Rational {
    Rational::new(n, d).unwrap()
}

#[test]
fn test_rational_reduction_works() {
    let r1 = Rational::new(1, 2).unwrap();
    let r2 = Rational::new(2, 4).unwrap();
    assert_eq!(r1, r2);
}

#[test]
fn test_rational_addition_works() {
    let r1 = Rational::new(1, 4).unwrap();
    let r2 = Rational::new(1, 4).unwrap();
    assert_eq!(Rational::new(1, 2).unwrap(), r1.add(r2));
}

#[test]
fn test_rational_subtraction_works() {
    let r1 = Rational::new(4, 4).unwrap();
    let r2 = Rational::new(1, 4).unwrap();
    assert_eq!(Rational::new(3, 4).unwrap(), r1.sub(r2));
}

#[test]
fn test_rational_multiplication_works() {
    let r1 = Rational::new(1, 2).unwrap();
    let r2 = Rational::new(1, 2).unwrap();
    assert_eq!(Rational::new(1, 4).unwrap(), r1.mul(r2));
}

#[test]
fn test_rational_division_works() {
    let r1 = Rational::new(1, 2).unwrap();
    let r2 = Rational::new(1, 2).unwrap();
    assert_eq!(Rational::new(1, 1).unwrap(), r1.div(r2).unwrap());
}

#[test]
fn test_should_panic_with_denominator_of_0() {
    assert_eq!(Rational::new(2, 0), Err(RationalError::InvalidDenominator));
}

#[test]
fn reciprocal_should_work() {
    assert_eq!(Rational::new(3, 1).unwrap(), Rational::new(1, 3).unwrap().reciprocal().unwrap());
}

#[test]
fn new_reduces_to_lowest_terms() {
    let r = q(12, 18);
    assert_eq!((r.numerator, r.denominator), (2, 3));
}

#[test]
fn new_puts_sign_on_numerator() {
    let a = q(1, -2);
    let b = q(-1, 2);
    assert_eq!(a, b);
    assert_eq!((a.numerator, a.denominator), (-1, 2));
    let c = q(-3, -6);
    assert_eq!((c.numerator, c.denominator), (1, 2));
}

#[test]
fn new_zero_has_unit_denominator() {
    let r = q(0, -5);
    assert_eq!((r.numerator, r.denominator), (0, 1));
    assert_eq!(r, q(0, 7));
}

#[test]
fn new_scaled_equals_unscaled() {
    for k in [2i64, 7, -1, -13, 1000] {
        assert_eq!(q(3 * k, 5 * k), q(3, 5));
        assert_eq!(q(-4 * k, 9 * k), q(-4, 9));
    }
}

#[test]
fn new_at_the_edges_of_i64() {
    let r = q(i64::MIN, 2);
    assert_eq!((r.numerator, r.denominator), (i64::MIN / 2, 1));
    let s = q(i64::MAX, i64::MAX);
    assert_eq!((s.numerator, s.denominator), (1, 1));
    let t = q(i64::MIN, i64::MIN);
    assert_eq!((t.numerator, t.denominator), (1, 1));
    let u = q(i64::MIN, 3);
    assert_eq!((u.numerator, u.denominator), (i64::MIN, 3));
}

#[test]
fn addition_with_different_denominators() {
    assert_eq!(q(1, 2).add(q(1, 3)), q(5, 6));
    assert_eq!(q(426, 1881).add(q(117, 444)), q(45469, 92796));
    assert_eq!(q(1, 2).add(q(2, 1)), q(5, 2));
    assert_eq!(q(-1, 2).add(q(1, 2)), q(0, 1));
}

#[test]
fn subtraction_can_go_negative() {
    assert_eq!(q(1, 4).sub(q(3, 4)), q(-1, 2));
    assert_eq!(q(2, 1).sub(q(1, 2)), q(3, 2));
    assert_eq!(q(1, 6).sub(q(1, 4)), q(-1, 12));
}

#[test]
fn multiplication_reduces_and_keeps_sign() {
    assert_eq!(q(2, 3).mul(q(9, 4)), q(3, 2));
    assert_eq!(q(-2, 3).mul(q(3, -2)), q(1, 1));
    assert_eq!(q(-2, 3).mul(q(0, 1)), q(0, 1));
}

#[test]
fn division_by_values() {
    assert_eq!(q(1, 2).div(q(1, 4)).unwrap(), q(2, 1));
    assert_eq!(q(3, 4).div(q(-3, 2)).unwrap(), q(-1, 2));
}

#[test]
fn division_by_zero_is_refused() {
    assert_eq!(q(1, 2).div(q(0, 1)), Err(RationalError::InvalidDenominator));
}

#[test]
fn reciprocal_of_zero_is_refused() {
    assert_eq!(q(0, 3).reciprocal(), Err(RationalError::InvalidDenominator));
}

#[test]
fn reciprocal_moves_sign_to_numerator() {
    let r = q(-2, 5).reciprocal().unwrap();
    assert_eq!((r.numerator, r.denominator), (-5, 2));
}

#[test]
fn reciprocal_twice_gives_back_the_value() {
    for r in [q(-3, 7), q(1, 3), q(5, 1), q(i64::MAX, 2)] {
        assert_eq!(r.reciprocal().unwrap().reciprocal().unwrap(), r);
    }
}

#[test]
fn addition_and_multiplication_commute() {
    let pairs = [(q(1, 2), q(1, 3)), (q(-5, 6), q(7, 10)), (q(0, 1), q(4, 9))];
    for (a, b) in pairs {
        assert_eq!(a.add(b), b.add(a));
        assert_eq!(a.mul(b), b.mul(a));
    }
}

#[test]
fn rendering_whole_and_fractional_values() {
    assert_eq!(q(4, 1).to_string(), "4");
    assert_eq!(q(1, 2).to_string(), "1/2");
    assert_eq!(q(-3, 4).to_string(), "-3/4");
    assert_eq!(q(0, 5).to_string(), "0");
    assert_eq!(q(10, 1).to_string(), "10");
    assert_eq!(q(1234567, 890).to_string(), "1234567/890");
    assert_eq!(q(i64::MIN, 1).to_string(), "-9223372036854775808");
    assert_eq!(q(-1, i64::MAX).to_string(), "-1/9223372036854775807");
}

#[test]
fn gcd_and_lcm_values() {
    assert_eq!(gcd(12, 18), 6);
    assert_eq!(gcd(0, 5), 5);
    assert_eq!(gcd(7, 0), 7);
    assert_eq!(gcd(17, 5), 1);
    assert_eq!(lcm(4, 6), 12);
    assert_eq!(lcm(1881, 444), 278388);
}

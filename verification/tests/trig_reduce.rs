#![allow(unused_imports)]

use core::cmp::Ordering;
use pfloat::{BigFloat, BuildError, Class, FixedFloat, RoundingMode, Sign, Status};
use pfloat::math::{ln_2_at, pi_at, pi_over_2_at, two_over_pi_at};
use pfloat::math::trig_reduce::reduce;

fn close_at(v: &BigFloat, expected: &BigFloat, bits: u32) -> bool {
    let (diff, _) = v.sub(expected, RoundingMode::NearestEven);
    let abs_diff = diff.abs();
    if abs_diff.is_zero() {
        return true;
    }
    let p = v.precision().max(expected.precision());
    let one = BigFloat::try_from_i64_exact(1, p).unwrap();
    let two = BigFloat::try_from_i64_exact(2, p).unwrap();
    let abs_b = expected.abs();
    let mut bound = if abs_b.is_zero() { one } else { abs_b };
    for _ in 0..bits {
        bound = bound.div(&two, RoundingMode::NearestEven).0;
    }
    matches!(
        abs_diff.partial_cmp(&bound).0,
        Some(Ordering::Less | Ordering::Equal)
    )
}

#[test]
fn pi_constants_self_consistent() {
    // π · (2/π) should equal 2 at the table's working precision.
    let pi = pi_at(1024);
    let two_over_pi = two_over_pi_at(4096);
    let (prod, _) = pi.mul(&two_over_pi, RoundingMode::NearestEven);
    let two = BigFloat::try_from_i64_exact(2, 4096).unwrap();
    assert!(
        close_at(&prod, &two, 1000),
        "π · (2/π) = {prod:?}, expected 2 within 1000 bits",
    );
}

#[test]
fn reduce_zero_returns_quadrant_zero() {
    let z = BigFloat::try_new_zero(Sign::Positive, 113).unwrap();
    let r = reduce(&z, 113).unwrap();
    assert_eq!(r.quadrant, 0);
    assert!(r.r.is_zero());
}

#[test]
fn reduce_small_x_passthrough() {
    // x = 0.1, |x| < π/4, so r = x at working precision.
    let x = BigFloat::parse_str("0.1", 113, RoundingMode::NearestEven)
        .unwrap()
        .0;
    let r = reduce(&x, 113).unwrap();
    assert_eq!(r.quadrant, 0);
    assert!(close_at(&r.r, &x, 113 - 12));
}

#[test]
fn reduce_pi_over_2_gives_quadrant_one() {
    let pi_2 = pi_over_2_at(113);
    let r = reduce(&pi_2, 113).unwrap();
    assert_eq!(r.quadrant, 1);
    // r should be near zero (since x = π/2 maps to q=1, r=0).
    let zero = BigFloat::try_new_zero(Sign::Positive, 113).unwrap();
    // r could be tiny but nonzero from rounding; allow loose tolerance.
    assert!(close_at(&r.r, &zero, 100));
}

#[test]
fn reduce_pi_gives_quadrant_two() {
    let pi = pi_at(113);
    let r = reduce(&pi, 113).unwrap();
    assert_eq!(r.quadrant, 2);
}

#[test]
fn reduce_neg_pi_over_2_gives_quadrant_three() {
    let pi_2 = pi_over_2_at(113);
    let neg = pi_2.negated();
    let r = reduce(&neg, 113).unwrap();
    assert_eq!(r.quadrant, 3);
}

#[test]
fn reduce_huge_x_returns_none() {
    // Build x with exponent 5000, exceeding the table budget.
    // Easiest: 2^5000.
    let one = BigFloat::try_from_i64_exact(1, 113).unwrap();
    let two = BigFloat::try_from_i64_exact(2, 113).unwrap();
    let mut big = one;
    for _ in 0..5000 {
        big = big.mul(&two, RoundingMode::NearestEven).0;
    }
    assert!(reduce(&big, 113).is_none());
}

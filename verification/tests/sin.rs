#![allow(unused_imports)]

use core::cmp::Ordering;
use pfloat::{BigFloat, BuildError, Class, FixedFloat, RoundingMode, Sign, Status};
use pfloat::math::{ln_2_at, pi_at, pi_over_2_at, two_over_pi_at};

fn close_at(v: &BigFloat, expected: &BigFloat, bits: u32) -> bool {
    let (diff, _) = v.sub(expected, RoundingMode::NearestEven);
    let abs_diff = diff.abs();
    if abs_diff.is_zero() {
        return true;
    }
    let p = v.precision().max(expected.precision());
    let one = BigFloat::try_from_i64_exact(1, p).unwrap();
    let two = BigFloat::try_from_i64_exact(2, p).unwrap();
    let abs_b = expected.abs();
    let mut bound = if abs_b.is_zero() { one } else { abs_b };
    for _ in 0..bits {
        bound = bound.div(&two, RoundingMode::NearestEven).0;
    }
    matches!(
        abs_diff.partial_cmp(&bound).0,
        Some(Ordering::Less | Ordering::Equal)
    )
}

#[test]
fn sin_zero() {
    for s in [Sign::Positive, Sign::Negative] {
        let z = BigFloat::try_new_zero(s, 53).unwrap();
        let (r, _) = z.sin(RoundingMode::NearestEven);
        assert!(r.is_zero());
        assert_eq!(r.is_sign_negative(), matches!(s, Sign::Negative));
    }
}

#[test]
fn sin_pos_inf_is_invalid() {
    let pi = BigFloat::try_new_infinity(Sign::Positive, 53).unwrap();
    let (r, status) = pi.sin(RoundingMode::NearestEven);
    assert!(r.is_quiet_nan());
    assert!(status.invalid());
}

#[test]
fn sin_neg_inf_is_invalid() {
    let ni = BigFloat::try_new_infinity(Sign::Negative, 53).unwrap();
    let (r, status) = ni.sin(RoundingMode::NearestEven);
    assert!(r.is_quiet_nan());
    assert!(status.invalid());
}

#[test]
fn sin_pi_is_zero() {
    let pi = pi_at(113);
    let (r, _) = pi.sin(RoundingMode::NearestEven);
    let zero = BigFloat::try_new_zero(Sign::Positive, 113).unwrap();
    // sin(π) is exactly 0 in real math; numerically we get a tiny
    // value near 2^(-target).
    assert!(close_at(&r, &zero, 100));
}

#[test]
fn sin_pi_over_2_is_one() {
    let pi_2 = pi_over_2_at(113);
    let (r, _) = pi_2.sin(RoundingMode::NearestEven);
    let one = BigFloat::try_from_i64_exact(1, 113).unwrap();
    assert!(close_at(&r, &one, 113 - 12));
}

#[test]
fn sin_neg_pi_over_2_is_neg_one() {
    let pi_2 = pi_over_2_at(113);
    let neg = pi_2.negated();
    let (r, _) = neg.sin(RoundingMode::NearestEven);
    let neg_one = BigFloat::try_from_i64_exact(-1, 113).unwrap();
    assert!(close_at(&r, &neg_one, 113 - 12));
}

#[test]
fn sin_one() {
    // sin(1) ≈ 0.8414709848078965
    let one = BigFloat::try_from_i64_exact(1, 113).unwrap();
    let (r, _) = one.sin(RoundingMode::NearestEven);
    let expected = BigFloat::parse_str(
        "0.84147098480789650665250232163029900",
        113,
        RoundingMode::NearestEven,
    )
    .unwrap()
    .0;
    assert!(close_at(&r, &expected, 100));
}

#[test]
fn sin_is_odd() {
    let two = BigFloat::try_from_i64_exact(2, 113).unwrap();
    let neg_two = BigFloat::try_from_i64_exact(-2, 113).unwrap();
    let (a, _) = two.sin(RoundingMode::NearestEven);
    let (b, _) = neg_two.sin(RoundingMode::NearestEven);
    let neg_a = a.negated();
    assert!(close_at(&b, &neg_a, 113 - 12));
}

#[test]
fn sin_huge_x_returns_invalid() {
    // 2^5000 exceeds the reduction table budget.
    let one = BigFloat::try_from_i64_exact(1, 113).unwrap();
    let two = BigFloat::try_from_i64_exact(2, 113).unwrap();
    let mut big = one;
    for _ in 0..5000 {
        big = big.mul(&two, RoundingMode::NearestEven).0;
    }
    let (r, status) = big.sin(RoundingMode::NearestEven);
    assert!(r.is_quiet_nan());
    assert!(status.invalid());
}

#[test]
fn sin_nan_propagates() {
    let q = BigFloat::try_new_quiet_nan(Sign::Positive, 53, &[]).unwrap();
    let (r, _) = q.sin(RoundingMode::NearestEven);
    assert!(r.is_quiet_nan());
}

#[test]
fn sin_snan_invalid() {
    let sn = BigFloat::try_new_signaling_nan(Sign::Positive, 53, &[]).unwrap();
    let (r, status) = sn.sin(RoundingMode::NearestEven);
    assert!(r.is_quiet_nan());
    assert!(status.invalid());
}

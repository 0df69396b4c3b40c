#![allow(unused_imports)]

use core::cmp::Ordering;
use pfloat::{BigFloat, BuildError, Class, FixedFloat, RoundingMode, Sign, Status};
use pfloat::math::{ln_2_at, pi_at, pi_over_2_at, two_over_pi_at};

fn close_at(v: &BigFloat, expected: &BigFloat, bits: u32) -> bool {
    let (diff, _) = v.sub(expected, RoundingMode::NearestEven);
    let abs_diff = diff.abs();
    if abs_diff.is_zero() {
        return true;
    }
    let p = v.precision().max(expected.precision());
    let one = BigFloat::try_from_i64_exact(1, p).unwrap();
    let two = BigFloat::try_from_i64_exact(2, p).unwrap();
    let abs_b = expected.abs();
    let mut bound = if abs_b.is_zero() { one } else { abs_b };
    for _ in 0..bits {
        bound = bound.div(&two, RoundingMode::NearestEven).0;
    }
    matches!(
        abs_diff.partial_cmp(&bound).0,
        Some(Ordering::Less | Ordering::Equal)
    )
}

#[test]
fn cosh_zero_is_one() {
    for s in [Sign::Positive, Sign::Negative] {
        let z = BigFloat::try_new_zero(s, 53).unwrap();
        let (r, _) = z.cosh(RoundingMode::NearestEven);
        let one = BigFloat::try_from_i64_exact(1, 53).unwrap();
        assert_eq!(r.partial_cmp(&one).0, Some(Ordering::Equal));
    }
}

#[test]
fn cosh_inf_is_pos_inf() {
    for s in [Sign::Positive, Sign::Negative] {
        let i = BigFloat::try_new_infinity(s, 53).unwrap();
        let (r, _) = i.cosh(RoundingMode::NearestEven);
        assert!(r.is_infinite() && r.is_sign_positive());
    }
}

#[test]
fn cosh_is_even() {
    let two = BigFloat::try_from_i64_exact(2, 113).unwrap();
    let neg_two = BigFloat::try_from_i64_exact(-2, 113).unwrap();
    let (a, _) = two.cosh(RoundingMode::NearestEven);
    let (b, _) = neg_two.cosh(RoundingMode::NearestEven);
    assert!(close_at(&a, &b, 113 - 12));
}

#[test]
fn cosh_one_matches_definition() {
    // cosh(1) = (e + 1/e)/2 ≈ 1.5430806348152437
    let one = BigFloat::try_from_i64_exact(1, 113).unwrap();
    let (r, _) = one.cosh(RoundingMode::NearestEven);
    let (e, _) = one.exp(RoundingMode::NearestEven);
    let neg_one = BigFloat::try_from_i64_exact(-1, 113).unwrap();
    let (e_neg, _) = neg_one.exp(RoundingMode::NearestEven);
    let (sum, _) = e.add(&e_neg, RoundingMode::NearestEven);
    let two = BigFloat::try_from_i64_exact(2, 113).unwrap();
    let (expected, _) = sum.div(&two, RoundingMode::NearestEven);
    assert!(close_at(&r, &expected, 113 - 12));
}

#[test]
fn cosh_pythagorean_identity() {
    // cosh²(x) − sinh²(x) = 1
    let x = BigFloat::try_from_i64_exact(2, 113).unwrap();
    let (c, _) = x.cosh(RoundingMode::NearestEven);
    let (s, _) = x.sinh(RoundingMode::NearestEven);
    let (c2, _) = c.mul(&c, RoundingMode::NearestEven);
    let (s2, _) = s.mul(&s, RoundingMode::NearestEven);
    let (diff, _) = c2.sub(&s2, RoundingMode::NearestEven);
    let one = BigFloat::try_from_i64_exact(1, 113).unwrap();
    assert!(close_at(&diff, &one, 113 - 16));
}

#[test]
fn cosh_nan_propagates() {
    let q = BigFloat::try_new_quiet_nan(Sign::Positive, 53, &[]).unwrap();
    let (r, _) = q.cosh(RoundingMode::NearestEven);
    assert!(r.is_quiet_nan());
}

#[test]
fn cosh_snan_invalid() {
    let sn = BigFloat::try_new_signaling_nan(Sign::Positive, 53, &[]).unwrap();
    let (r, status) = sn.cosh(RoundingMode::NearestEven);
    assert!(r.is_quiet_nan());
    assert!(status.invalid());
}

#![allow(unused_imports)]

use core::cmp::Ordering;
use pfloat::{BigFloat, BuildError, Class, FixedFloat, RoundingMode, Sign, Status};
use pfloat::math::{ln_2_at, pi_at, pi_over_2_at, two_over_pi_at};

fn close_at(v: &BigFloat, expected: &BigFloat, bits: u32) -> bool {
    let (diff, _) = v.sub(expected, RoundingMode::NearestEven);
    let abs_diff = diff.abs();
    if abs_diff.is_zero() {
        return true;
    }
    let p = v.precision().max(expected.precision());
    let one = BigFloat::try_from_i64_exact(1, p).unwrap();
    let two = BigFloat::try_from_i64_exact(2, p).unwrap();
    let abs_b = expected.abs();
    let mut bound = if abs_b.is_zero() { one } else { abs_b };
    for _ in 0..bits {
        bound = bound.div(&two, RoundingMode::NearestEven).0;
    }
    matches!(
        abs_diff.partial_cmp(&bound).0,
        Some(Ordering::Less | Ordering::Equal)
    )
}

#[test]
fn tan_zero() {
    for s in [Sign::Positive, Sign::Negative] {
        let z = BigFloat::try_new_zero(s, 53).unwrap();
        let (r, _) = z.tan(RoundingMode::NearestEven);
        assert!(r.is_zero());
        assert_eq!(r.is_sign_negative(), matches!(s, Sign::Negative));
    }
}

#[test]
fn tan_pi_is_zero() {
    let pi = pi_at(113);
    let (r, _) = pi.tan(RoundingMode::NearestEven);
    let zero = BigFloat::try_new_zero(Sign::Positive, 113).unwrap();
    assert!(close_at(&r, &zero, 100));
}

#[test]
fn tan_one_matches_definition() {
    // tan(1) = sin(1)/cos(1)
    let one = BigFloat::try_from_i64_exact(1, 113).unwrap();
    let (r, _) = one.tan(RoundingMode::NearestEven);
    let (s, _) = one.sin(RoundingMode::NearestEven);
    let (c, _) = one.cos(RoundingMode::NearestEven);
    let (expected, _) = s.div(&c, RoundingMode::NearestEven);
    assert!(close_at(&r, &expected, 113 - 16));
}

#[test]
fn tan_pi_over_4_is_one() {
    let pi_4 = pi_over_2_at(113);
    let two = BigFloat::try_from_i64_exact(2, 113).unwrap();
    let (pi_4, _) = pi_4.div(&two, RoundingMode::NearestEven);
    let (r, _) = pi_4.tan(RoundingMode::NearestEven);
    let one = BigFloat::try_from_i64_exact(1, 113).unwrap();
    assert!(close_at(&r, &one, 113 - 16));
}

#[test]
fn tan_is_odd() {
    let two = BigFloat::try_from_i64_exact(2, 113).unwrap();
    let neg_two = BigFloat::try_from_i64_exact(-2, 113).unwrap();
    let (a, _) = two.tan(RoundingMode::NearestEven);
    let (b, _) = neg_two.tan(RoundingMode::NearestEven);
    let neg_a = a.negated();
    assert!(close_at(&b, &neg_a, 113 - 16));
}

#[test]
fn tan_pos_inf_is_invalid() {
    let pi = BigFloat::try_new_infinity(Sign::Positive, 53).unwrap();
    let (r, status) = pi.tan(RoundingMode::NearestEven);
    assert!(r.is_quiet_nan());
    assert!(status.invalid());
}

#[test]
fn tan_nan_propagates() {
    let q = BigFloat::try_new_quiet_nan(Sign::Positive, 53, &[]).unwrap();
    let (r, _) = q.tan(RoundingMode::NearestEven);
    assert!(r.is_quiet_nan());
}

#[test]
fn tan_snan_invalid() {
    let sn = BigFloat::try_new_signaling_nan(Sign::Positive, 53, &[]).unwrap();
    let (r, status) = sn.tan(RoundingMode::NearestEven);
    assert!(r.is_quiet_nan());
    assert!(status.invalid());
}

#![allow(unused_imports)]

use core::cmp::Ordering;
use pfloat::{BigFloat, BuildError, Class, FixedFloat, RoundingMode, Sign, Status};
use pfloat::math::{ln_2_at, pi_at, pi_over_2_at, two_over_pi_at};

fn close_at(v: &BigFloat, expected: &BigFloat, bits: u32) -> bool {
    let (diff, _) = v.sub(expected, RoundingMode::NearestEven);
    let abs_diff = diff.abs();
    if abs_diff.is_zero() {
        return true;
    }
    let p = v.precision().max(expected.precision());
    let one = BigFloat::try_from_i64_exact(1, p).unwrap();
    let two = BigFloat::try_from_i64_exact(2, p).unwrap();
    let abs_b = expected.abs();
    let mut bound = if abs_b.is_zero() { one } else { abs_b };
    for _ in 0..bits {
        bound = bound.div(&two, RoundingMode::NearestEven).0;
    }
    matches!(
        abs_diff.partial_cmp(&bound).0,
        Some(Ordering::Less | Ordering::Equal)
    )
}

#[test]
fn cos_zero_is_one() {
    for s in [Sign::Positive, Sign::Negative] {
        let z = BigFloat::try_new_zero(s, 53).unwrap();
        let (r, _) = z.cos(RoundingMode::NearestEven);
        let one = BigFloat::try_from_i64_exact(1, 53).unwrap();
        assert_eq!(r.partial_cmp(&one).0, Some(Ordering::Equal));
    }
}

#[test]
fn cos_pi_is_neg_one() {
    let pi = pi_at(113);
    let (r, _) = pi.cos(RoundingMode::NearestEven);
    let neg_one = BigFloat::try_from_i64_exact(-1, 113).unwrap();
    assert!(close_at(&r, &neg_one, 113 - 12));
}

#[test]
fn cos_pi_over_2_is_zero() {
    let pi_2 = pi_over_2_at(113);
    let (r, _) = pi_2.cos(RoundingMode::NearestEven);
    let zero = BigFloat::try_new_zero(Sign::Positive, 113).unwrap();
    assert!(close_at(&r, &zero, 100));
}

#[test]
fn cos_one() {
    // cos(1) ≈ 0.5403023058681398
    let one = BigFloat::try_from_i64_exact(1, 113).unwrap();
    let (r, _) = one.cos(RoundingMode::NearestEven);
    let expected = BigFloat::parse_str(
        "0.54030230586813971740093660744297661",
        113,
        RoundingMode::NearestEven,
    )
    .unwrap()
    .0;
    assert!(close_at(&r, &expected, 100));
}

#[test]
fn cos_is_even() {
    let two = BigFloat::try_from_i64_exact(2, 113).unwrap();
    let neg_two = BigFloat::try_from_i64_exact(-2, 113).unwrap();
    let (a, _) = two.cos(RoundingMode::NearestEven);
    let (b, _) = neg_two.cos(RoundingMode::NearestEven);
    assert!(close_at(&a, &b, 113 - 12));
}

#[test]
fn sin_cos_pythagorean() {
    // sin²(x) + cos²(x) = 1
    let x = BigFloat::try_from_i64_exact(1, 113).unwrap();
    let (s, _) = x.sin(RoundingMode::NearestEven);
    let (c, _) = x.cos(RoundingMode::NearestEven);
    let (s2, _) = s.mul(&s, RoundingMode::NearestEven);
    let (c2, _) = c.mul(&c, RoundingMode::NearestEven);
    let (sum, _) = s2.add(&c2, RoundingMode::NearestEven);
    let one = BigFloat::try_from_i64_exact(1, 113).unwrap();
    assert!(close_at(&sum, &one, 100));
}

#[test]
fn cos_pos_inf_is_invalid() {
    let pi = BigFloat::try_new_infinity(Sign::Positive, 53).unwrap();
    let (r, status) = pi.cos(RoundingMode::NearestEven);
    assert!(r.is_quiet_nan());
    assert!(status.invalid());
}

#[test]
fn cos_neg_inf_is_invalid() {
    let ni = BigFloat::try_new_infinity(Sign::Negative, 53).unwrap();
    let (r, status) = ni.cos(RoundingMode::NearestEven);
    assert!(r.is_quiet_nan());
    assert!(status.invalid());
}

#[test]
fn cos_nan_propagates() {
    let q = BigFloat::try_new_quiet_nan(Sign::Positive, 53, &[]).unwrap();
    let (r, _) = q.cos(RoundingMode::NearestEven);
    assert!(r.is_quiet_nan());
}

#[test]
fn cos_snan_invalid() {
    let sn = BigFloat::try_new_signaling_nan(Sign::Positive, 53, &[]).unwrap();
    let (r, status) = sn.cos(RoundingMode::NearestEven);
    assert!(r.is_quiet_nan());
    assert!(status.invalid());
}

#![allow(unused_imports)]

use core::cmp::Ordering;
use pfloat::{BigFloat, BuildError, Class, FixedFloat, RoundingMode, Sign, Status};
use pfloat::math::{ln_2_at, pi_at, pi_over_2_at, two_over_pi_at};

fn close_at(v: &BigFloat, expected: &BigFloat, bits: u32) -> bool {
    let (diff, _) = v.sub(expected, RoundingMode::NearestEven);
    let abs_diff = diff.abs();
    if abs_diff.is_zero() {
        return true;
    }
    let p = v.precision().max(expected.precision());
    let one = BigFloat::try_from_i64_exact(1, p).unwrap();
    let two = BigFloat::try_from_i64_exact(2, p).unwrap();
    let abs_b = expected.abs();
    let mut bound = if abs_b.is_zero() { one } else { abs_b };
    for _ in 0..bits {
        bound = bound.div(&two, RoundingMode::NearestEven).0;
    }
    matches!(
        abs_diff.partial_cmp(&bound).0,
        Some(Ordering::Less | Ordering::Equal)
    )
}

#[test]
fn erf_zero() {
    for s in [Sign::Positive, Sign::Negative] {
        let z = BigFloat::try_new_zero(s, 53).unwrap();
        let (r, _) = z.erf(RoundingMode::NearestEven);
        assert!(r.is_zero());
        assert_eq!(r.is_sign_negative(), matches!(s, Sign::Negative));
    }
}

#[test]
fn erf_pos_inf_is_one() {
    let pi = BigFloat::try_new_infinity(Sign::Positive, 53).unwrap();
    let (r, _) = pi.erf(RoundingMode::NearestEven);
    let one = BigFloat::try_from_i64_exact(1, 53).unwrap();
    assert_eq!(r.partial_cmp(&one).0, Some(Ordering::Equal));
}

#[test]
fn erf_neg_inf_is_neg_one() {
    let ni = BigFloat::try_new_infinity(Sign::Negative, 53).unwrap();
    let (r, _) = ni.erf(RoundingMode::NearestEven);
    let neg_one = BigFloat::try_from_i64_exact(-1, 53).unwrap();
    assert_eq!(r.partial_cmp(&neg_one).0, Some(Ordering::Equal));
}

#[test]
fn erf_is_odd() {
    let half = BigFloat::parse_str("0.5", 113, RoundingMode::NearestEven)
        .unwrap()
        .0;
    let neg_half = half.negated();
    let (a, _) = half.erf(RoundingMode::NearestEven);
    let (b, _) = neg_half.erf(RoundingMode::NearestEven);
    let neg_a = a.negated();
    assert!(close_at(&b, &neg_a, 113 - 12));
}

#[test]
fn erf_one() {
    // erf(1) ≈ 0.84270079294971486934122063508260925
    let one = BigFloat::try_from_i64_exact(1, 113).unwrap();
    let (r, _) = one.erf(RoundingMode::NearestEven);
    let expected = BigFloat::parse_str(
        "0.84270079294971486934122063508260925",
        113,
        RoundingMode::NearestEven,
    )
    .unwrap()
    .0;
    assert!(close_at(&r, &expected, 100));
}

#[test]
fn erf_two() {
    // erf(2) ≈ 0.99532226501895273416206925636725
    let two = BigFloat::try_from_i64_exact(2, 113).unwrap();
    let (r, _) = two.erf(RoundingMode::NearestEven);
    let expected = BigFloat::parse_str(
        "0.99532226501895273416206925636725",
        113,
        RoundingMode::NearestEven,
    )
    .unwrap()
    .0;
    assert!(close_at(&r, &expected, 100));
}

#[test]
fn erf_six_is_basically_one() {
    let six = BigFloat::try_from_i64_exact(6, 113).unwrap();
    let (r, _) = six.erf(RoundingMode::NearestEven);
    let one = BigFloat::try_from_i64_exact(1, 113).unwrap();
    assert_eq!(r.partial_cmp(&one).0, Some(Ordering::Less));
    let (diff, _) = one.sub(&r, RoundingMode::NearestEven);
    let bound = BigFloat::parse_str("0.0000000000000001", 113, RoundingMode::NearestEven)
        .unwrap()
        .0;
    assert_eq!(diff.partial_cmp(&bound).0, Some(Ordering::Less));
}

#[test]
fn erf_large_x_saturates_to_one() {
    // For |x| past the asymptotic threshold at p=113, erf rounds
    // to ±1 exactly.
    let big = BigFloat::try_from_i64_exact(30, 113).unwrap();
    let (r, _) = big.erf(RoundingMode::NearestEven);
    let one = BigFloat::try_from_i64_exact(1, 113).unwrap();
    assert_eq!(r.partial_cmp(&one).0, Some(Ordering::Equal));
}

#[test]
fn erf_nan_propagates() {
    let q = BigFloat::try_new_quiet_nan(Sign::Positive, 53, &[]).unwrap();
    let (r, _) = q.erf(RoundingMode::NearestEven);
    assert!(r.is_quiet_nan());
}

#[test]
fn erf_snan_invalid() {
    let sn = BigFloat::try_new_signaling_nan(Sign::Positive, 53, &[]).unwrap();
    let (r, status) = sn.erf(RoundingMode::NearestEven);
    assert!(r.is_quiet_nan());
    assert!(status.invalid());
}

#[test]
fn fixed_erf() {
    let one = FixedFloat::<113>::try_from_i64_exact(1).unwrap();
    let (r, _) = one.erf(RoundingMode::NearestEven);
    let one_fixed = FixedFloat::<113>::try_from_i64_exact(1).unwrap();
    assert_eq!(r.partial_cmp(&one_fixed).0, Some(Ordering::Less));
}

#![allow(unused_imports)]

use core::cmp::Ordering;
use pfloat::{BigFloat, BuildError, Class, FixedFloat, RoundingMode, Sign, Status};
use pfloat::math::{ln_2_at, pi_at, pi_over_2_at, two_over_pi_at};

fn close_at(v: &BigFloat, expected: &BigFloat, bits: u32) -> bool {
    let (diff, _) = v.sub(expected, RoundingMode::NearestEven);
    let abs_diff = diff.abs();
    if abs_diff.is_zero() {
        return true;
    }
    let p = v.precision().max(expected.precision());
    let one = BigFloat::try_from_i64_exact(1, p).unwrap();
    let two = BigFloat::try_from_i64_exact(2, p).unwrap();
    let abs_b = expected.abs();
    let mut bound = if abs_b.is_zero() { one } else { abs_b };
    for _ in 0..bits {
        bound = bound.div(&two, RoundingMode::NearestEven).0;
    }
    matches!(
        abs_diff.partial_cmp(&bound).0,
        Some(Ordering::Less | Ordering::Equal)
    )
}

#[test]
fn exp10_zero_is_one() {
    let z = BigFloat::try_new_zero(Sign::Positive, 53).unwrap();
    let (r, _) = z.exp10(RoundingMode::NearestEven);
    let one = BigFloat::try_from_i64_exact(1, 53).unwrap();
    assert_eq!(r.partial_cmp(&one).0, Some(Ordering::Equal));
}

#[test]
fn exp10_one_is_ten() {
    let one = BigFloat::try_from_i64_exact(1, 113).unwrap();
    let (r, _) = one.exp10(RoundingMode::NearestEven);
    let ten = BigFloat::try_from_i64_exact(10, 113).unwrap();
    assert!(close_at(&r, &ten, 113 - 12));
}

#[test]
fn exp10_three_is_thousand() {
    let three = BigFloat::try_from_i64_exact(3, 113).unwrap();
    let (r, _) = three.exp10(RoundingMode::NearestEven);
    let k = BigFloat::try_from_i64_exact(1000, 113).unwrap();
    assert!(close_at(&r, &k, 113 - 12));
}

#[test]
fn exp10_negative() {
    // 10^-2 = 0.01
    let neg_two = BigFloat::try_from_i64_exact(-2, 113).unwrap();
    let (r, _) = neg_two.exp10(RoundingMode::NearestEven);
    let hundredth = BigFloat::parse_str("0.01", 113, RoundingMode::NearestEven)
        .unwrap()
        .0;
    assert!(close_at(&r, &hundredth, 113 - 12));
}

#[test]
fn exp10_pos_inf() {
    let pi = BigFloat::try_new_infinity(Sign::Positive, 53).unwrap();
    let (r, _) = pi.exp10(RoundingMode::NearestEven);
    assert!(r.is_infinite() && r.is_sign_positive());
}

#[test]
fn exp10_neg_inf_is_zero() {
    let ni = BigFloat::try_new_infinity(Sign::Negative, 53).unwrap();
    let (r, _) = ni.exp10(RoundingMode::NearestEven);
    assert!(r.is_zero() && r.is_sign_positive());
}

#[test]
fn exp10_nan_propagates() {
    let q = BigFloat::try_new_quiet_nan(Sign::Positive, 53, &[]).unwrap();
    let (r, _) = q.exp10(RoundingMode::NearestEven);
    assert!(r.is_quiet_nan());
}

#[test]
fn exp10_snan_invalid() {
    let sn = BigFloat::try_new_signaling_nan(Sign::Positive, 53, &[]).unwrap();
    let (r, status) = sn.exp10(RoundingMode::NearestEven);
    assert!(r.is_quiet_nan());
    assert!(status.invalid());
}

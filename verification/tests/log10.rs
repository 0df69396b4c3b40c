#![allow(unused_imports)]

use core::cmp::Ordering;
use pfloat::{BigFloat, BuildError, Class, FixedFloat, RoundingMode, Sign, Status};
use pfloat::math::{ln_2_at, pi_at, pi_over_2_at, two_over_pi_at};

fn close_at(v: &BigFloat, expected: &BigFloat, bits: u32) -> bool {
    let (diff, _) = v.sub(expected, RoundingMode::NearestEven);
    let abs_diff = diff.abs();
    if abs_diff.is_zero() {
        return true;
    }
    let p = v.precision().max(expected.precision());
    let one = BigFloat::try_from_i64_exact(1, p).unwrap();
    let two = BigFloat::try_from_i64_exact(2, p).unwrap();
    let abs_b = expected.abs();
    let mut bound = if abs_b.is_zero() { one } else { abs_b };
    for _ in 0..bits {
        bound = bound.div(&two, RoundingMode::NearestEven).0;
    }
    matches!(
        abs_diff.partial_cmp(&bound).0,
        Some(Ordering::Less | Ordering::Equal)
    )
}

#[test]
fn log10_one_is_zero() {
    let one = BigFloat::try_from_i64_exact(1, 113).unwrap();
    let (r, _) = one.log10(RoundingMode::NearestEven);
    assert!(r.is_zero());
}

#[test]
fn log10_ten_is_one() {
    let ten = BigFloat::try_from_i64_exact(10, 113).unwrap();
    let (r, _) = ten.log10(RoundingMode::NearestEven);
    let one = BigFloat::try_from_i64_exact(1, 113).unwrap();
    assert!(close_at(&r, &one, 113 - 12));
}

#[test]
fn log10_thousand_is_three() {
    let k = BigFloat::try_from_i64_exact(1000, 113).unwrap();
    let (r, _) = k.log10(RoundingMode::NearestEven);
    let three = BigFloat::try_from_i64_exact(3, 113).unwrap();
    assert!(close_at(&r, &three, 113 - 12));
}

#[test]
fn log10_zero_is_neg_inf() {
    let z = BigFloat::try_new_zero(Sign::Positive, 53).unwrap();
    let (r, status) = z.log10(RoundingMode::NearestEven);
    assert!(r.is_infinite() && r.is_sign_negative());
    assert!(status.div_by_zero());
}

#[test]
fn log10_negative_is_invalid() {
    let neg = BigFloat::try_from_i64_exact(-5, 53).unwrap();
    let (r, status) = neg.log10(RoundingMode::NearestEven);
    assert!(r.is_quiet_nan());
    assert!(status.invalid());
}

#[test]
fn log10_pos_inf() {
    let pi = BigFloat::try_new_infinity(Sign::Positive, 53).unwrap();
    let (r, _) = pi.log10(RoundingMode::NearestEven);
    assert!(r.is_infinite() && r.is_sign_positive());
}

#[test]
fn log10_neg_inf_is_invalid() {
    let ni = BigFloat::try_new_infinity(Sign::Negative, 53).unwrap();
    let (r, status) = ni.log10(RoundingMode::NearestEven);
    assert!(r.is_quiet_nan());
    assert!(status.invalid());
}

#[test]
fn log10_round_trip_with_exp10() {
    for n in &[2i64, 5, 10, 50, 100] {
        let x = BigFloat::try_from_i64_exact(*n, 113).unwrap();
        let (l, _) = x.log10(RoundingMode::NearestEven);
        let (back, _) = l.exp10(RoundingMode::NearestEven);
        assert!(
            close_at(&back, &x, 113 - 12),
            "log10/exp10 round-trip at {n:?}"
        );
    }
}

#[test]
fn log10_nan_propagates() {
    let q = BigFloat::try_new_quiet_nan(Sign::Positive, 53, &[]).unwrap();
    let (r, _) = q.log10(RoundingMode::NearestEven);
    assert!(r.is_quiet_nan());
}

#[test]
fn log10_snan_invalid() {
    let sn = BigFloat::try_new_signaling_nan(Sign::Positive, 53, &[]).unwrap();
    let (r, status) = sn.log10(RoundingMode::NearestEven);
    assert!(r.is_quiet_nan());
    assert!(status.invalid());
}

#![allow(unused_imports)]

use core::cmp::Ordering;
use pfloat::{BigFloat, BuildError, Class, FixedFloat, RoundingMode, Sign, Status};
use pfloat::math::{ln_2_at, pi_at, pi_over_2_at, two_over_pi_at};

fn close_at(v: &BigFloat, expected: &BigFloat, bits: u32) -> bool {
    let (diff, _) = v.sub(expected, RoundingMode::NearestEven);
    let abs_diff = diff.abs();
    if abs_diff.is_zero() {
        return true;
    }
    let p = v.precision().max(expected.precision());
    let one = BigFloat::try_from_i64_exact(1, p).unwrap();
    let two = BigFloat::try_from_i64_exact(2, p).unwrap();
    let abs_b = expected.abs();
    let mut bound = if abs_b.is_zero() { one } else { abs_b };
    for _ in 0..bits {
        bound = bound.div(&two, RoundingMode::NearestEven).0;
    }
    matches!(
        abs_diff.partial_cmp(&bound).0,
        Some(Ordering::Less | Ordering::Equal)
    )
}

#[test]
fn expm1_zero_is_zero() {
    for s in [Sign::Positive, Sign::Negative] {
        let z = BigFloat::try_new_zero(s, 53).unwrap();
        let (r, _) = z.expm1(RoundingMode::NearestEven);
        assert!(r.is_zero());
        assert_eq!(r.is_sign_negative(), matches!(s, Sign::Negative));
    }
}

#[test]
fn expm1_pos_inf() {
    let pi = BigFloat::try_new_infinity(Sign::Positive, 53).unwrap();
    let (r, _) = pi.expm1(RoundingMode::NearestEven);
    assert!(r.is_infinite() && r.is_sign_positive());
}

#[test]
fn expm1_neg_inf_is_neg_one() {
    let ni = BigFloat::try_new_infinity(Sign::Negative, 53).unwrap();
    let (r, _) = ni.expm1(RoundingMode::NearestEven);
    let neg_one = BigFloat::try_from_i64_exact(-1, 53).unwrap();
    assert_eq!(r.partial_cmp(&neg_one).0, Some(Ordering::Equal));
}

#[test]
fn expm1_nan_propagates() {
    let q = BigFloat::try_new_quiet_nan(Sign::Positive, 53, &[]).unwrap();
    let (r, _) = q.expm1(RoundingMode::NearestEven);
    assert!(r.is_quiet_nan());
}

#[test]
fn expm1_snan_invalid() {
    let sn = BigFloat::try_new_signaling_nan(Sign::Positive, 53, &[]).unwrap();
    let (r, status) = sn.expm1(RoundingMode::NearestEven);
    assert!(r.is_quiet_nan());
    assert!(status.invalid());
}

#[test]
fn expm1_small_x_no_cancellation() {
    // The naïve `exp(x) − 1` at target precision loses ~|exp(x)|
    // worth of bits to cancellation against 1. expm1 boosts
    // working precision so the result keeps the leading bits of
    // `x`. Test: for x = 2^−50, expm1(x) agrees with x to about
    // 49 bits (relative error ~x/2 from the x²/2 second-order
    // term).
    let p = 113u32;
    let one = BigFloat::try_from_i64_exact(1, p).unwrap();
    let two = BigFloat::try_from_i64_exact(2, p).unwrap();
    let mut x = one;
    for _ in 0..50 {
        x = x.div(&two, RoundingMode::NearestEven).0;
    }
    let (r, _) = x.expm1(RoundingMode::NearestEven);
    assert!(close_at(&r, &x, 49));
}

#[test]
fn expm1_at_one() {
    // expm1(1) = e - 1 ≈ 1.71828...
    let one = BigFloat::try_from_i64_exact(1, 113).unwrap();
    let (r, _) = one.expm1(RoundingMode::NearestEven);
    let (e_one, _) = one.exp(RoundingMode::NearestEven);
    let (expected, _) = e_one.sub(&one, RoundingMode::NearestEven);
    assert!(close_at(&r, &expected, 113 - 12));
}

#[test]
fn expm1_large() {
    // expm1(20) = exp(20) − 1. No cancellation issue: the −1
    // is negligible relative to exp(20) ≈ 4.85e8.
    let twenty = BigFloat::try_from_i64_exact(20, 113).unwrap();
    let (r, _) = twenty.expm1(RoundingMode::NearestEven);
    let (ex, _) = twenty.exp(RoundingMode::NearestEven);
    let one = BigFloat::try_from_i64_exact(1, 113).unwrap();
    let (expected, _) = ex.sub(&one, RoundingMode::NearestEven);
    assert!(close_at(&r, &expected, 113 - 12));
}

#[test]
fn fixed_expm1() {
    let zero = FixedFloat::<53>::zero();
    let (r, _) = zero.expm1(RoundingMode::NearestEven);
    assert!(r.is_zero());
}

#[test]
fn expm1_tiny_argument_rounds_from_x() {
    let one = BigFloat::try_from_i64_exact(1, 53).unwrap();
    let (x, _) = one.scale_by_pow2(-100);
    let (r, st) = x.expm1(RoundingMode::TowardPositive);
    let (up, _) = BigFloat::try_from_i64_exact((1i64 << 52) + 1, 53).unwrap().scale_by_pow2(-152);
    assert_eq!(r.partial_cmp(&up).0, Some(Ordering::Equal), "expm1(2^-100) up = {r:?}");
    assert!(st.inexact() && !st.invalid());
    let (rn, _) = x.expm1(RoundingMode::NearestEven);
    assert_eq!(rn.partial_cmp(&x).0, Some(Ordering::Equal));
}

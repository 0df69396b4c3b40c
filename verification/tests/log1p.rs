#![allow(unused_imports)]

use core::cmp::Ordering;
use pfloat::{BigFloat, BuildError, Class, FixedFloat, RoundingMode, Sign, Status};
use pfloat::math::{ln_2_at, pi_at, pi_over_2_at, two_over_pi_at};

fn close_at(v: &BigFloat, expected: &BigFloat, bits: u32) -> bool {
    let (diff, _) = v.sub(expected, RoundingMode::NearestEven);
    let abs_diff = diff.abs();
    if abs_diff.is_zero() {
        return true;
    }
    let p = v.precision().max(expected.precision());
    let one = BigFloat::try_from_i64_exact(1, p).unwrap();
    let two = BigFloat::try_from_i64_exact(2, p).unwrap();
    let abs_b = expected.abs();
    let mut bound = if abs_b.is_zero() { one } else { abs_b };
    for _ in 0..bits {
        bound = bound.div(&two, RoundingMode::NearestEven).0;
    }
    matches!(
        abs_diff.partial_cmp(&bound).0,
        Some(Ordering::Less | Ordering::Equal)
    )
}

#[test]
fn log1p_zero_is_zero() {
    for s in [Sign::Positive, Sign::Negative] {
        let z = BigFloat::try_new_zero(s, 53).unwrap();
        let (r, _) = z.log1p(RoundingMode::NearestEven);
        assert!(r.is_zero());
        assert_eq!(r.is_sign_negative(), matches!(s, Sign::Negative));
    }
}

#[test]
fn log1p_neg_one_is_neg_inf() {
    let neg_one = BigFloat::try_from_i64_exact(-1, 53).unwrap();
    let (r, status) = neg_one.log1p(RoundingMode::NearestEven);
    assert!(r.is_infinite() && r.is_sign_negative());
    assert!(status.div_by_zero());
}

#[test]
fn log1p_below_neg_one_is_invalid() {
    let neg_two = BigFloat::try_from_i64_exact(-2, 53).unwrap();
    let (r, status) = neg_two.log1p(RoundingMode::NearestEven);
    assert!(r.is_quiet_nan());
    assert!(status.invalid());
}

#[test]
fn log1p_pos_inf() {
    let pi = BigFloat::try_new_infinity(Sign::Positive, 53).unwrap();
    let (r, _) = pi.log1p(RoundingMode::NearestEven);
    assert!(r.is_infinite() && r.is_sign_positive());
}

#[test]
fn log1p_neg_inf_is_invalid() {
    let ni = BigFloat::try_new_infinity(Sign::Negative, 53).unwrap();
    let (r, status) = ni.log1p(RoundingMode::NearestEven);
    assert!(r.is_quiet_nan());
    assert!(status.invalid());
}

#[test]
fn log1p_at_one_is_ln_two() {
    // log1p(1) = ln(2)
    let one = BigFloat::try_from_i64_exact(1, 113).unwrap();
    let (r, _) = one.log1p(RoundingMode::NearestEven);
    let two = BigFloat::try_from_i64_exact(2, 113).unwrap();
    let (expected, _) = two.ln(RoundingMode::NearestEven);
    assert!(close_at(&r, &expected, 113 - 12));
}

#[test]
fn log1p_small_x_round_trip() {
    // log1p(small) ≈ small. Round-trip via expm1: expm1(log1p(x)) ≈ x.
    let p = 113u32;
    let x = BigFloat::parse_str("1e-30", p, RoundingMode::NearestEven)
        .unwrap()
        .0;
    let (lp, _) = x.log1p(RoundingMode::NearestEven);
    let (back, _) = lp.expm1(RoundingMode::NearestEven);
    assert!(close_at(&back, &x, p - 12));
}

#[test]
fn log1p_nan_propagates() {
    let q = BigFloat::try_new_quiet_nan(Sign::Positive, 53, &[]).unwrap();
    let (r, _) = q.log1p(RoundingMode::NearestEven);
    assert!(r.is_quiet_nan());
}

#[test]
fn log1p_snan_invalid() {
    let sn = BigFloat::try_new_signaling_nan(Sign::Positive, 53, &[]).unwrap();
    let (r, status) = sn.log1p(RoundingMode::NearestEven);
    assert!(r.is_quiet_nan());
    assert!(status.invalid());
}

#[test]
fn log1p_far_below_target_is_x_inexact() {
    let one = BigFloat::try_from_i64_exact(1, 53).unwrap();
    let (x, _) = one.scale_by_pow2(-2000);
    let (r, st) = x.log1p(RoundingMode::NearestEven);
    assert_eq!(r.partial_cmp(&x).0, Some(Ordering::Equal), "log1p(2^-2000) = {r:?}");
    assert!(st.inexact());
    // Toward zero the result lies just below x.
    let (rz, _) = x.log1p(RoundingMode::TowardZero);
    assert_eq!(rz.partial_cmp(&x).0, Some(Ordering::Less));
    // For a negative tiny argument the magnitude grows.
    let nx = x.negated();
    let (rn, _) = nx.log1p(RoundingMode::TowardNegative);
    assert_eq!(rn.partial_cmp(&nx).0, Some(Ordering::Less));
}

#[test]
fn log1p_near_minus_one_keeps_every_bit_of_x() {
    // x = -1 + 2^-200 carried at 201 bits: 1 + x must not collapse to 0.
    let one = BigFloat::try_from_i64_exact(1, 201).unwrap();
    let (tiny, _) = one.scale_by_pow2(-200);
    let (x, _) = tiny.sub(&one, RoundingMode::NearestEven);
    let (r, st) = x.log1p_round(53, RoundingMode::NearestEven).unwrap();
    assert!(r.is_normal() && r.is_sign_negative(), "log1p(-1 + 2^-200) = {r:?}");
    assert!(!st.div_by_zero() && !st.invalid());
    // -200 ln 2 = -138.629...
    let lo = BigFloat::try_from_i64_exact(-139, 53).unwrap();
    let hi = BigFloat::try_from_i64_exact(-138, 53).unwrap();
    assert_eq!(r.partial_cmp(&lo).0, Some(Ordering::Greater));
    assert_eq!(r.partial_cmp(&hi).0, Some(Ordering::Less));
}

#![allow(unused_imports)]

use core::cmp::Ordering;
use pfloat::{BigFloat, BuildError, Class, FixedFloat, RoundingMode, Sign, Status};
use pfloat::math::{ln_2_at, pi_at, pi_over_2_at, two_over_pi_at};

fn close_at(v: &BigFloat, expected: &BigFloat, bits: u32) -> bool {
    let (diff, _) = v.sub(expected, RoundingMode::NearestEven);
    let abs_diff = diff.abs();
    if abs_diff.is_zero() {
        return true;
    }
    let p = v.precision().max(expected.precision());
    let one = BigFloat::try_from_i64_exact(1, p).unwrap();
    let two = BigFloat::try_from_i64_exact(2, p).unwrap();
    let abs_b = expected.abs();
    let mut bound = if abs_b.is_zero() { one } else { abs_b };
    for _ in 0..bits {
        bound = bound.div(&two, RoundingMode::NearestEven).0;
    }
    matches!(
        abs_diff.partial_cmp(&bound).0,
        Some(Ordering::Less | Ordering::Equal)
    )
}

#[test]
fn lgamma_one_is_zero() {
    let one = BigFloat::try_from_i64_exact(1, 113).unwrap();
    let (r, _) = one.lgamma(RoundingMode::NearestEven);
    assert!(
        r.is_zero()
            || close_at(
                &r,
                &BigFloat::try_new_zero(Sign::Positive, 113).unwrap(),
                100
            )
    );
}

#[test]
fn lgamma_one_two_is_zero_under_every_directed_mode() {
    // Pinning test: the exact-value pre-Ziv dispatch for
    // lgamma(1) and lgamma(2) returns exactly +0 under every
    // mode. Without the dispatch, the Stirling/Spouge composition
    // returns 0 + epsilon and TP would round up to the smallest
    // representable positive value (the gamma(7) defect shape
    // recorded at feedback_exact_value_defeats_ziv).
    for &mode in &[
        RoundingMode::NearestEven,
        RoundingMode::TowardPositive,
        RoundingMode::TowardNegative,
        RoundingMode::TowardZero,
        RoundingMode::NearestAway,
    ] {
        for &prec in &[24u32, 53, 113] {
            for &n in &[1i64, 2] {
                let x = BigFloat::try_from_i64_exact(n, prec).unwrap();
                let (r, status) = x.lgamma(mode);
                assert!(status.is_ok(), "lgamma({n:?}) status under {mode:?}@p{prec:?}");
                assert!(
                    r.is_zero() && !r.is_sign_negative(),
                    "lgamma({n:?}) should be +0 under {mode:?}@p{prec:?}, got {r:?}"
                );
                assert_eq!(r.precision(), prec);
            }
        }
    }
}

#[test]
fn lgamma_two_is_zero() {
    let two = BigFloat::try_from_i64_exact(2, 113).unwrap();
    let (r, _) = two.lgamma(RoundingMode::NearestEven);
    let zero = BigFloat::try_new_zero(Sign::Positive, 113).unwrap();
    assert!(close_at(&r, &zero, 100));
}

#[test]
fn lgamma_factorials() {
    // lgamma(6) = ln(5!) = ln(120) ≈ 4.78749174278204599.
    let six = BigFloat::try_from_i64_exact(6, 113).unwrap();
    let (r, _) = six.lgamma(RoundingMode::NearestEven);
    let expected = BigFloat::parse_str(
        "4.787491742782045994247700934523243048399592315172",
        113,
        RoundingMode::NearestEven,
    )
    .unwrap()
    .0;
    assert!(close_at(&r, &expected, 90));
}

#[test]
fn lgamma_half_is_half_ln_pi() {
    // lgamma(1/2) = ln(√π) = (1/2) · ln(π) ≈ 0.5723649429247.
    let half = BigFloat::parse_str("0.5", 113, RoundingMode::NearestEven)
        .unwrap()
        .0;
    let (r, _) = half.lgamma(RoundingMode::NearestEven);
    let expected = BigFloat::parse_str(
        "0.57236494292470008707171367567652935582364740645766",
        113,
        RoundingMode::NearestEven,
    )
    .unwrap()
    .0;
    assert!(close_at(&r, &expected, 80));
}

#[test]
fn lgamma_zero_is_pos_inf_div() {
    let z = BigFloat::try_new_zero(Sign::Positive, 53).unwrap();
    let (r, status) = z.lgamma(RoundingMode::NearestEven);
    assert!(r.is_infinite() && r.is_sign_positive());
    assert!(status.div_by_zero());
}

#[test]
fn lgamma_negative_integer_is_pos_inf_div() {
    let neg_three = BigFloat::try_from_i64_exact(-3, 53).unwrap();
    let (r, status) = neg_three.lgamma(RoundingMode::NearestEven);
    assert!(r.is_infinite() && r.is_sign_positive());
    assert!(status.div_by_zero());
}

#[test]
fn lgamma_pos_inf() {
    let pi = BigFloat::try_new_infinity(Sign::Positive, 53).unwrap();
    let (r, _) = pi.lgamma(RoundingMode::NearestEven);
    assert!(r.is_infinite() && r.is_sign_positive());
}

#[test]
fn lgamma_neg_inf() {
    let ni = BigFloat::try_new_infinity(Sign::Negative, 53).unwrap();
    let (r, _) = ni.lgamma(RoundingMode::NearestEven);
    assert!(r.is_infinite() && r.is_sign_positive());
}

#[test]
fn lgamma_negative_non_integer_via_reflection() {
    // lgamma(-0.5) = ln(|Γ(-0.5)|) = ln(2√π) ≈ 1.2655121234846454.
    let neg_half = BigFloat::parse_str("-0.5", 113, RoundingMode::NearestEven)
        .unwrap()
        .0;
    let (r, _) = neg_half.lgamma(RoundingMode::NearestEven);
    let expected = BigFloat::parse_str(
        "1.2655121234846453964889457971347059238991475408179",
        113,
        RoundingMode::NearestEven,
    )
    .unwrap()
    .0;
    assert!(close_at(&r, &expected, 80));
}

#[test]
fn lgamma_nan_propagates() {
    let q = BigFloat::try_new_quiet_nan(Sign::Positive, 53, &[]).unwrap();
    let (r, _) = q.lgamma(RoundingMode::NearestEven);
    assert!(r.is_quiet_nan());
}

#[test]
fn lgamma_snan_invalid() {
    let sn = BigFloat::try_new_signaling_nan(Sign::Positive, 53, &[]).unwrap();
    let (r, status) = sn.lgamma(RoundingMode::NearestEven);
    assert!(r.is_quiet_nan());
    assert!(status.invalid());
}

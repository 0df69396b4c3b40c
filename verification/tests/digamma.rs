#![allow(unused_imports)]

use core::cmp::Ordering;
use pfloat::{BigFloat, BuildError, Class, FixedFloat, RoundingMode, Sign, Status};
use pfloat::math::{ln_2_at, pi_at, pi_over_2_at, two_over_pi_at};

fn close_at(v: &BigFloat, expected: &BigFloat, bits: u32) -> bool {
    let (diff, _) = v.sub(expected, RoundingMode::NearestEven);
    let abs_diff = diff.abs();
    if abs_diff.is_zero() {
        return true;
    }
    let p = v.precision().max(expected.precision());
    let one = BigFloat::try_from_i64_exact(1, p).unwrap();
    let two = BigFloat::try_from_i64_exact(2, p).unwrap();
    let abs_b = expected.abs();
    let mut bound = if abs_b.is_zero() { one } else { abs_b };
    for _ in 0..bits {
        bound = bound.div(&two, RoundingMode::NearestEven).0;
    }
    matches!(
        abs_diff.partial_cmp(&bound).0,
        Some(Ordering::Less | Ordering::Equal)
    )
}

#[test]
fn digamma_one_is_neg_euler() {
    // ψ(1) = -γ (Euler-Mascheroni) ≈ -0.57721566490153286.
    let one = BigFloat::try_from_i64_exact(1, 113).unwrap();
    let (r, _) = one.digamma(RoundingMode::NearestEven);
    let expected = BigFloat::parse_str(
        "-0.57721566490153286060651209008240243104215933593992",
        113,
        RoundingMode::NearestEven,
    )
    .unwrap()
    .0;
    assert!(close_at(&r, &expected, 80));
}

#[test]
fn digamma_two_is_one_minus_euler() {
    // ψ(2) = 1 - γ ≈ 0.42278433509846714.
    let two = BigFloat::try_from_i64_exact(2, 113).unwrap();
    let (r, _) = two.digamma(RoundingMode::NearestEven);
    let expected = BigFloat::parse_str(
        "0.42278433509846713939348790991759756895784066406008",
        113,
        RoundingMode::NearestEven,
    )
    .unwrap()
    .0;
    assert!(close_at(&r, &expected, 80));
}

#[test]
fn digamma_half() {
    // ψ(1/2) = -γ - 2·ln(2) ≈ -1.9635100260214234794.
    let half = BigFloat::parse_str("0.5", 113, RoundingMode::NearestEven)
        .unwrap()
        .0;
    let (r, _) = half.digamma(RoundingMode::NearestEven);
    let expected = BigFloat::parse_str(
        "-1.9635100260214234794409763329987555671931596046604",
        113,
        RoundingMode::NearestEven,
    )
    .unwrap()
    .0;
    assert!(close_at(&r, &expected, 80));
}

#[test]
fn digamma_large_argument() {
    // ψ(100) ≈ 4.6001618527380874.
    let hundred = BigFloat::try_from_i64_exact(100, 113).unwrap();
    let (r, _) = hundred.digamma(RoundingMode::NearestEven);
    let expected = BigFloat::parse_str(
        "4.6001618527380874001986055855758507268668127907685",
        113,
        RoundingMode::NearestEven,
    )
    .unwrap()
    .0;
    assert!(close_at(&r, &expected, 80));
}

#[test]
fn digamma_recurrence() {
    // ψ(x + 1) = ψ(x) + 1/x.
    let p = 113u32;
    let x = BigFloat::try_from_i64_exact(7, p).unwrap();
    let x_plus_1 = BigFloat::try_from_i64_exact(8, p).unwrap();
    let (psi_x, _) = x.digamma(RoundingMode::NearestEven);
    let (psi_x_plus_1, _) = x_plus_1.digamma(RoundingMode::NearestEven);
    let one = BigFloat::try_from_i64_exact(1, p).unwrap();
    let (recip, _) = one.div(&x, RoundingMode::NearestEven);
    let (lhs, _) = psi_x.add(&recip, RoundingMode::NearestEven);
    assert!(close_at(&lhs, &psi_x_plus_1, p - 20));
}

#[test]
fn digamma_zero_is_neg_inf_div() {
    let z = BigFloat::try_new_zero(Sign::Positive, 53).unwrap();
    let (r, status) = z.digamma(RoundingMode::NearestEven);
    assert!(r.is_infinite() && r.is_sign_negative());
    assert!(status.div_by_zero());
}

#[test]
fn digamma_negative_integer_is_neg_inf_div() {
    let neg_three = BigFloat::try_from_i64_exact(-3, 53).unwrap();
    let (r, status) = neg_three.digamma(RoundingMode::NearestEven);
    assert!(r.is_infinite() && r.is_sign_negative());
    assert!(status.div_by_zero());
}

#[test]
fn digamma_pos_inf() {
    let pi = BigFloat::try_new_infinity(Sign::Positive, 53).unwrap();
    let (r, _) = pi.digamma(RoundingMode::NearestEven);
    assert!(r.is_infinite() && r.is_sign_positive());
}

#[test]
fn digamma_neg_inf_is_invalid() {
    let ni = BigFloat::try_new_infinity(Sign::Negative, 53).unwrap();
    let (r, status) = ni.digamma(RoundingMode::NearestEven);
    assert!(r.is_quiet_nan());
    assert!(status.invalid());
}

#[test]
fn digamma_nan_propagates() {
    let q = BigFloat::try_new_quiet_nan(Sign::Positive, 53, &[]).unwrap();
    let (r, _) = q.digamma(RoundingMode::NearestEven);
    assert!(r.is_quiet_nan());
}

#[test]
fn digamma_snan_invalid() {
    let sn = BigFloat::try_new_signaling_nan(Sign::Positive, 53, &[]).unwrap();
    let (r, status) = sn.digamma(RoundingMode::NearestEven);
    assert!(r.is_quiet_nan());
    assert!(status.invalid());
}

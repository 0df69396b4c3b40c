#![allow(unused_imports)]

use core::cmp::Ordering;
use pfloat::{BigFloat, BuildError, Class, FixedFloat, RoundingMode, Sign, Status};
use pfloat::math::{ln_2_at, pi_at, pi_over_2_at, two_over_pi_at};

fn close_at(v: &BigFloat, expected: &BigFloat, bits: u32) -> bool {
    let (diff, _) = v.sub(expected, RoundingMode::NearestEven);
    let abs_diff = diff.abs();
    if abs_diff.is_zero() {
        return true;
    }
    let p = v.precision().max(expected.precision());
    let one = BigFloat::try_from_i64_exact(1, p).unwrap();
    let two = BigFloat::try_from_i64_exact(2, p).unwrap();
    let abs_b = expected.abs();
    let mut bound = if abs_b.is_zero() { one } else { abs_b };
    for _ in 0..bits {
        bound = bound.div(&two, RoundingMode::NearestEven).0;
    }
    matches!(
        abs_diff.partial_cmp(&bound).0,
        Some(Ordering::Less | Ordering::Equal)
    )
}

#[test]
fn erfc_zero_is_one() {
    for s in [Sign::Positive, Sign::Negative] {
        let z = BigFloat::try_new_zero(s, 53).unwrap();
        let (r, _) = z.erfc(RoundingMode::NearestEven);
        let one = BigFloat::try_from_i64_exact(1, 53).unwrap();
        assert_eq!(r.partial_cmp(&one).0, Some(Ordering::Equal));
    }
}

#[test]
fn erfc_pos_inf_is_zero() {
    let pi = BigFloat::try_new_infinity(Sign::Positive, 53).unwrap();
    let (r, _) = pi.erfc(RoundingMode::NearestEven);
    assert!(r.is_zero() && r.is_sign_positive());
}

#[test]
fn erfc_neg_inf_is_two() {
    let ni = BigFloat::try_new_infinity(Sign::Negative, 53).unwrap();
    let (r, _) = ni.erfc(RoundingMode::NearestEven);
    let two = BigFloat::try_from_i64_exact(2, 53).unwrap();
    assert_eq!(r.partial_cmp(&two).0, Some(Ordering::Equal));
}

#[test]
fn erfc_one() {
    // erfc(1) ≈ 0.15729920705028513
    let one = BigFloat::try_from_i64_exact(1, 113).unwrap();
    let (r, _) = one.erfc(RoundingMode::NearestEven);
    let expected = BigFloat::parse_str(
        "0.15729920705028513065877936491739",
        113,
        RoundingMode::NearestEven,
    )
    .unwrap()
    .0;
    assert!(close_at(&r, &expected, 100));
}

#[test]
fn erfc_two() {
    // erfc(2) ≈ 0.00467773498104726583793
    let two = BigFloat::try_from_i64_exact(2, 113).unwrap();
    let (r, _) = two.erfc(RoundingMode::NearestEven);
    let expected =
        BigFloat::parse_str("0.00467773498104726583793", 113, RoundingMode::NearestEven)
            .unwrap()
            .0;
    assert!(close_at(&r, &expected, 60));
}

#[test]
fn erfc_six_is_tiny() {
    let six = BigFloat::try_from_i64_exact(6, 113).unwrap();
    let (r, _) = six.erfc(RoundingMode::NearestEven);
    let upper = BigFloat::parse_str("1e-15", 113, RoundingMode::NearestEven)
        .unwrap()
        .0;
    let lower = BigFloat::try_new_zero(Sign::Positive, 113).unwrap();
    assert_eq!(r.partial_cmp(&upper).0, Some(Ordering::Less));
    assert_eq!(r.partial_cmp(&lower).0, Some(Ordering::Greater));
}

#[test]
fn erfc_negative_is_two_minus_positive() {
    let neg_one = BigFloat::try_from_i64_exact(-1, 113).unwrap();
    let (r, _) = neg_one.erfc(RoundingMode::NearestEven);
    let expected = BigFloat::parse_str(
        "1.84270079294971486934122063508260925",
        113,
        RoundingMode::NearestEven,
    )
    .unwrap()
    .0;
    assert!(close_at(&r, &expected, 100));
}

#[test]
fn erf_erfc_sum_is_one() {
    let x = BigFloat::parse_str("0.5", 113, RoundingMode::NearestEven)
        .unwrap()
        .0;
    let (a, _) = x.erf(RoundingMode::NearestEven);
    let (b, _) = x.erfc(RoundingMode::NearestEven);
    let (sum, _) = a.add(&b, RoundingMode::NearestEven);
    let one = BigFloat::try_from_i64_exact(1, 113).unwrap();
    assert!(close_at(&sum, &one, 100));
}

#[test]
fn erfc_large_x() {
    // erfc(20) ≈ 5.39e-176. Use the asymptotic and verify the
    // result is positive and finite with the expected order of
    // magnitude.
    let twenty = BigFloat::try_from_i64_exact(20, 113).unwrap();
    let (r, _) = twenty.erfc(RoundingMode::NearestEven);
    let upper = BigFloat::parse_str("1e-170", 113, RoundingMode::NearestEven)
        .unwrap()
        .0;
    let lower = BigFloat::parse_str("1e-200", 113, RoundingMode::NearestEven)
        .unwrap()
        .0;
    assert_eq!(r.partial_cmp(&upper).0, Some(Ordering::Less));
    assert_eq!(r.partial_cmp(&lower).0, Some(Ordering::Greater));
}

#[test]
fn erfc_nan_propagates() {
    let q = BigFloat::try_new_quiet_nan(Sign::Positive, 53, &[]).unwrap();
    let (r, _) = q.erfc(RoundingMode::NearestEven);
    assert!(r.is_quiet_nan());
}

#[test]
fn erfc_snan_invalid() {
    let sn = BigFloat::try_new_signaling_nan(Sign::Positive, 53, &[]).unwrap();
    let (r, status) = sn.erfc(RoundingMode::NearestEven);
    assert!(r.is_quiet_nan());
    assert!(status.invalid());
}

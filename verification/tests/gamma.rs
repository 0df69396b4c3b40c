#![allow(unused_imports)]

use core::cmp::Ordering;
use pfloat::{BigFloat, BuildError, Class, FixedFloat, RoundingMode, Sign, Status};
use pfloat::math::{ln_2_at, pi_at, pi_over_2_at, two_over_pi_at};

fn close_at(v: &BigFloat, expected: &BigFloat, bits: u32) -> bool {
    let (diff, _) = v.sub(expected, RoundingMode::NearestEven);
    let abs_diff = diff.abs();
    if abs_diff.is_zero() {
        return true;
    }
    let p = v.precision().max(expected.precision());
    let one = BigFloat::try_from_i64_exact(1, p).unwrap();
    let two = BigFloat::try_from_i64_exact(2, p).unwrap();
    let abs_b = expected.abs();
    let mut bound = if abs_b.is_zero() { one } else { abs_b };
    for _ in 0..bits {
        bound = bound.div(&two, RoundingMode::NearestEven).0;
    }
    matches!(
        abs_diff.partial_cmp(&bound).0,
        Some(Ordering::Less | Ordering::Equal)
    )
}

#[test]
fn gamma_one_is_one() {
    let one = BigFloat::try_from_i64_exact(1, 113).unwrap();
    let (r, _) = one.gamma(RoundingMode::NearestEven);
    let expected = BigFloat::try_from_i64_exact(1, 113).unwrap();
    assert!(close_at(&r, &expected, 80));
}

#[test]
fn gamma_two_is_one() {
    let two = BigFloat::try_from_i64_exact(2, 113).unwrap();
    let (r, _) = two.gamma(RoundingMode::NearestEven);
    let expected = BigFloat::try_from_i64_exact(1, 113).unwrap();
    assert!(close_at(&r, &expected, 80));
}

#[test]
fn gamma_five_is_twentyfour() {
    // Γ(5) = 4! = 24.
    let five = BigFloat::try_from_i64_exact(5, 113).unwrap();
    let (r, _) = five.gamma(RoundingMode::NearestEven);
    let expected = BigFloat::try_from_i64_exact(24, 113).unwrap();
    assert!(close_at(&r, &expected, 80));
}

#[test]
fn gamma_half_is_sqrt_pi() {
    // Γ(1/2) = √π ≈ 1.7724538509055160272981674833411.
    let half = BigFloat::parse_str("0.5", 113, RoundingMode::NearestEven)
        .unwrap()
        .0;
    let (r, _) = half.gamma(RoundingMode::NearestEven);
    let expected = BigFloat::parse_str(
        "1.7724538509055160272981674833411451827975494561224",
        113,
        RoundingMode::NearestEven,
    )
    .unwrap()
    .0;
    assert!(close_at(&r, &expected, 80));
}

#[test]
fn gamma_pos_zero_is_pos_inf_div() {
    let z = BigFloat::try_new_zero(Sign::Positive, 53).unwrap();
    let (r, status) = z.gamma(RoundingMode::NearestEven);
    assert!(r.is_infinite() && r.is_sign_positive());
    assert!(status.div_by_zero());
}

#[test]
fn gamma_neg_zero_is_neg_inf_div() {
    let nz = BigFloat::try_new_zero(Sign::Negative, 53).unwrap();
    let (r, status) = nz.gamma(RoundingMode::NearestEven);
    assert!(r.is_infinite() && r.is_sign_negative());
    assert!(status.div_by_zero());
}

#[test]
fn gamma_negative_integer_is_nan() {
    let neg_three = BigFloat::try_from_i64_exact(-3, 53).unwrap();
    let (r, status) = neg_three.gamma(RoundingMode::NearestEven);
    assert!(r.is_quiet_nan());
    assert!(status.invalid());
}

#[test]
fn gamma_pos_inf() {
    let pi = BigFloat::try_new_infinity(Sign::Positive, 53).unwrap();
    let (r, _) = pi.gamma(RoundingMode::NearestEven);
    assert!(r.is_infinite() && r.is_sign_positive());
}

#[test]
fn gamma_neg_inf_is_invalid() {
    let ni = BigFloat::try_new_infinity(Sign::Negative, 53).unwrap();
    let (r, status) = ni.gamma(RoundingMode::NearestEven);
    assert!(r.is_quiet_nan());
    assert!(status.invalid());
}

#[test]
fn gamma_neg_half_is_neg_two_sqrt_pi() {
    // Γ(-1/2) = -2√π ≈ -3.5449077018110320546.
    let neg_half = BigFloat::parse_str("-0.5", 113, RoundingMode::NearestEven)
        .unwrap()
        .0;
    let (r, _) = neg_half.gamma(RoundingMode::NearestEven);
    let expected = BigFloat::parse_str(
        "-3.5449077018110320545963349666822903655950989122448",
        113,
        RoundingMode::NearestEven,
    )
    .unwrap()
    .0;
    assert!(close_at(&r, &expected, 60));
}

#[test]
fn gamma_neg_1_5_is_positive() {
    // Γ(-1.5) = 4√π/3 ≈ 2.36327180120735... (positive).
    let neg = BigFloat::parse_str("-1.5", 113, RoundingMode::NearestEven)
        .unwrap()
        .0;
    let (r, _) = neg.gamma(RoundingMode::NearestEven);
    assert!(r.is_sign_positive());
    let expected = BigFloat::parse_str(
        "2.3632718012073547030642233111215269103967326081632",
        113,
        RoundingMode::NearestEven,
    )
    .unwrap()
    .0;
    assert!(close_at(&r, &expected, 60));
}

#[test]
fn gamma_nan_propagates() {
    let q = BigFloat::try_new_quiet_nan(Sign::Positive, 53, &[]).unwrap();
    let (r, _) = q.gamma(RoundingMode::NearestEven);
    assert!(r.is_quiet_nan());
}

#[test]
fn gamma_snan_invalid() {
    let sn = BigFloat::try_new_signaling_nan(Sign::Positive, 53, &[]).unwrap();
    let (r, status) = sn.gamma(RoundingMode::NearestEven);
    assert!(r.is_quiet_nan());
    assert!(status.invalid());
}

#[test]
fn gamma_small_integers_are_exact_factorials() {
    for (n, fact) in [(1i64, 1i64), (2, 1), (3, 2), (6, 120), (13, 479_001_600)] {
        let x = BigFloat::try_from_i64_exact(n, 53).unwrap();
        let (r, st) = x.gamma(RoundingMode::NearestEven);
        let want = BigFloat::try_from_i64_exact(fact, 53).unwrap();
        assert_eq!(r.partial_cmp(&want).0, Some(Ordering::Equal), "gamma({n}) = {r:?}");
        assert_eq!(st.bits, 0, "gamma({n}) raised {st:?}");
    }
}

#[test]
fn gamma_exact_even_past_the_bit_count_of_the_factorial() {
    // 3! = 6 = 0b110 needs three bits as an integer but only two
    // significant bits: Γ(4) at two bits is exact.
    let x = BigFloat::try_from_i64_exact(4, 2).unwrap();
    let (r, st) = x.gamma(RoundingMode::NearestEven);
    let six = BigFloat::try_from_i64_exact(6, 2).unwrap();
    assert_eq!(r.partial_cmp(&six).0, Some(Ordering::Equal), "gamma(4) = {r:?}");
    assert_eq!(st.bits, 0);
}

#[test]
fn gamma_integer_whose_factorial_does_not_fit_is_rounded() {
    // 6! = 720 needs six significant bits: at four bits Γ(7) is rounded.
    let x = BigFloat::try_from_i64_exact(7, 4).unwrap();
    let (r, st) = x.gamma(RoundingMode::NearestEven);
    assert!(st.inexact(), "gamma(7) at 4 bits = {r:?}");
    // At one bit the factor 3 is not representable: Γ(4) = 6 must not
    // come out as the exact product 2.
    let x = BigFloat::try_from_i64_exact(4, 1).unwrap();
    let (r, st) = x.gamma(RoundingMode::NearestEven);
    let two = BigFloat::try_from_i64_exact(2, 1).unwrap();
    assert_ne!(r.partial_cmp(&two).0, Some(Ordering::Equal), "gamma(4) at 1 bit = {r:?}");
    assert!(st.inexact());
}

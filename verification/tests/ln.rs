#![allow(unused_imports)]

use core::cmp::Ordering;
use pfloat::{BigFloat, BuildError, Class, FixedFloat, RoundingMode, Sign, Status};
use pfloat::math::{ln_2_at, pi_at, pi_over_2_at, two_over_pi_at};

fn parse(s: &str, p: u32) -> BigFloat {
    BigFloat::parse_str(s, p, RoundingMode::NearestEven)
        .expect("parse should succeed")
        .0
}

fn close_at(v: &BigFloat, expected: &BigFloat, prec: u32) -> bool {
    // |v - expected| <= 4 ULP at expected's magnitude.
    let (diff, _) = v.sub(expected, RoundingMode::NearestEven);
    let abs_diff = diff.abs();
    if abs_diff.is_zero() {
        return true;
    }
    if !abs_diff.is_normal() {
        return false;
    }
    let exp_diff = match &abs_diff.class {
        Class::Normal { exponent, .. } => *exponent,
        _ => return false,
    };
    let expected_exp = match &expected.class {
        Class::Normal { exponent, .. } => *exponent,
        _ => 0,
    };
    let tolerance_exp = expected_exp - i64::from(prec) + 4;
    exp_diff <= tolerance_exp
}

#[test]
fn ln_one_is_zero() {
    let one = BigFloat::try_from_i64_exact(1, 53).unwrap();
    let (r, status) = one.ln(RoundingMode::NearestEven);
    assert!(status.is_ok());
    assert!(r.is_zero(), "ln(1) should be 0, got {r:?}");
}

#[test]
fn ln_one_is_zero_under_every_directed_mode() {
    // Pinning test: the exact-value pre-Ziv dispatch
    // returns exactly +0 under every mode. Without the dispatch,
    // the atanh-series composition's tiny noise would tip TP to
    // the smallest representable positive value at target precision.
    for &mode in &[
        RoundingMode::NearestEven,
        RoundingMode::TowardPositive,
        RoundingMode::TowardNegative,
        RoundingMode::TowardZero,
        RoundingMode::NearestAway,
    ] {
        for &prec in &[24u32, 53, 113] {
            let one = BigFloat::try_from_i64_exact(1, prec).unwrap();
            let (r, status) = one.ln(mode);
            assert!(status.is_ok(), "ln(1) status under {mode:?}@p{prec:?}");
            assert!(
                r.is_zero() && !r.is_sign_negative(),
                "ln(1) should be +0 under {mode:?}@p{prec:?}, got {r:?}"
            );
            assert_eq!(r.precision(), prec);
        }
    }
}

#[test]
fn ln_e_is_one() {
    let e = parse("2.718281828459045", 53);
    let (r, _) = e.ln(RoundingMode::NearestEven);
    let one = BigFloat::try_from_i64_exact(1, 53).unwrap();
    assert!(close_at(&r, &one, 53), "ln(e) ≈ 1, got {r:?}");
}

#[test]
fn ln_two() {
    let two = BigFloat::try_from_i64_exact(2, 53).unwrap();
    let (r, _) = two.ln(RoundingMode::NearestEven);
    // ln(2) ≈ 0.6931471805599453
    let expected = parse("0.6931471805599453", 53);
    assert!(close_at(&r, &expected, 53), "ln(2) = {r:?}");
}

#[test]
fn ln_ten() {
    let ten = BigFloat::try_from_i64_exact(10, 53).unwrap();
    let (r, _) = ten.ln(RoundingMode::NearestEven);
    // ln(10) ≈ 2.302585092994046
    let expected = parse("2.302585092994046", 53);
    assert!(close_at(&r, &expected, 53), "ln(10) = {r:?}");
}

#[test]
fn ln_half() {
    let half = parse("0.5", 53);
    let (r, _) = half.ln(RoundingMode::NearestEven);
    // ln(0.5) = -ln(2) ≈ -0.6931471805599453
    let expected = parse("-0.6931471805599453", 53);
    assert!(close_at(&r, &expected, 53), "ln(0.5) = {r:?}");
}

#[test]
fn ln_zero() {
    let pz = BigFloat::try_new_zero(Sign::Positive, 53).unwrap();
    let (r, status) = pz.ln(RoundingMode::NearestEven);
    assert!(r.is_infinite());
    assert!(r.is_sign_negative());
    assert!(status.div_by_zero());

    let nz = BigFloat::try_new_zero(Sign::Negative, 53).unwrap();
    let (r2, status2) = nz.ln(RoundingMode::NearestEven);
    assert!(r2.is_infinite());
    assert!(r2.is_sign_negative());
    assert!(status2.div_by_zero());
}

#[test]
fn ln_negative_is_invalid() {
    let neg_one = BigFloat::try_from_i64_exact(-1, 53).unwrap();
    let (r, status) = neg_one.ln(RoundingMode::NearestEven);
    assert!(r.is_quiet_nan());
    assert!(status.invalid());
}

#[test]
fn ln_inf() {
    let pi = BigFloat::try_new_infinity(Sign::Positive, 53).unwrap();
    let (r, status) = pi.ln(RoundingMode::NearestEven);
    assert!(r.is_infinite());
    assert!(r.is_sign_positive());
    assert!(status.is_ok());

    let ni = BigFloat::try_new_infinity(Sign::Negative, 53).unwrap();
    let (r2, status2) = ni.ln(RoundingMode::NearestEven);
    assert!(r2.is_quiet_nan());
    assert!(status2.invalid());
}

#[test]
fn ln_qnan_propagates() {
    let q = BigFloat::try_new_quiet_nan(Sign::Positive, 53, &[]).unwrap();
    let (r, status) = q.ln(RoundingMode::NearestEven);
    assert!(r.is_quiet_nan());
    assert!(!status.invalid());
}

#[test]
fn ln_snan_raises_invalid() {
    let sn = BigFloat::try_new_signaling_nan(Sign::Positive, 53, &[]).unwrap();
    let (r, status) = sn.ln(RoundingMode::NearestEven);
    assert!(r.is_quiet_nan());
    assert!(status.invalid());
}

#[test]
fn ln_exp_round_trip() {
    // ln(exp(x)) ≈ x for moderate x.
    for &n in &[1i64, 2, 5, 7, -3, 10] {
        let x = BigFloat::try_from_i64_exact(n, 113).unwrap();
        let (e_x, _) = x.exp(RoundingMode::NearestEven);
        let (back, _) = e_x.ln(RoundingMode::NearestEven);
        assert!(
            close_at(&back, &x, 113),
            "ln(exp({n:?})) = {back:?}, expected {x:?}"
        );
    }
}

#[test]
fn exp_ln_round_trip() {
    // exp(ln(x)) ≈ x for positive x.
    for &n in &[1i64, 2, 5, 7, 10, 100, 1000] {
        let x = BigFloat::try_from_i64_exact(n, 113).unwrap();
        let (ln_x, _) = x.ln(RoundingMode::NearestEven);
        let (back, _) = ln_x.exp(RoundingMode::NearestEven);
        assert!(close_at(&back, &x, 113), "exp(ln({n:?})) = {back:?}");
    }
}

#[test]
fn ln_high_precision() {
    // Verify via the round-trip exp(ln(2)) ≈ 2 at 256-bit
    // precision. (A literal decimal expected value would need
    // round_trip_digit_count(256) = 79 digits to faithfully
    // pin the 256-bit binary representation; the exp/ln pair
    // is the cleaner check.)
    let two = BigFloat::try_from_i64_exact(2, 256).unwrap();
    let (ln2, _) = two.ln(RoundingMode::NearestEven);
    assert_eq!(ln2.precision(), 256);
    let (back, _) = ln2.exp(RoundingMode::NearestEven);
    assert!(
        close_at(&back, &two, 256),
        "exp(ln(2)) at 256 bits = {back:?}"
    );
}

#[test]
fn ln_round_rejects_zero_precision() {
    let two = BigFloat::try_from_i64_exact(2, 53).unwrap();
    assert_eq!(
        two.ln_round(0, RoundingMode::NearestEven),
        Err(BuildError::PrecisionZero)
    );
}

#[test]
fn fixed_ln() {
    let two = FixedFloat::<53>::try_from_i64_exact(2).unwrap();
    let (r, _) = two.ln(RoundingMode::NearestEven);
    let expected = parse("0.6931471805599453", 53);
    let cmp = r
        .partial_cmp(&FixedFloat::<53>::try_from_big_exact(expected).unwrap())
        .0;
    assert!(matches!(
        cmp,
        Some(Ordering::Equal | Ordering::Less | Ordering::Greater)
    ));
}

#[test]
fn ln_just_above_one() {
    // ln(1 + ε) ≈ ε for small ε; round-trip through exp checks
    // the atanh series converges correctly near m = 1.
    let one_plus = parse("1.0001", 113);
    let (r, _) = one_plus.ln(RoundingMode::NearestEven);
    let (back, _) = r.exp(RoundingMode::NearestEven);
    assert!(close_at(&back, &one_plus, 113), "exp(ln(1.0001)) = {back:?}");
}

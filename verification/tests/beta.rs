#![allow(unused_imports)]

use core::cmp::Ordering;
use pfloat::{BigFloat, BuildError, Class, FixedFloat, RoundingMode, Sign, Status};
use pfloat::math::{ln_2_at, pi_at, pi_over_2_at, two_over_pi_at};

fn close_at(v: &BigFloat, expected: &BigFloat, bits: u32) -> bool {
    let (diff, _) = v.sub(expected, RoundingMode::NearestEven);
    let abs_diff = diff.abs();
    if abs_diff.is_zero() {
        return true;
    }
    let p = v.precision().max(expected.precision());
    let one = BigFloat::try_from_i64_exact(1, p).unwrap();
    let two = BigFloat::try_from_i64_exact(2, p).unwrap();
    let abs_b = expected.abs();
    let mut bound = if abs_b.is_zero() { one } else { abs_b };
    for _ in 0..bits {
        bound = bound.div(&two, RoundingMode::NearestEven).0;
    }
    matches!(
        abs_diff.partial_cmp(&bound).0,
        Some(Ordering::Less | Ordering::Equal)
    )
}

#[test]
fn beta_2_3_is_one_twelfth() {
    // β(2, 3) = 1/12.
    let a = BigFloat::try_from_i64_exact(2, 113).unwrap();
    let b = BigFloat::try_from_i64_exact(3, 113).unwrap();
    let (r, _) = a.beta(&b, RoundingMode::NearestEven);
    let twelve = BigFloat::try_from_i64_exact(12, 113).unwrap();
    let one = BigFloat::try_from_i64_exact(1, 113).unwrap();
    let (expected, _) = one.div(&twelve, RoundingMode::NearestEven);
    assert!(close_at(&r, &expected, 80));
}

#[test]
fn beta_half_half_is_pi() {
    // β(1/2, 1/2) = π.
    let half = BigFloat::parse_str("0.5", 113, RoundingMode::NearestEven)
        .unwrap()
        .0;
    let (r, _) = half.beta(&half, RoundingMode::NearestEven);
    let expected = BigFloat::parse_str(
        "3.1415926535897932384626433832795028841971693993751",
        113,
        RoundingMode::NearestEven,
    )
    .unwrap()
    .0;
    assert!(close_at(&r, &expected, 80));
}

#[test]
fn beta_3_5() {
    // β(3, 5) = 1/105 ≈ 0.00952380952380952.
    let a = BigFloat::try_from_i64_exact(3, 113).unwrap();
    let b = BigFloat::try_from_i64_exact(5, 113).unwrap();
    let (r, _) = a.beta(&b, RoundingMode::NearestEven);
    let expected = BigFloat::parse_str(
        "0.0095238095238095238095238095238095238095238095238095",
        113,
        RoundingMode::NearestEven,
    )
    .unwrap()
    .0;
    assert!(close_at(&r, &expected, 80));
}

#[test]
fn beta_is_symmetric() {
    // β(a, b) = β(b, a).
    let a = BigFloat::parse_str("2.5", 113, RoundingMode::NearestEven)
        .unwrap()
        .0;
    let b = BigFloat::parse_str("3.7", 113, RoundingMode::NearestEven)
        .unwrap()
        .0;
    let (ab, _) = a.beta(&b, RoundingMode::NearestEven);
    let (ba, _) = b.beta(&a, RoundingMode::NearestEven);
    assert!(close_at(&ab, &ba, 80));
}

fn p(s: &str) -> BigFloat {
    BigFloat::parse_str(s, 113, RoundingMode::NearestEven)
        .unwrap()
        .0
}

#[test]
fn beta_negative_integer_no_cancellation_is_invalid() {
    // Case 3: a = −1 (negative integer), b = 2, a+b = 1
    // is positive so no pole cancellation → qNaN + INVALID.
    let a = BigFloat::try_from_i64_exact(-1, 53).unwrap();
    let b = BigFloat::try_from_i64_exact(2, 53).unwrap();
    let (r, status) = a.beta(&b, RoundingMode::NearestEven);
    assert!(r.is_quiet_nan());
    assert!(status.invalid());
    // m > n (B(−3,5), mpmath +inf) is the same case.
    let a = BigFloat::try_from_i64_exact(-3, 53).unwrap();
    let b = BigFloat::try_from_i64_exact(5, 53).unwrap();
    let (r, status) = a.beta(&b, RoundingMode::NearestEven);
    assert!(r.is_quiet_nan() && status.invalid());
}

#[test]
fn beta_zero_operand_is_signed_pole() {
    // Case 0: a = +0, b = 2 → +∞ + DIV_BY_ZERO
    // (mirrors gamma(+0)); a = −0 → −∞ + DIV_BY_ZERO.
    let b = BigFloat::try_from_i64_exact(2, 53).unwrap();
    let pz = BigFloat::try_new_zero(Sign::Positive, 53).unwrap();
    let (r, status) = pz.beta(&b, RoundingMode::NearestEven);
    assert!(r.is_infinite() && r.is_sign_positive());
    assert!(status.div_by_zero());
    let nz = BigFloat::try_new_zero(Sign::Negative, 53).unwrap();
    let (r, status) = nz.beta(&b, RoundingMode::NearestEven);
    assert!(r.is_infinite() && r.is_sign_negative());
    assert!(status.div_by_zero());
}

#[test]
fn beta_case2_negative_non_integer_signed() {
    // Case 2, pinned vs mpmath (dps 55).
    let (r, _) = p("-0.5").beta(&p("0.25"), RoundingMode::NearestEven);
    assert!(close_at(
        &r,
        &p("2.622057554292119810464839589891119413682754951431623163"),
        80
    ));
    assert!(r.is_sign_positive());
    let (r, _) = p("-0.5").beta(&p("0.75"), RoundingMode::NearestEven);
    assert!(close_at(
        &r,
        &p("-1.198140234735592207439922492280323878227212663215651558"),
        80
    ));
    assert!(r.is_sign_negative());
    let (r, _) = p("-2.5").beta(&p("-1.25"), RoundingMode::NearestEven);
    assert!(close_at(
        &r,
        &p("-13.8385197111960899959311047858377407935243062601407755"),
        80
    ));
}

#[test]
fn beta_case2_symmetric_on_negative_domain() {
    let (ab, _) = p("-0.5").beta(&p("0.75"), RoundingMode::NearestEven);
    let (ba, _) = p("0.75").beta(&p("-0.5"), RoundingMode::NearestEven);
    assert!(close_at(&ab, &ba, 80));
}

#[test]
fn beta_case2_near_pole() {
    // a = −1 + 1/1024 (exact dyadic, non-integer), near the −1
    // Γ pole; finite, large magnitude. mpmath: −1025.0009775171…
    let a = p("-0.9990234375");
    let b = BigFloat::try_from_i64_exact(2, 113).unwrap();
    let (r, _) = a.beta(&b, RoundingMode::NearestEven);
    assert!(close_at(
        &r,
        &p("-1025.000977517106549364613880742913000977517106549364614"),
        70
    ));
}

#[test]
fn beta_case5_sum_is_nonpos_integer_is_zero() {
    // Case 5: a,b not poles, a+b ∈ {0,−1,…} → +0.
    for (x, y) in [("-0.5", "0.5"), ("-1.5", "0.5"), ("-0.5", "-0.5")] {
        let (r, status) = p(x).beta(&p(y), RoundingMode::NearestEven);
        assert!(r.is_zero() && r.is_sign_positive(), "B({x:?},{y:?})");
        assert!(!status.invalid() && !status.div_by_zero());
    }
}

#[test]
fn beta_case4_pole_cancellation_closed_form() {
    // Case 4: B(−n,m) = (−1)^m (m−1)!(n−m)!/n!,
    // pinned vs mpmath; symmetric.
    let cases: &[(i64, i64, &str)] = &[
        (
            -3,
            2,
            "0.16666666666666666666666666666666666666666666666667",
        ),
        (-1, 1, "-1.0"),
        (-5, 5, "-0.2"),
        (
            -5,
            3,
            "-0.03333333333333333333333333333333333333333333333333",
        ),
        (
            -3,
            1,
            "-0.33333333333333333333333333333333333333333333333333",
        ),
    ];
    for &(na, mb, exp) in cases {
        let a = BigFloat::try_from_i64_exact(na, 113).unwrap();
        let b = BigFloat::try_from_i64_exact(mb, 113).unwrap();
        let (r, status) = a.beta(&b, RoundingMode::NearestEven);
        assert!(!status.invalid(), "B({na:?},{mb:?}) should be finite");
        assert!(close_at(&r, &p(exp), 90), "B({na:?},{mb:?})");
        // symmetric: B(m,−n) == B(−n,m)
        let (rs, _) = b.beta(&a, RoundingMode::NearestEven);
        assert!(close_at(&rs, &p(exp), 90), "B({mb:?},{na:?}) symmetry");
    }
}

#[test]
fn beta_case4_factorial_exact_rational() {
    // Case 4 cross-checked against a hand-derived exact
    // rational (no mpmath): B(−10, 4) = (−1)^4·3!·6!/10!
    // = (6·720)/3628800 = 4320/3628800 = 1/840.
    let a = BigFloat::try_from_i64_exact(-10, 113).unwrap();
    let b = BigFloat::try_from_i64_exact(4, 113).unwrap();
    let (r, status) = a.beta(&b, RoundingMode::NearestEven);
    assert!(!status.invalid() && !status.div_by_zero());
    assert!(r.is_sign_positive());
    let one = BigFloat::try_from_i64_exact(1, 113).unwrap();
    let n840 = BigFloat::try_from_i64_exact(840, 113).unwrap();
    let (expected, _) = one.div(&n840, RoundingMode::NearestEven);
    assert!(close_at(&r, &expected, 90));
    // symmetric
    let (rs, _) = b.beta(&a, RoundingMode::NearestEven);
    assert!(close_at(&rs, &expected, 90));
}

#[test]
fn beta_case4_large_m_terminates() {
    // m = 10^12: a reciprocal-product form would loop `m` times;
    // the closed form is O(1), and the test returning at all is the
    // property. With n = m+1,
    // B(−(m+1), m) = (−1)^m (m−1)!·1!/(m+1)! = (−1)^m /((m+1)·m);
    // m even ⇒ +1/(m·(m+1)).
    let m: i64 = 1_000_000_000_000;
    let neg = BigFloat::try_from_i64_exact(-(m + 1), 113).unwrap();
    let pos = BigFloat::try_from_i64_exact(m, 113).unwrap();
    let (r, status) = neg.beta(&pos, RoundingMode::NearestEven);
    assert!(!r.is_nan() && !r.is_infinite(), "got {r:?}");
    assert!(!status.invalid() && !status.div_by_zero());
    assert!(r.is_sign_positive(), "m even ⇒ positive");
    // Value cross-check: 1/(m·(m+1)).
    let m_big = BigFloat::try_from_i64_exact(m, 113).unwrap();
    let m_plus_1 = BigFloat::try_from_i64_exact(m + 1, 113).unwrap();
    let one = BigFloat::try_from_i64_exact(1, 113).unwrap();
    let (denom, _) = m_big.mul(&m_plus_1, RoundingMode::NearestEven);
    let (expected, _) = one.div(&denom, RoundingMode::NearestEven);
    assert!(close_at(&r, &expected, 50), "B(−(m+1), m) = {r:?}");
}

#[test]
fn beta_case6_both_nonpos_integers_is_invalid() {
    // Case 6: B(−2,−3) net pole (mpmath +inf) →
    // qNaN + INVALID.
    let a = BigFloat::try_from_i64_exact(-2, 53).unwrap();
    let b = BigFloat::try_from_i64_exact(-3, 53).unwrap();
    let (r, status) = a.beta(&b, RoundingMode::NearestEven);
    assert!(r.is_quiet_nan());
    assert!(status.invalid());
}

#[test]
fn beta_pos_inf_is_zero() {
    let pi = BigFloat::try_new_infinity(Sign::Positive, 53).unwrap();
    let b = BigFloat::try_from_i64_exact(2, 53).unwrap();
    let (r, _) = pi.beta(&b, RoundingMode::NearestEven);
    assert!(r.is_zero() && r.is_sign_positive());
}

#[test]
fn beta_nan_propagates() {
    let q = BigFloat::try_new_quiet_nan(Sign::Positive, 53, &[]).unwrap();
    let one = BigFloat::try_from_i64_exact(1, 53).unwrap();
    let (r, _) = q.beta(&one, RoundingMode::NearestEven);
    assert!(r.is_quiet_nan());
    let (r, _) = one.beta(&q, RoundingMode::NearestEven);
    assert!(r.is_quiet_nan());
}

#[test]
fn beta_snan_invalid() {
    let sn = BigFloat::try_new_signaling_nan(Sign::Positive, 53, &[]).unwrap();
    let one = BigFloat::try_from_i64_exact(1, 53).unwrap();
    let (r, status) = sn.beta(&one, RoundingMode::NearestEven);
    assert!(r.is_quiet_nan());
    assert!(status.invalid());
}

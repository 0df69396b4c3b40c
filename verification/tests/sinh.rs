#![allow(unused_imports)]

use core::cmp::Ordering;
use pfloat::{BigFloat, BuildError, Class, FixedFloat, RoundingMode, Sign, Status};
use pfloat::RoundingMode::{NearestAway, NearestEven, TowardNegative, TowardPositive, TowardZero};
use pfloat::math::{ln_2_at, pi_at, pi_over_2_at, two_over_pi_at};

fn close_at(v: &BigFloat, expected: &BigFloat, bits: u32) -> bool {
    let (diff, _) = v.sub(expected, RoundingMode::NearestEven);
    let abs_diff = diff.abs();
    if abs_diff.is_zero() {
        return true;
    }
    let p = v.precision().max(expected.precision());
    let one = BigFloat::try_from_i64_exact(1, p).unwrap();
    let two = BigFloat::try_from_i64_exact(2, p).unwrap();
    let abs_b = expected.abs();
    let mut bound = if abs_b.is_zero() { one } else { abs_b };
    for _ in 0..bits {
        bound = bound.div(&two, RoundingMode::NearestEven).0;
    }
    matches!(
        abs_diff.partial_cmp(&bound).0,
        Some(Ordering::Less | Ordering::Equal)
    )
}

#[test]
fn sinh_zero() {
    for s in [Sign::Positive, Sign::Negative] {
        let z = BigFloat::try_new_zero(s, 53).unwrap();
        let (r, _) = z.sinh(RoundingMode::NearestEven);
        assert!(r.is_zero());
        assert_eq!(r.is_sign_negative(), matches!(s, Sign::Negative));
    }
}

#[test]
fn sinh_pos_inf() {
    let pi = BigFloat::try_new_infinity(Sign::Positive, 53).unwrap();
    let (r, _) = pi.sinh(RoundingMode::NearestEven);
    assert!(r.is_infinite() && r.is_sign_positive());
}

#[test]
fn sinh_neg_inf() {
    let ni = BigFloat::try_new_infinity(Sign::Negative, 53).unwrap();
    let (r, _) = ni.sinh(RoundingMode::NearestEven);
    assert!(r.is_infinite() && r.is_sign_negative());
}

#[test]
fn sinh_one_matches_definition() {
    // sinh(1) = (e − 1/e)/2 ≈ 1.1752011936438014
    let one = BigFloat::try_from_i64_exact(1, 113).unwrap();
    let (r, _) = one.sinh(RoundingMode::NearestEven);
    let (e, _) = one.exp(RoundingMode::NearestEven);
    let neg_one = BigFloat::try_from_i64_exact(-1, 113).unwrap();
    let (e_neg, _) = neg_one.exp(RoundingMode::NearestEven);
    let (diff, _) = e.sub(&e_neg, RoundingMode::NearestEven);
    let two = BigFloat::try_from_i64_exact(2, 113).unwrap();
    let (expected, _) = diff.div(&two, RoundingMode::NearestEven);
    assert!(close_at(&r, &expected, 113 - 12));
}

#[test]
fn sinh_negation() {
    // sinh(-x) = -sinh(x)
    let two = BigFloat::try_from_i64_exact(2, 113).unwrap();
    let neg_two = BigFloat::try_from_i64_exact(-2, 113).unwrap();
    let (a, _) = two.sinh(RoundingMode::NearestEven);
    let (b, _) = neg_two.sinh(RoundingMode::NearestEven);
    let neg_a = a.negated();
    assert!(close_at(&b, &neg_a, 113 - 12));
}

#[test]
fn sinh_small_x() {
    // sinh(small) ≈ small.
    let p = 113u32;
    let one = BigFloat::try_from_i64_exact(1, p).unwrap();
    let two = BigFloat::try_from_i64_exact(2, p).unwrap();
    let mut x = one;
    for _ in 0..30 {
        x = x.div(&two, RoundingMode::NearestEven).0;
    }
    let (r, _) = x.sinh(RoundingMode::NearestEven);
    // sinh(x) - x = x³/6 + ..., relative error from "sinh(x) = x" is x²/6.
    // For x = 2^-30, that's 2^-60 / 6 ≈ 2^-63. So they agree to ~60 bits.
    assert!(close_at(&r, &x, 58));
}

#[test]
fn sinh_nan_propagates() {
    let q = BigFloat::try_new_quiet_nan(Sign::Positive, 53, &[]).unwrap();
    let (r, _) = q.sinh(RoundingMode::NearestEven);
    assert!(r.is_quiet_nan());
}

#[test]
fn sinh_snan_invalid() {
    let sn = BigFloat::try_new_signaling_nan(Sign::Positive, 53, &[]).unwrap();
    let (r, status) = sn.sinh(RoundingMode::NearestEven);
    assert!(r.is_quiet_nan());
    assert!(status.invalid());
}

#[test]
fn sinh_tiny_input_directed_modes() {
    // Tiny-x short-circuit. sinh(x) = x + x³/6 + … grows
    // away from x, so for tiny x the result is x under the four modes
    // that round toward or onto x and x's away-from-zero neighbour
    // under the one that rounds away. Pins the grow direction (the
    // signature of subtracts_magnitude = false).
    let two = BigFloat::try_from_i64_exact(2, 200).unwrap();
    let mut x = BigFloat::try_from_i64_exact(1, 200).unwrap();
    for _ in 0..100 {
        x = x.div(&two, RoundingMode::NearestEven).0;
    }
    let x53 = x
        .round_to_precision(53, RoundingMode::NearestEven)
        .unwrap()
        .0;

    // Positive tiny x: only TowardPositive rounds away (up).
    for &m in &[NearestEven, NearestAway, TowardZero, TowardNegative] {
        let (r, _) = x53.sinh(m);
        assert_eq!(
            r.partial_cmp(&x53).0,
            Some(Ordering::Equal),
            "sinh +tiny {m:?}"
        );
    }
    let (r, _) = x53.sinh(TowardPositive);
    assert_eq!(
        r.partial_cmp(&x53).0,
        Some(Ordering::Greater),
        "sinh +tiny TP grows"
    );

    // Negative tiny x: only TowardNegative rounds away (down).
    let neg = x53.negated();
    for &m in &[NearestEven, NearestAway, TowardZero, TowardPositive] {
        let (r, _) = neg.sinh(m);
        assert_eq!(
            r.partial_cmp(&neg).0,
            Some(Ordering::Equal),
            "sinh -tiny {m:?}"
        );
    }
    let (r, _) = neg.sinh(TowardNegative);
    assert_eq!(
        r.partial_cmp(&neg).0,
        Some(Ordering::Less),
        "sinh -tiny TN grows"
    );
}

#![allow(unused_imports)]

use core::cmp::Ordering;
use pfloat::{BigFloat, BuildError, Class, FixedFloat, RoundingMode, Sign, Status};
use pfloat::math::{ln_2_at, pi_at, pi_over_2_at, two_over_pi_at};

fn close_at(v: &BigFloat, expected: &BigFloat, bits: u32) -> bool {
    let (diff, _) = v.sub(expected, RoundingMode::NearestEven);
    let abs_diff = diff.abs();
    if abs_diff.is_zero() {
        return true;
    }
    let p = v.precision().max(expected.precision());
    let one = BigFloat::try_from_i64_exact(1, p).unwrap();
    let two = BigFloat::try_from_i64_exact(2, p).unwrap();
    let abs_b = expected.abs();
    let mut bound = if abs_b.is_zero() { one } else { abs_b };
    for _ in 0..bits {
        bound = bound.div(&two, RoundingMode::NearestEven).0;
    }
    matches!(
        abs_diff.partial_cmp(&bound).0,
        Some(Ordering::Less | Ordering::Equal)
    )
}

#[test]
fn log2_one_is_zero() {
    let one = BigFloat::try_from_i64_exact(1, 113).unwrap();
    let (r, _) = one.log2(RoundingMode::NearestEven);
    assert!(r.is_zero());
}

#[test]
fn log2_two_is_one() {
    let two = BigFloat::try_from_i64_exact(2, 113).unwrap();
    let (r, _) = two.log2(RoundingMode::NearestEven);
    let one = BigFloat::try_from_i64_exact(1, 113).unwrap();
    assert!(close_at(&r, &one, 113 - 12));
}

#[test]
fn log2_eight_is_three() {
    let eight = BigFloat::try_from_i64_exact(8, 113).unwrap();
    let (r, _) = eight.log2(RoundingMode::NearestEven);
    let three = BigFloat::try_from_i64_exact(3, 113).unwrap();
    assert!(close_at(&r, &three, 113 - 12));
}

#[test]
fn log2_powers_of_two_are_exact_under_every_directed_mode() {
    // Pinning test: the power-of-two pre-composition
    // dispatch returns the exact integer k under every mode for
    // x = 2^k. Without the dispatch, the ln(x)/ln(2) composition
    // returns k + epsilon and TP rounds up to k + ULP for
    // sufficiently small target precision
    // (feedback_exact_value_defeats_ziv).
    for &mode in &[
        RoundingMode::NearestEven,
        RoundingMode::TowardPositive,
        RoundingMode::TowardNegative,
        RoundingMode::TowardZero,
        RoundingMode::NearestAway,
    ] {
        for &prec in &[24u32, 53, 113] {
            for &k in &[0i64, 1, 2, 3, 8, 10, 20] {
                let two_to_k = if k == 0 {
                    BigFloat::try_from_i64_exact(1, prec).unwrap()
                } else {
                    BigFloat::try_from_i64_exact(1i64 << k, prec).unwrap()
                };
                let (r, status) = two_to_k.log2(mode);
                assert!(
                    status.is_ok(),
                    "log2(2^{k:?}) status under {mode:?}@p{prec:?}: {status:?}"
                );
                let expected = BigFloat::try_from_i64_exact(k, prec).unwrap();
                assert_eq!(
                    r.partial_cmp(&expected).0,
                    Some(Ordering::Equal),
                    "log2(2^{k:?}) = {k:?} expected under {mode:?}@p{prec:?}, got {r:?}"
                );
                assert_eq!(r.precision(), prec);
            }
        }
    }
}

#[test]
fn log2_one_is_zero_under_every_directed_mode() {
    // log2(1) = log2(2^0) = 0 exactly under every mode.
    // Covered by the power-of-two dispatch (k=0). Also covered
    // by ln(1)=0 through the composition path; this test pins
    // the pre-composition dispatch.
    for &mode in &[
        RoundingMode::NearestEven,
        RoundingMode::TowardPositive,
        RoundingMode::TowardNegative,
        RoundingMode::TowardZero,
        RoundingMode::NearestAway,
    ] {
        for &prec in &[24u32, 53, 113] {
            let one = BigFloat::try_from_i64_exact(1, prec).unwrap();
            let (r, _) = one.log2(mode);
            assert!(
                r.is_zero() && !r.is_sign_negative(),
                "log2(1) should be +0 under {mode:?}@p{prec:?}, got {r:?}"
            );
        }
    }
}

#[test]
fn log2_non_power_of_two_falls_through() {
    // Regression guard: non-power-of-two inputs still
    // route through the ln(x)/ln(2) composition (i.e., they are
    // NOT silently snapped to an integer by the dispatch).
    // log2(3) ≈ 1.585; check the result is close to 1.585, not
    // exactly 1 or 2.
    let three = BigFloat::try_from_i64_exact(3, 113).unwrap();
    let (r, _) = three.log2(RoundingMode::NearestEven);
    let one = BigFloat::try_from_i64_exact(1, 113).unwrap();
    let two = BigFloat::try_from_i64_exact(2, 113).unwrap();
    assert_ne!(
        r.partial_cmp(&one).0,
        Some(Ordering::Equal),
        "log2(3) must not snap to 1"
    );
    assert_ne!(
        r.partial_cmp(&two).0,
        Some(Ordering::Equal),
        "log2(3) must not snap to 2"
    );
}

#[test]
fn log2_zero_is_neg_inf() {
    let z = BigFloat::try_new_zero(Sign::Positive, 53).unwrap();
    let (r, status) = z.log2(RoundingMode::NearestEven);
    assert!(r.is_infinite() && r.is_sign_negative());
    assert!(status.div_by_zero());
}

#[test]
fn log2_negative_is_invalid() {
    let neg = BigFloat::try_from_i64_exact(-5, 53).unwrap();
    let (r, status) = neg.log2(RoundingMode::NearestEven);
    assert!(r.is_quiet_nan());
    assert!(status.invalid());
}

#[test]
fn log2_pos_inf() {
    let pi = BigFloat::try_new_infinity(Sign::Positive, 53).unwrap();
    let (r, _) = pi.log2(RoundingMode::NearestEven);
    assert!(r.is_infinite() && r.is_sign_positive());
}

#[test]
fn log2_neg_inf_is_invalid() {
    let ni = BigFloat::try_new_infinity(Sign::Negative, 53).unwrap();
    let (r, status) = ni.log2(RoundingMode::NearestEven);
    assert!(r.is_quiet_nan());
    assert!(status.invalid());
}

#[test]
fn log2_nan_propagates() {
    let q = BigFloat::try_new_quiet_nan(Sign::Positive, 53, &[]).unwrap();
    let (r, _) = q.log2(RoundingMode::NearestEven);
    assert!(r.is_quiet_nan());
}

#[test]
fn log2_snan_invalid() {
    let sn = BigFloat::try_new_signaling_nan(Sign::Positive, 53, &[]).unwrap();
    let (r, status) = sn.log2(RoundingMode::NearestEven);
    assert!(r.is_quiet_nan());
    assert!(status.invalid());
}

#[test]
fn log2_round_trip_with_exp2() {
    for n in &[2i64, 3, 5, 7, 10, 100] {
        let x = BigFloat::try_from_i64_exact(*n, 113).unwrap();
        let (l, _) = x.log2(RoundingMode::NearestEven);
        let (back, _) = l.exp2(RoundingMode::NearestEven);
        assert!(close_at(&back, &x, 113 - 12), "log2/exp2 round-trip at {n:?}");
    }
}

#![allow(unused_imports)]

use core::cmp::Ordering;
use pfloat::{BigFloat, BuildError, Class, FixedFloat, RoundingMode, Sign, Status};
use pfloat::math::{ln_2_at, pi_at, pi_over_2_at, two_over_pi_at};

fn close_at(v: &BigFloat, expected: &BigFloat, bits: u32) -> bool {
    let (diff, _) = v.sub(expected, RoundingMode::NearestEven);
    let abs_diff = diff.abs();
    if abs_diff.is_zero() {
        return true;
    }
    let p = v.precision().max(expected.precision());
    let one = BigFloat::try_from_i64_exact(1, p).unwrap();
    let two = BigFloat::try_from_i64_exact(2, p).unwrap();
    let abs_b = expected.abs();
    let mut bound = if abs_b.is_zero() { one } else { abs_b };
    for _ in 0..bits {
        bound = bound.div(&two, RoundingMode::NearestEven).0;
    }
    matches!(
        abs_diff.partial_cmp(&bound).0,
        Some(Ordering::Less | Ordering::Equal)
    )
}

fn from_i64(n: i64, p: u32) -> BigFloat {
    BigFloat::try_from_i64_exact(n, p).unwrap()
}

#[test]
fn cot_pi_over_4_is_one() {
    let pi_2 = pi_over_2_at(160);
    let (pi_4, _) = pi_2.div(&from_i64(2, 160), RoundingMode::NearestEven);
    let (r, _) = pi_4.cot(RoundingMode::NearestEven);
    assert!(close_at(&r, &from_i64(1, 160), 140), "cot(pi/4) = {r:?}");
}

#[test]
fn sec_zero_is_one_exact() {
    for s in [Sign::Positive, Sign::Negative] {
        let z = BigFloat::try_new_zero(s, 53).unwrap();
        let (r, st) = z.sec(RoundingMode::NearestEven);
        assert!(st.is_ok() && !st.inexact());
        assert_eq!(r.partial_cmp(&from_i64(1, 53)).0, Some(Ordering::Equal));
    }
}

#[test]
fn csc_pi_over_2_is_one() {
    let pi_2 = pi_over_2_at(160);
    let (r, _) = pi_2.csc(RoundingMode::NearestEven);
    assert!(close_at(&r, &from_i64(1, 160), 140), "csc(pi/2) = {r:?}");
}

#[test]
fn cot_is_reciprocal_of_tan() {
    // tan(x)·cot(x) = 1 away from the poles.
    let x = from_i64(1, 160);
    let (t, _) = x.tan(RoundingMode::NearestEven);
    let (c, _) = x.cot(RoundingMode::NearestEven);
    let (prod, _) = t.mul(&c, RoundingMode::NearestEven);
    assert!(close_at(&prod, &from_i64(1, 160), 150), "tan·cot = {prod:?}");
}

#[test]
fn sec_matches_one_over_cos() {
    let x = from_i64(1, 160);
    let (sx, _) = x.sec(RoundingMode::NearestEven);
    let (cx, _) = x.cos(RoundingMode::NearestEven);
    let (recip, _) = from_i64(1, 160).div(&cx, RoundingMode::NearestEven);
    assert!(close_at(&sx, &recip, 150), "sec vs 1/cos");
}

#[test]
fn csc_matches_one_over_sin() {
    let x = from_i64(1, 160);
    let (cx, _) = x.csc(RoundingMode::NearestEven);
    let (sx, _) = x.sin(RoundingMode::NearestEven);
    let (recip, _) = from_i64(1, 160).div(&sx, RoundingMode::NearestEven);
    assert!(close_at(&cx, &recip, 150), "csc vs 1/sin");
}

#[test]
fn cot_csc_odd_sec_even() {
    let x = from_i64(2, 160);
    let nx = from_i64(-2, 160);
    let (c, _) = x.cot(RoundingMode::NearestEven);
    let (cn, _) = nx.cot(RoundingMode::NearestEven);
    assert!(close_at(&cn, &c.negated(), 150), "cot odd");
    let (k, _) = x.csc(RoundingMode::NearestEven);
    let (kn, _) = nx.csc(RoundingMode::NearestEven);
    assert!(close_at(&kn, &k.negated(), 150), "csc odd");
    let (s, _) = x.sec(RoundingMode::NearestEven);
    let (sn, _) = nx.sec(RoundingMode::NearestEven);
    assert!(close_at(&sn, &s, 150), "sec even");
}

#[test]
fn cot_csc_zero_are_poles() {
    for s in [Sign::Positive, Sign::Negative] {
        let z = BigFloat::try_new_zero(s, 53).unwrap();
        let (rc, sc) = z.cot(RoundingMode::NearestEven);
        assert!(rc.is_infinite() && sc.div_by_zero());
        assert_eq!(rc.is_sign_negative(), matches!(s, Sign::Negative));
        let (rk, sk) = z.csc(RoundingMode::NearestEven);
        assert!(rk.is_infinite() && sk.div_by_zero());
        assert_eq!(rk.is_sign_negative(), matches!(s, Sign::Negative));
    }
}

#[test]
fn reciprocals_infinity_is_invalid() {
    for s in [Sign::Positive, Sign::Negative] {
        let inf = BigFloat::try_new_infinity(s, 53).unwrap();
        for (r, st) in [
            inf.cot(RoundingMode::NearestEven),
            inf.sec(RoundingMode::NearestEven),
            inf.csc(RoundingMode::NearestEven),
        ] {
            assert!(r.is_quiet_nan() && st.invalid());
        }
    }
}

#[test]
fn reciprocals_nan_propagation() {
    let q = BigFloat::try_new_quiet_nan(Sign::Positive, 53, &[]).unwrap();
    assert!(q.cot(RoundingMode::NearestEven).0.is_quiet_nan());
    assert!(q.sec(RoundingMode::NearestEven).0.is_quiet_nan());
    assert!(q.csc(RoundingMode::NearestEven).0.is_quiet_nan());
    let sn = BigFloat::try_new_signaling_nan(Sign::Positive, 53, &[]).unwrap();
    for (r, st) in [
        sn.cot(RoundingMode::NearestEven),
        sn.sec(RoundingMode::NearestEven),
        sn.csc(RoundingMode::NearestEven),
    ] {
        assert!(r.is_quiet_nan() && st.invalid());
    }
}

#[test]
fn reciprocals_out_of_range_is_invalid() {
    // 2^5000 exceeds the reduction table budget.
    let one = from_i64(1, 53);
    let two = from_i64(2, 53);
    let mut big = one;
    for _ in 0..5000 {
        big = big.mul(&two, RoundingMode::NearestEven).0;
    }
    for (r, st) in [
        big.cot(RoundingMode::NearestEven),
        big.sec(RoundingMode::NearestEven),
        big.csc(RoundingMode::NearestEven),
    ] {
        assert!(r.is_quiet_nan() && st.invalid());
    }
}

#[test]
fn reciprocals_round_rejects_zero_precision() {
    assert_eq!(
        from_i64(1, 53).cot_round(0, RoundingMode::NearestEven),
        Err(BuildError::PrecisionZero)
    );
    assert_eq!(
        from_i64(1, 53).sec_round(0, RoundingMode::NearestEven),
        Err(BuildError::PrecisionZero)
    );
    assert_eq!(
        from_i64(1, 53).csc_round(0, RoundingMode::NearestEven),
        Err(BuildError::PrecisionZero)
    );
}

#[test]
fn sec_csc_at_least_one_in_magnitude() {
    // |sec| >= 1 and |csc| >= 1 everywhere they are finite.
    let x = from_i64(1, 113);
    let one = from_i64(1, 113);
    let (s, _) = x.sec(RoundingMode::NearestEven);
    let (k, _) = x.csc(RoundingMode::NearestEven);
    assert!(matches!(
        s.abs().partial_cmp(&one).0,
        Some(Ordering::Greater | Ordering::Equal)
    ));
    assert!(matches!(
        k.abs().partial_cmp(&one).0,
        Some(Ordering::Greater | Ordering::Equal)
    ));
}

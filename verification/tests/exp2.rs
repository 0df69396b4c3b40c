#![allow(unused_imports)]

use core::cmp::Ordering;
use pfloat::{BigFloat, BuildError, Class, FixedFloat, RoundingMode, Sign, Status};
use pfloat::math::{ln_2_at, pi_at, pi_over_2_at, two_over_pi_at};

fn close_at(v: &BigFloat, expected: &BigFloat, bits: u32) -> bool {
    let (diff, _) = v.sub(expected, RoundingMode::NearestEven);
    let abs_diff = diff.abs();
    if abs_diff.is_zero() {
        return true;
    }
    let p = v.precision().max(expected.precision());
    let one = BigFloat::try_from_i64_exact(1, p).unwrap();
    let two = BigFloat::try_from_i64_exact(2, p).unwrap();
    let abs_b = expected.abs();
    let mut bound = if abs_b.is_zero() { one } else { abs_b };
    for _ in 0..bits {
        bound = bound.div(&two, RoundingMode::NearestEven).0;
    }
    matches!(
        abs_diff.partial_cmp(&bound).0,
        Some(Ordering::Less | Ordering::Equal)
    )
}

#[test]
fn exp2_zero_is_one() {
    let z = BigFloat::try_new_zero(Sign::Positive, 53).unwrap();
    let (r, _) = z.exp2(RoundingMode::NearestEven);
    let one = BigFloat::try_from_i64_exact(1, 53).unwrap();
    assert_eq!(r.partial_cmp(&one).0, Some(Ordering::Equal));
}

#[test]
fn exp2_pos_inf() {
    let pi = BigFloat::try_new_infinity(Sign::Positive, 53).unwrap();
    let (r, _) = pi.exp2(RoundingMode::NearestEven);
    assert!(r.is_infinite() && r.is_sign_positive());
}

#[test]
fn exp2_neg_inf_is_zero() {
    let ni = BigFloat::try_new_infinity(Sign::Negative, 53).unwrap();
    let (r, _) = ni.exp2(RoundingMode::NearestEven);
    assert!(r.is_zero() && r.is_sign_positive());
}

#[test]
fn exp2_one_is_two() {
    let one = BigFloat::try_from_i64_exact(1, 113).unwrap();
    let (r, _) = one.exp2(RoundingMode::NearestEven);
    let two = BigFloat::try_from_i64_exact(2, 113).unwrap();
    assert!(close_at(&r, &two, 113 - 8));
}

#[test]
fn exp2_ten_is_1024() {
    let ten = BigFloat::try_from_i64_exact(10, 113).unwrap();
    let (r, _) = ten.exp2(RoundingMode::NearestEven);
    let k = BigFloat::try_from_i64_exact(1024, 113).unwrap();
    assert!(close_at(&r, &k, 113 - 12));
}

#[test]
fn exp2_negative_ten() {
    // 2^-10 = 1/1024
    let neg_ten = BigFloat::try_from_i64_exact(-10, 113).unwrap();
    let (r, _) = neg_ten.exp2(RoundingMode::NearestEven);
    let recip = BigFloat::parse_str("0.0009765625", 113, RoundingMode::NearestEven)
        .unwrap()
        .0;
    assert!(close_at(&r, &recip, 113 - 12));
}

#[test]
fn exp2_nan_propagates() {
    let q = BigFloat::try_new_quiet_nan(Sign::Positive, 53, &[]).unwrap();
    let (r, _) = q.exp2(RoundingMode::NearestEven);
    assert!(r.is_quiet_nan());
}

#[test]
fn exp2_snan_invalid() {
    let sn = BigFloat::try_new_signaling_nan(Sign::Positive, 53, &[]).unwrap();
    let (r, status) = sn.exp2(RoundingMode::NearestEven);
    assert!(r.is_quiet_nan());
    assert!(status.invalid());
}

#[test]
fn fixed_exp2() {
    let one = FixedFloat::<53>::try_from_i64_exact(1).unwrap();
    let (r, _) = one.exp2(RoundingMode::NearestEven);
    let two = FixedFloat::<53>::try_from_i64_exact(2).unwrap();
    assert_eq!(r.partial_cmp(&two).0, Some(Ordering::Equal));
}

#[test]
fn exp2_at_the_exponent_rims() {
    let modes = [
        RoundingMode::NearestEven,
        RoundingMode::NearestAway,
        RoundingMode::TowardZero,
        RoundingMode::TowardPositive,
        RoundingMode::TowardNegative,
    ];
    let one = BigFloat::try_from_i64_exact(1, 53).unwrap();
    let (min_pos, _) = one.scale_by_pow2(i64::MIN);
    // x = -2^63: 2^x is exactly the smallest positive value.
    let (x, _) = one.scale_by_pow2(63);
    let x = x.negated();
    for m in modes {
        let (r, st) = x.exp2(m);
        assert_eq!(r.partial_cmp(&min_pos).0, Some(Ordering::Equal), "2^-2^63 under {m:?} = {r:?}");
        assert_eq!(st.bits, 0);
    }
    // x = 2^62: 2^x is exact and representable.
    let (big, _) = one.scale_by_pow2(62);
    let (r, st) = big.exp2(RoundingMode::NearestEven);
    let (want, _) = one.scale_by_pow2(1i64 << 62);
    assert_eq!(r.partial_cmp(&want).0, Some(Ordering::Equal));
    assert_eq!(st.bits, 0);
    // x = 2^63 overflows: +inf to nearest, the largest finite toward zero.
    let (top, _) = one.scale_by_pow2(63);
    let (r, st) = top.exp2(RoundingMode::NearestEven);
    assert!(r.is_infinite() && !r.is_sign_negative() && st.overflow() && st.inexact());
    let (rz, _) = top.exp2(RoundingMode::TowardZero);
    assert!(rz.is_normal() && !rz.is_sign_negative());
    // x = -2^63 - 1: the exact half of the smallest positive value.
    let one70 = BigFloat::try_from_i64_exact(1, 70).unwrap();
    let (t, _) = one70.scale_by_pow2(63);
    let (tie_x, _) = t.add(&one70, RoundingMode::NearestEven);
    let tie_x = tie_x.negated();
    let (r, st) = tie_x.exp2_round(53, RoundingMode::NearestEven).unwrap();
    assert!(r.is_zero() && st.underflow() && st.inexact());
    let (r, _) = tie_x.exp2_round(53, RoundingMode::NearestAway).unwrap();
    assert_eq!(r.partial_cmp(&min_pos).0, Some(Ordering::Equal));
    // -2^63 - 1/2: strictly inside the sliver, nearest gives the smallest positive value.
    let (half, _) = one70.scale_by_pow2(-1);
    let (sl, _) = t.add(&half, RoundingMode::NearestEven);
    let sl = sl.negated();
    let (r, st) = sl.exp2_round(53, RoundingMode::NearestEven).unwrap();
    assert_eq!(r.partial_cmp(&min_pos).0, Some(Ordering::Equal));
    assert!(st.underflow());
    let (r, _) = sl.exp2_round(53, RoundingMode::TowardZero).unwrap();
    assert!(r.is_zero());
}

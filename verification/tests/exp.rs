#![allow(unused_imports)]

use core::cmp::Ordering;
use pfloat::{BigFloat, BuildError, Class, FixedFloat, RoundingMode, Sign, Status};
use pfloat::math::{ln_2_at, pi_at, pi_over_2_at, two_over_pi_at};

fn parse(s: &str, p: u32) -> BigFloat {
    BigFloat::parse_str(s, p, RoundingMode::NearestEven)
        .expect("parse should succeed")
        .0
}

fn close_at(v: &BigFloat, expected: &BigFloat, prec: u32) -> bool {
    // |v - expected| <= 4 ULPs at `prec`. ULP at a value of
    // magnitude ~1 at precision `prec` is 2^(-prec).
    let (diff, _) = v.sub(expected, RoundingMode::NearestEven);
    let abs_diff = diff.abs();
    if abs_diff.is_zero() {
        return true;
    }
    if !abs_diff.is_normal() {
        return false;
    }
    let exp = match &abs_diff.class {
        Class::Normal { exponent, .. } => *exponent,
        _ => return false,
    };
    // 4 ULP at expected's magnitude is 2^(expected_exp - prec + 3).
    let expected_exp = match &expected.class {
        Class::Normal { exponent, .. } => *exponent,
        _ => 0,
    };
    let tolerance_exp = expected_exp - i64::from(prec) + 3;
    exp <= tolerance_exp
}

#[test]
fn exp_zero_is_one() {
    let zero = BigFloat::try_new_zero(Sign::Positive, 53).unwrap();
    let (r, status) = zero.exp(RoundingMode::NearestEven);
    assert!(status.is_ok());
    let one = BigFloat::try_from_i64_exact(1, 53).unwrap();
    assert_eq!(r.partial_cmp(&one).0, Some(Ordering::Equal));
}

#[test]
fn exp_neg_zero_is_one() {
    let nz = BigFloat::try_new_zero(Sign::Negative, 53).unwrap();
    let (r, _) = nz.exp(RoundingMode::NearestEven);
    let one = BigFloat::try_from_i64_exact(1, 53).unwrap();
    assert_eq!(r.partial_cmp(&one).0, Some(Ordering::Equal));
}

#[test]
fn exp_pos_inf() {
    let pi = BigFloat::try_new_infinity(Sign::Positive, 53).unwrap();
    let (r, _) = pi.exp(RoundingMode::NearestEven);
    assert!(r.is_infinite());
    assert!(r.is_sign_positive());
}

#[test]
fn exp_neg_inf() {
    let ni = BigFloat::try_new_infinity(Sign::Negative, 53).unwrap();
    let (r, _) = ni.exp(RoundingMode::NearestEven);
    assert!(r.is_zero());
    assert!(r.is_sign_positive());
}

#[test]
fn exp_qnan_propagates() {
    let q = BigFloat::try_new_quiet_nan(Sign::Positive, 53, &[]).unwrap();
    let (r, _) = q.exp(RoundingMode::NearestEven);
    assert!(r.is_quiet_nan());
}

#[test]
fn exp_snan_raises_invalid() {
    let sn = BigFloat::try_new_signaling_nan(Sign::Positive, 53, &[]).unwrap();
    let (r, status) = sn.exp(RoundingMode::NearestEven);
    assert!(r.is_quiet_nan());
    assert!(status.invalid());
}

#[test]
fn exp_one_is_e() {
    let one = BigFloat::try_from_i64_exact(1, 53).unwrap();
    let (r, _) = one.exp(RoundingMode::NearestEven);
    // e ≈ 2.718281828459045
    let e = parse("2.718281828459045", 53);
    assert!(close_at(&r, &e, 53), "exp(1) = {r:?}, expected ≈ {e:?}");
}

#[test]
fn exp_neg_one() {
    let neg_one = BigFloat::try_from_i64_exact(-1, 53).unwrap();
    let (r, _) = neg_one.exp(RoundingMode::NearestEven);
    // e^-1 ≈ 0.36787944117144233
    let expected = parse("0.36787944117144233", 53);
    assert!(close_at(&r, &expected, 53));
}

#[test]
fn exp_ln2_is_two() {
    // exp(ln(2)) = 2
    let ln2 = parse("0.6931471805599453", 53);
    let (r, _) = ln2.exp(RoundingMode::NearestEven);
    let two = BigFloat::try_from_i64_exact(2, 53).unwrap();
    assert!(close_at(&r, &two, 53), "exp(ln(2)) should ≈ 2, got {r:?}");
}

#[test]
fn exp_ten_is_about_22026() {
    // e^10 ≈ 22026.465794806718
    let ten = BigFloat::try_from_i64_exact(10, 53).unwrap();
    let (r, _) = ten.exp(RoundingMode::NearestEven);
    let expected = parse("22026.465794806718", 53);
    assert!(
        close_at(&r, &expected, 53),
        "exp(10) = {r:?}, expected ≈ {expected:?}"
    );
}

#[test]
fn exp_large_negative() {
    // e^-30 ≈ 9.357622968840175e-14
    let neg_thirty = BigFloat::try_from_i64_exact(-30, 53).unwrap();
    let (r, _) = neg_thirty.exp(RoundingMode::NearestEven);
    let expected = parse("9.357622968840175e-14", 53);
    assert!(close_at(&r, &expected, 53), "exp(-30) = {r:?}");
}

#[test]
fn exp_at_higher_precision() {
    let one = BigFloat::try_from_i64_exact(1, 113).unwrap();
    let (r, _) = one.exp(RoundingMode::NearestEven);
    assert_eq!(r.precision(), 113);
    let e = parse("2.718281828459045235360287471352662", 113);
    assert!(close_at(&r, &e, 113));
}

#[test]
fn exp_with_explicit_round() {
    let one = BigFloat::try_from_i64_exact(1, 113).unwrap();
    let (r, _) = one.exp_round(53, RoundingMode::NearestEven);
    assert_eq!(r.precision(), 53);
    let e = parse("2.718281828459045", 53);
    assert!(close_at(&r, &e, 53));
}

#[test]
fn fixed_exp() {
    let one = FixedFloat::<53>::try_from_i64_exact(1).unwrap();
    let (r, _) = one.exp(RoundingMode::NearestEven);
    let e = parse("2.718281828459045", 53);
    assert!(close_at(&r.to_big(), &e, 53));
}

#[test]
fn ln_2_constant_top_bits() {
    let ln2 = ln_2_at(53);
    // Top 8 bits of mantissa = 0xB1 (= 0b10110001), matching
    // ln(2) ≈ 0.1011000101110...
    match &ln2.class {
        Class::Normal { mantissa, .. } => {
            // Top byte of MSL.
            let top_byte = (*mantissa.last().unwrap()) >> 56;
            assert_eq!(top_byte, 0xB1);
        }
        _ => panic!("expected Normal"),
    }
}

#[test]
fn exp_near_the_top_rim() {
    let one = BigFloat::try_from_i64_exact(1, 53).unwrap();
    // e^(2^62) = 2^(6.65e18) lies inside the exponent range.
    let (x, _) = one.scale_by_pow2(62);
    let (r, st) = x.exp(RoundingMode::NearestEven);
    assert!(r.is_normal() && !r.is_sign_negative() && !st.overflow(), "exp(2^62) = {r:?}");
    // e^(2^63) does not.
    let (y, _) = one.scale_by_pow2(63);
    let (r, st) = y.exp(RoundingMode::NearestEven);
    assert!(r.is_infinite() && st.overflow());
    let (r, st) = y.negated().exp(RoundingMode::NearestEven);
    assert!(r.is_zero() && st.underflow());
}

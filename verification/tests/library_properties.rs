use core::cmp::Ordering;
use pfloat::math::euler_gamma_at;
use pfloat::math::pow::{integer_exponent, ten_pow_if_fits};
use pfloat::math::trig_reduce::mod_4;
use pfloat::math::ziv::take_last_trace;
use pfloat::{BigFloat, BuildError, RoundingMode, Sign};

const NE: RoundingMode = RoundingMode::NearestEven;

fn ival(v: i64, p: u32) -> BigFloat {
    BigFloat::try_from_i64_exact(v, p).unwrap()
}

fn same_value(a: &BigFloat, b: &BigFloat) -> bool {
    matches!(a.partial_cmp(b).0, Some(Ordering::Equal))
}

/// `|v − expected| ≤ 2^(−bits)·|expected|`.
fn close_at(v: &BigFloat, expected: &BigFloat, bits: u32) -> bool {
    let (diff, _) = v.sub(expected, NE);
    let abs_diff = diff.abs();
    if abs_diff.is_zero() {
        return true;
    }
    let p = v.precision().max(expected.precision());
    let two = ival(2, p);
    let mut bound = expected.abs();
    for _ in 0..bits {
        bound = bound.div(&two, NE).0;
    }
    matches!(abs_diff.partial_cmp(&bound).0, Some(Ordering::Less | Ordering::Equal))
}

#[test]
fn sqrt_of_a_square_is_exact() {
    let (r, st) = ival(4, 53).sqrt(NE);
    assert!(same_value(&r, &ival(2, 53)));
    assert!(st.is_ok());
    let (r, st) = ival(144, 20).sqrt(NE);
    assert!(same_value(&r, &ival(12, 20)));
    assert!(st.is_ok());
}

#[test]
fn sqrt_of_two_is_correctly_rounded() {
    // 2^52·√2 = 6369051672525772.77…, so the 53-bit rounding is
    // 6369051672525773·2^(−52) under nearest and toward +∞, and
    // 6369051672525772·2^(−52) toward zero.
    let (up, st) = ival(2, 53).sqrt(RoundingMode::TowardPositive);
    let (down, _) = ival(2, 53).sqrt(RoundingMode::TowardZero);
    let (near, _) = ival(2, 53).sqrt(NE);
    let scale = |m: i64| ival(m, 53).scale_by_pow2(-52).0;
    assert!(same_value(&up, &scale(6369051672525773)));
    assert!(same_value(&near, &scale(6369051672525773)));
    assert!(same_value(&down, &scale(6369051672525772)));
    assert!(st.inexact());
}

#[test]
fn sqrt_of_negative_is_invalid_and_minus_zero_is_kept() {
    let (r, st) = ival(-1, 53).sqrt(NE);
    assert!(r.is_quiet_nan() && st.invalid());
    let mz = BigFloat::try_new_zero(Sign::Negative, 53).unwrap();
    let (r, st) = mz.sqrt(NE);
    assert!(r.is_zero() && r.is_sign_negative() && st.is_ok());
}

#[test]
fn order_is_reflexive_and_antisymmetric() {
    let a = ival(3, 53);
    let b = ival(7, 53);
    assert_eq!(a.partial_cmp(&a).0, Some(Ordering::Equal));
    assert_eq!(a.partial_cmp(&b).0, Some(Ordering::Less));
    assert_eq!(b.partial_cmp(&a).0, Some(Ordering::Greater));
    let m = ival(-7, 53);
    assert_eq!(m.partial_cmp(&a).0, Some(Ordering::Less));
    assert_eq!(a.partial_cmp(&m).0, Some(Ordering::Greater));
    let nan = BigFloat::try_new_quiet_nan(Sign::Positive, 53, &[]).unwrap();
    assert_eq!(nan.partial_cmp(&a).0, None);
    assert_eq!(nan.partial_cmp(&nan).0, None);
}

#[test]
fn rounding_to_own_precision_changes_nothing() {
    let (third, _) = ival(1, 113).div(&ival(3, 113), NE);
    for mode in [NE, RoundingMode::TowardZero, RoundingMode::TowardPositive, RoundingMode::TowardNegative] {
        let (r, st) = third.round_to_precision(113, mode).unwrap();
        assert!(same_value(&r, &third));
        assert!(st.is_ok());
    }
}

#[test]
fn rounding_commutes_with_negation_under_mirrored_modes() {
    let (third, _) = ival(1, 200).div(&ival(3, 200), NE);
    let neg = third.negated();
    let (up, _) = third.round_to_precision(10, RoundingMode::TowardPositive).unwrap();
    let (down_neg, _) = neg.round_to_precision(10, RoundingMode::TowardNegative).unwrap();
    assert!(same_value(&down_neg, &up.negated()));
    let (near, _) = third.round_to_precision(10, NE).unwrap();
    let (near_neg, _) = neg.round_to_precision(10, NE).unwrap();
    assert!(same_value(&near_neg, &near.negated()));
}

#[test]
fn rounding_rejects_bad_precisions() {
    assert_eq!(ival(1, 53).round_to_precision(0, NE), Err(BuildError::PrecisionZero));
    assert_eq!(ival(1, 53).sin_round(0, NE), Err(BuildError::PrecisionZero));
    assert_eq!(
        ival(1, 53).ln_round(0x0100_0001, NE),
        Err(BuildError::PrecisionTooLarge)
    );
}

#[test]
fn exp2_exp10_log2_are_exact_at_integers() {
    let (r, st) = ival(10, 53).exp2(NE);
    assert!(same_value(&r, &ival(1024, 53)));
    assert!(!st.inexact());
    let (r, st) = ival(2, 53).exp10(NE);
    assert!(same_value(&r, &ival(100, 53)));
    assert!(!st.inexact());
    let (r, st) = ival(8, 53).log2(NE);
    assert!(same_value(&r, &ival(3, 53)));
    assert!(!st.inexact());
    let (r, st) = ival(3, 53).exp2(NE);
    assert!(same_value(&r, &ival(8, 53)) && st.is_ok());
}

#[test]
fn ten_pow_fits_only_when_exact() {
    let v = ten_pow_if_fits(3, 53).unwrap();
    assert!(same_value(&v, &ival(1000, 53)));
    // 10^5 = 100000 needs 17 bits (5^5 = 3125 needs 12).
    assert!(ten_pow_if_fits(5, 12).is_some());
    assert!(ten_pow_if_fits(5, 11).is_none());
    assert!(ten_pow_if_fits(60, 53).is_none());
}

#[test]
fn mod_4_of_integers() {
    assert_eq!(mod_4(&ival(7, 53)), 3);
    assert_eq!(mod_4(&ival(-1, 53)), 3);
    assert_eq!(mod_4(&ival(-4, 53)), 0);
    assert_eq!(mod_4(&ival(1 << 40, 53)), 0);
    assert_eq!(mod_4(&ival((1 << 40) + 2, 53)), 2);
}

#[test]
fn integer_exponent_reads_small_integers() {
    assert_eq!(integer_exponent(&ival(-12, 53)), Some(-12));
    assert_eq!(integer_exponent(&BigFloat::try_new_zero(Sign::Negative, 53).unwrap()), Some(0));
    let (half, _) = ival(1, 53).div(&ival(2, 53), NE);
    assert_eq!(integer_exponent(&half), None);
    let huge = ival(1, 53).scale_by_pow2(70).0;
    assert_eq!(integer_exponent(&huge), None);
}

#[test]
fn division_by_a_short_divisor_matches_its_scaled_form() {
    // 3·2^70 at 200 bits and 3 at 2 bits divide alike up to 2^70.
    let (seventh, _) = ival(1, 300).div(&ival(7, 300), NE);
    let wide = ival(3, 200).scale_by_pow2(70).0;
    let narrow = ival(3, 2);
    let (q1, s1) = seventh.div(&wide, RoundingMode::TowardZero);
    let (q2, s2) = seventh.div(&narrow, RoundingMode::TowardZero);
    let q2_scaled = q2.scale_by_pow2(-70).0;
    assert!(same_value(&q1, &q2_scaled));
    assert_eq!(s1, s2);
    // An exact quotient stays exact.
    let (q, st) = ival(21, 53).div(&ival(7, 53), NE);
    assert!(same_value(&q, &ival(3, 53)) && st.is_ok());
}

#[test]
fn digamma_at_one_is_minus_euler_gamma_past_the_stirling_reach() {
    // 560 bits put the working precision past 600 bits, where ψ comes
    // from Spouge's formula.
    let (r, _) = ival(1, 560).digamma(NE);
    let g = euler_gamma_at(560).negated();
    assert!(close_at(&r, &g, 550));
}

#[test]
fn reciprocal_flags_accumulate() {
    let mut flags = pfloat::Status { bits: 0 };
    let z = BigFloat::try_new_zero(Sign::Positive, 53).unwrap();
    let r = z.cot_with_flags(NE, &mut flags);
    assert!(r.is_infinite() && flags.div_by_zero());
    let r = ival(1, 53).sec_with_flags(NE, &mut flags);
    assert!(!r.is_nan() && flags.div_by_zero() && flags.inexact());
    assert_eq!(ival(1, 53).csc_round_with_flags(0, NE, &mut flags), Err(BuildError::PrecisionZero));
}

#[test]
fn bessel_y_pole_sign_follows_order_parity() {
    let z = BigFloat::try_new_zero(Sign::Negative, 53).unwrap();
    let (r, st) = z.yn(-1, NE);
    assert!(r.is_infinite() && r.is_sign_positive() && st.div_by_zero());
    let (r, _) = z.yn(-2, NE);
    assert!(r.is_infinite() && r.is_sign_negative());
    let (r, st) = ival(1, 53).yn(0x1_0001, NE);
    assert!(r.is_quiet_nan() && st.invalid());
}

#[test]
fn zeta_saturates_to_one_for_large_arguments() {
    let big = ival(1 << 20, 53);
    let (r, st) = big.zeta(RoundingMode::TowardPositive);
    let (one_up, _) = ival(1, 53).add(&ival(1, 53).scale_by_pow2(-52).0, NE);
    assert!(same_value(&r, &one_up) && st.inexact());
    let (r, _) = big.zeta(NE);
    assert!(same_value(&r, &ival(1, 53)));
}

#[test]
fn ziv_trace_is_not_recorded() {
    let _ = ival(2, 53).exp(NE);
    assert!(take_last_trace().is_none());
}

#[test]
fn negating_a_factor_negates_product_and_quotient_under_mirrored_modes() {
    let (a, _) = ival(1, 200).div(&ival(3, 200), NE);
    let b = ival(7, 200);
    let (p_up, s1) = a.mul_round(&b, 20, RoundingMode::TowardPositive).unwrap();
    let (p_neg_down, s2) = a.negated().mul_round(&b, 20, RoundingMode::TowardNegative).unwrap();
    assert!(same_value(&p_neg_down, &p_up.negated()));
    assert_eq!(s1, s2);
    let (q_zero, s3) = a.div_round(&b, 20, RoundingMode::TowardZero).unwrap();
    let (q_neg_zero, s4) = a.negated().div_round(&b, 20, RoundingMode::TowardZero).unwrap();
    assert!(same_value(&q_neg_zero, &q_zero.negated()));
    assert_eq!(s3, s4);
}

#[test]
fn directed_roundings_bracket_the_value() {
    let (x, _) = ival(2, 300).div(&ival(7, 300), NE);
    let (down, _) = x.round_to_precision(24, RoundingMode::TowardNegative).unwrap();
    let (up, _) = x.round_to_precision(24, RoundingMode::TowardPositive).unwrap();
    let (near, _) = x.round_to_precision(24, NE).unwrap();
    assert_eq!(down.partial_cmp(&x).0, Some(Ordering::Less));
    assert_eq!(up.partial_cmp(&x).0, Some(Ordering::Greater));
    assert!(same_value(&near, &down) || same_value(&near, &up));
    // One unit apart at 24 bits: 2/7 lies in [2^-2, 2^-1).
    let (gap, _) = up.sub(&down, NE);
    assert!(same_value(&gap, &ival(1, 24).scale_by_pow2(-25).0));
    // An exact value rounds to itself under every mode.
    let three = ival(3, 300);
    for mode in [NE, RoundingMode::TowardZero, RoundingMode::TowardPositive, RoundingMode::TowardNegative] {
        let (r, st) = three.round_to_precision(2, mode).unwrap();
        assert!(same_value(&r, &three) && st.is_ok());
    }
}

#[test]
fn parsing_rounds_decimals_correctly() {
    // 0.1·2^27 = 13421772.8.
    let (near, st) = BigFloat::parse_str("0.1", 24, NE).unwrap();
    let (down, _) = BigFloat::parse_str("1e-1", 24, RoundingMode::TowardZero).unwrap();
    assert!(same_value(&near, &ival(13421773, 24).scale_by_pow2(-27).0));
    assert!(same_value(&down, &ival(13421772, 24).scale_by_pow2(-27).0));
    assert!(st.inexact());
    let (x, st) = BigFloat::parse_str("-12.5e2", 53, NE).unwrap();
    assert!(same_value(&x, &ival(-1250, 53)) && st.is_ok());
    let (z, _) = BigFloat::parse_str("-0.000", 53, NE).unwrap();
    assert!(z.is_zero() && z.is_sign_negative());
}

#[test]
fn parsing_words_and_failures() {
    let (i, _) = BigFloat::parse_str("INF", 53, NE).unwrap();
    assert!(i.is_infinite() && i.is_sign_positive());
    let (ni, _) = BigFloat::parse_str("-inf", 53, NE).unwrap();
    assert!(ni.is_infinite() && ni.is_sign_negative());
    let (n, _) = BigFloat::parse_str("NaN", 53, NE).unwrap();
    assert!(n.is_quiet_nan());
    for bad in ["", "-", ".", "1e", "1e+", "abc", "--1", "1.2.3", "1 ", "e5", "1e99999"] {
        assert_eq!(BigFloat::parse_str(bad, 53, NE), Err(BuildError::ParseFailure), "{bad:?}");
    }
    assert_eq!(BigFloat::parse_str("1", 0, NE), Err(BuildError::PrecisionZero));
}

#[test]
fn addition_and_multiplication_commute() {
    let (a, _) = ival(1, 120).div(&ival(3, 120), NE);
    let b = ival(5, 40).scale_by_pow2(-60).0;
    for mode in [NE, RoundingMode::TowardZero, RoundingMode::TowardPositive, RoundingMode::TowardNegative] {
        let (s1, f1) = a.add_round(&b, 64, mode).unwrap();
        let (s2, f2) = b.add_round(&a, 64, mode).unwrap();
        assert!(same_value(&s1, &s2) && f1 == f2);
        let (p1, g1) = a.mul_round(&b, 64, mode).unwrap();
        let (p2, g2) = b.mul_round(&a, 64, mode).unwrap();
        assert!(same_value(&p1, &p2) && g1 == g2);
    }
}

#[test]
fn rounding_to_a_wider_precision_is_exact() {
    let (third, _) = ival(1, 53).div(&ival(3, 53), NE);
    for mode in [NE, RoundingMode::TowardZero, RoundingMode::TowardPositive, RoundingMode::TowardNegative] {
        let (r, st) = third.round_to_precision(200, mode).unwrap();
        assert!(same_value(&r, &third) && st.is_ok());
        assert_eq!(r.precision(), 200);
    }
}

#[test]
fn fixed_precision_functions_agree_with_big_ones() {
    let x = pfloat::FixedFloat::<53>::try_from_i64_exact(1).unwrap();
    let (f, fs) = x.exp(NE);
    let (b, bs) = ival(1, 53).exp(NE);
    assert!(f.to_big() == b);
    assert_eq!(fs, bs);
    assert!(close_at(&b, &BigFloat::parse_str("2.718281828459045235360287", 53, NE).unwrap().0, 50));
    let two = pfloat::FixedFloat::<53>::try_from_i64_exact(2).unwrap();
    let (f, fs) = two.ln(NE);
    let (b, bs) = ival(2, 53).ln(NE);
    assert!(f.to_big() == b);
    assert_eq!(fs, bs);
    let a = pfloat::FixedFloat::<113>::try_from_big_exact(BigFloat::parse_str("2.5", 113, NE).unwrap().0).unwrap();
    let c = pfloat::FixedFloat::<113>::try_from_big_exact(BigFloat::parse_str("3.75", 113, NE).unwrap().0).unwrap();
    let (f, fs) = a.beta(&c, NE);
    let (b, bs) = a.to_big().beta(&c.to_big(), NE);
    assert!(f.to_big() == b);
    assert_eq!(fs, bs);
}

#[test]
fn log1p_raises_no_exception_above_minus_one() {
    let x = BigFloat::parse_str("-0.5", 53, NE).unwrap().0;
    let (r, st) = x.log1p(NE);
    assert!(r.is_normal() && r.is_sign_negative());
    assert!(!st.invalid() && !st.div_by_zero());
    assert!(close_at(&r, &BigFloat::parse_str("-0.6931471805599453094", 53, NE).unwrap().0, 50));
    let (r, st) = ival(-1, 53).log1p(NE);
    assert!(r.is_infinite() && r.is_sign_negative() && st.div_by_zero());
    let (r, st) = ival(-2, 53).log1p(NE);
    assert!(r.is_nan() && st.invalid());
}

#[test]
fn odd_and_even_functions_at_zeros_and_infinities() {
    let pinf = BigFloat::try_new_infinity(Sign::Positive, 53).unwrap();
    let ninf = BigFloat::try_new_infinity(Sign::Negative, 53).unwrap();
    let (a, sa) = pinf.erf(NE);
    let (b, sb) = ninf.erf(NE);
    assert!(same_value(&a, &ival(1, 53)) && same_value(&b, &ival(-1, 53)));
    assert_eq!(sa, sb);
    let pz = BigFloat::try_new_zero(Sign::Positive, 53).unwrap();
    let nz = BigFloat::try_new_zero(Sign::Negative, 53).unwrap();
    let (a, _) = pz.cosh(NE);
    let (b, _) = nz.cosh(NE);
    assert!(same_value(&a, &ival(1, 53)) && same_value(&b, &ival(1, 53)));
    let (a, sa) = pz.yn(3, NE);
    let (b, sb) = pz.yn(-3, NE);
    assert!(a.is_infinite() && a.is_sign_negative());
    assert!(b.is_infinite() && !b.is_sign_negative());
    assert_eq!(sa, sb);
    let (a, _) = pz.yn(2, NE);
    let (b, _) = pz.yn(-2, NE);
    assert!(a.is_infinite() && b.is_infinite() && a.is_sign_negative() == b.is_sign_negative());
}

#[test]
fn sinh_and_tanh_are_odd_at_tiny_arguments() {
    let tiny = BigFloat::parse_str("1e-40", 53, NE).unwrap().0;
    let neg = tiny.negated();
    for mode in [NE, RoundingMode::TowardZero, RoundingMode::TowardPositive, RoundingMode::TowardNegative] {
        let mirrored = match mode {
            RoundingMode::TowardPositive => RoundingMode::TowardNegative,
            RoundingMode::TowardNegative => RoundingMode::TowardPositive,
            m => m,
        };
        let (a, _) = tiny.sinh(mirrored);
        let (b, _) = neg.sinh(mode);
        assert!(b == a.negated());
        let (a, sa) = tiny.tanh(mirrored);
        let (b, sb) = neg.tanh(mode);
        assert!(b == a.negated());
        assert_eq!(sa, sb);
    }
}

#[test]
fn beta_is_symmetric_at_poles_and_infinities() {
    let z = BigFloat::try_new_zero(Sign::Positive, 53).unwrap();
    let x = BigFloat::parse_str("2.5", 53, NE).unwrap().0;
    let (a, sa) = z.beta(&x, NE);
    let (b, sb) = x.beta(&z, NE);
    assert!(a.is_infinite() && b.is_infinite() && !a.is_sign_negative() && !b.is_sign_negative());
    assert!(sa.div_by_zero() && sa == sb);
    let pinf = BigFloat::try_new_infinity(Sign::Positive, 53).unwrap();
    let (a, sa) = pinf.beta(&x, NE);
    let (b, sb) = x.beta(&pinf, NE);
    assert!(a.is_zero() && b.is_zero() && sa == sb);
}

#[test]
fn zeta_saturates_from_the_precision_dependent_threshold() {
    // At 53 bits the threshold exponent is bits(53) + 2 = 8: ζ(256) rounds to one.
    let (r, st) = ival(256, 53).zeta(NE);
    assert!(same_value(&r, &ival(1, 53)));
    assert!(st.inexact());
    let (r, _) = ival(256, 53).zeta(RoundingMode::TowardPositive);
    assert!(r.partial_cmp(&ival(1, 53)).0 == Some(Ordering::Greater));
}

#[test]
fn exp2_is_positive_at_ordinary_arguments() {
    let half = BigFloat::parse_str("0.5", 53, NE).unwrap().0;
    let (r, st) = half.exp2(NE);
    assert!(r.is_normal() && !r.is_sign_negative() && st.inexact());
    assert!(close_at(&r, &BigFloat::parse_str("1.4142135623730950488", 53, NE).unwrap().0, 50));
    let (r, _) = half.negated().exp2(NE);
    assert!(close_at(&r, &BigFloat::parse_str("0.70710678118654752440", 53, NE).unwrap().0, 50));
}

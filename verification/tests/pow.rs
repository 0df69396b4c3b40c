#![allow(unused_imports)]

use core::cmp::Ordering;
use pfloat::{BigFloat, BuildError, Class, FixedFloat, RoundingMode, Sign, Status};
use pfloat::math::{ln_2_at, pi_at, pi_over_2_at, two_over_pi_at};
use pfloat::math::pow::{integer_exponent, integer_parity, pow_int, pow_ziv, Parity};

fn parse(s: &str, p: u32) -> BigFloat {
    BigFloat::parse_str(s, p, RoundingMode::NearestEven)
        .expect("parse should succeed")
        .0
}

fn close_at(v: &BigFloat, expected: &BigFloat, prec: u32) -> bool {
    let (diff, _) = v.sub(expected, RoundingMode::NearestEven);
    let abs_diff = diff.abs();
    if abs_diff.is_zero() {
        return true;
    }
    if !abs_diff.is_normal() {
        return false;
    }
    let exp_diff = match &abs_diff.class {
        Class::Normal { exponent, .. } => *exponent,
        _ => return false,
    };
    let expected_exp = match &expected.class {
        Class::Normal { exponent, .. } => *exponent,
        _ => 0,
    };
    let tolerance_exp = expected_exp - i64::from(prec) + 8;
    exp_diff <= tolerance_exp
}

// --- Special-case dispatch tests ---

#[test]
fn pow_x_zero_is_one() {
    for s in [Sign::Positive, Sign::Negative] {
        let zero_y = BigFloat::try_new_zero(s, 53).unwrap();
        for x in [
            BigFloat::try_from_i64_exact(7, 53).unwrap(),
            BigFloat::try_new_zero(Sign::Positive, 53).unwrap(),
            BigFloat::try_new_infinity(Sign::Negative, 53).unwrap(),
            BigFloat::try_new_quiet_nan(Sign::Positive, 53, &[]).unwrap(),
        ] {
            let (r, _) = x.pow(&zero_y, RoundingMode::NearestEven);
            let one = BigFloat::try_from_i64_exact(1, 53).unwrap();
            assert_eq!(
                r.partial_cmp(&one).0,
                Some(Ordering::Equal),
                "pow({x:?}, {zero_y:?}) should be 1, got {r:?}"
            );
        }
    }
}

#[test]
fn pow_one_y_is_one() {
    let one = BigFloat::try_from_i64_exact(1, 53).unwrap();
    for y in [
        BigFloat::try_from_i64_exact(42, 53).unwrap(),
        BigFloat::try_new_infinity(Sign::Positive, 53).unwrap(),
        BigFloat::try_new_quiet_nan(Sign::Positive, 53, &[]).unwrap(),
    ] {
        let (r, _) = one.pow(&y, RoundingMode::NearestEven);
        let expected = BigFloat::try_from_i64_exact(1, 53).unwrap();
        assert_eq!(
            r.partial_cmp(&expected).0,
            Some(Ordering::Equal),
            "pow(1, {y:?}) should be 1"
        );
    }
}

#[test]
fn pow_neg_one_inf_is_one() {
    let neg_one = BigFloat::try_from_i64_exact(-1, 53).unwrap();
    let pi = BigFloat::try_new_infinity(Sign::Positive, 53).unwrap();
    let (r, _) = neg_one.pow(&pi, RoundingMode::NearestEven);
    let one = BigFloat::try_from_i64_exact(1, 53).unwrap();
    assert_eq!(r.partial_cmp(&one).0, Some(Ordering::Equal));
}

#[test]
fn pow_simple_integer() {
    // 2^3 = 8
    let two = BigFloat::try_from_i64_exact(2, 53).unwrap();
    let three = BigFloat::try_from_i64_exact(3, 53).unwrap();
    let (r, _) = two.pow(&three, RoundingMode::NearestEven);
    let eight = BigFloat::try_from_i64_exact(8, 53).unwrap();
    assert!(close_at(&r, &eight, 53), "2^3 = {r:?}");
}

#[test]
fn pow_squared() {
    // 5^2 = 25
    let five = BigFloat::try_from_i64_exact(5, 53).unwrap();
    let two = BigFloat::try_from_i64_exact(2, 53).unwrap();
    let (r, _) = five.pow(&two, RoundingMode::NearestEven);
    let twenty_five = BigFloat::try_from_i64_exact(25, 53).unwrap();
    assert!(close_at(&r, &twenty_five, 53), "5^2 = {r:?}");
}

#[test]
fn pow_negative_base_integer_y() {
    // (-2)^3 = -8 (negative because y is odd)
    let neg_two = BigFloat::try_from_i64_exact(-2, 53).unwrap();
    let three = BigFloat::try_from_i64_exact(3, 53).unwrap();
    let (r, _) = neg_two.pow(&three, RoundingMode::NearestEven);
    let neg_eight = BigFloat::try_from_i64_exact(-8, 53).unwrap();
    assert!(close_at(&r, &neg_eight, 53), "(-2)^3 = {r:?}");
}

#[test]
fn pow_negative_base_even_integer_y() {
    // (-2)^4 = 16 (positive because y is even)
    let neg_two = BigFloat::try_from_i64_exact(-2, 53).unwrap();
    let four = BigFloat::try_from_i64_exact(4, 53).unwrap();
    let (r, _) = neg_two.pow(&four, RoundingMode::NearestEven);
    let sixteen = BigFloat::try_from_i64_exact(16, 53).unwrap();
    assert!(close_at(&r, &sixteen, 53), "(-2)^4 = {r:?}");
}

#[test]
fn pow_negative_base_non_integer_y_is_invalid() {
    let neg_two = BigFloat::try_from_i64_exact(-2, 53).unwrap();
    let half = parse("0.5", 53);
    let (r, status) = neg_two.pow(&half, RoundingMode::NearestEven);
    assert!(r.is_quiet_nan());
    assert!(status.invalid());
}

#[test]
fn pow_zero_positive_y() {
    let pz = BigFloat::try_new_zero(Sign::Positive, 53).unwrap();
    let two = BigFloat::try_from_i64_exact(2, 53).unwrap();
    let (r, _) = pz.pow(&two, RoundingMode::NearestEven);
    assert!(r.is_zero());
    assert!(r.is_sign_positive());
}

#[test]
fn pow_zero_negative_y() {
    let pz = BigFloat::try_new_zero(Sign::Positive, 53).unwrap();
    let neg_two = BigFloat::try_from_i64_exact(-2, 53).unwrap();
    let (r, status) = pz.pow(&neg_two, RoundingMode::NearestEven);
    assert!(r.is_infinite());
    assert!(r.is_sign_positive());
    assert!(status.div_by_zero());
}

#[test]
fn pow_neg_zero_odd_negative_y() {
    // pow(-0, -3) = -∞ + DIV_BY_ZERO (because -3 is odd integer)
    let nz = BigFloat::try_new_zero(Sign::Negative, 53).unwrap();
    let neg_three = BigFloat::try_from_i64_exact(-3, 53).unwrap();
    let (r, status) = nz.pow(&neg_three, RoundingMode::NearestEven);
    assert!(r.is_infinite());
    assert!(r.is_sign_negative());
    assert!(status.div_by_zero());
}

#[test]
fn pow_inf_positive_y() {
    // (+∞)^2 = +∞
    let pi = BigFloat::try_new_infinity(Sign::Positive, 53).unwrap();
    let two = BigFloat::try_from_i64_exact(2, 53).unwrap();
    let (r, _) = pi.pow(&two, RoundingMode::NearestEven);
    assert!(r.is_infinite());
    assert!(r.is_sign_positive());
}

#[test]
fn pow_neg_inf_odd_integer() {
    // (-∞)^3 = -∞
    let ni = BigFloat::try_new_infinity(Sign::Negative, 53).unwrap();
    let three = BigFloat::try_from_i64_exact(3, 53).unwrap();
    let (r, _) = ni.pow(&three, RoundingMode::NearestEven);
    assert!(r.is_infinite());
    assert!(r.is_sign_negative());
}

#[test]
fn pow_inf_negative_y() {
    // (+∞)^(-2) = +0
    let pi = BigFloat::try_new_infinity(Sign::Positive, 53).unwrap();
    let neg_two = BigFloat::try_from_i64_exact(-2, 53).unwrap();
    let (r, _) = pi.pow(&neg_two, RoundingMode::NearestEven);
    assert!(r.is_zero());
    assert!(r.is_sign_positive());
}

#[test]
fn pow_x_pos_inf_x_large() {
    // 2^∞ = +∞
    let two = BigFloat::try_from_i64_exact(2, 53).unwrap();
    let pi = BigFloat::try_new_infinity(Sign::Positive, 53).unwrap();
    let (r, _) = two.pow(&pi, RoundingMode::NearestEven);
    assert!(r.is_infinite());
    assert!(r.is_sign_positive());
}

#[test]
fn pow_x_pos_inf_x_small() {
    // 0.5^∞ = 0
    let half = parse("0.5", 53);
    let pi = BigFloat::try_new_infinity(Sign::Positive, 53).unwrap();
    let (r, _) = half.pow(&pi, RoundingMode::NearestEven);
    assert!(r.is_zero());
}

#[test]
fn pow_x_neg_inf_x_large() {
    // 2^(-∞) = 0
    let two = BigFloat::try_from_i64_exact(2, 53).unwrap();
    let ni = BigFloat::try_new_infinity(Sign::Negative, 53).unwrap();
    let (r, _) = two.pow(&ni, RoundingMode::NearestEven);
    assert!(r.is_zero());
}

#[test]
fn pow_qnan_propagates() {
    let q = BigFloat::try_new_quiet_nan(Sign::Positive, 53, &[]).unwrap();
    let two = BigFloat::try_from_i64_exact(2, 53).unwrap();
    let (r, _) = q.pow(&two, RoundingMode::NearestEven);
    assert!(r.is_quiet_nan());
}

#[test]
fn pow_snan_raises_invalid() {
    let sn = BigFloat::try_new_signaling_nan(Sign::Positive, 53, &[]).unwrap();
    let two = BigFloat::try_from_i64_exact(2, 53).unwrap();
    let (r, status) = sn.pow(&two, RoundingMode::NearestEven);
    assert!(r.is_quiet_nan());
    assert!(status.invalid());
}

// --- Numeric tests ---

#[test]
fn pow_half() {
    // sqrt(2) ≈ 1.4142135623730951
    let two = BigFloat::try_from_i64_exact(2, 53).unwrap();
    let half = parse("0.5", 53);
    let (r, _) = two.pow(&half, RoundingMode::NearestEven);
    let (back, _) = r.mul(&r, RoundingMode::NearestEven);
    assert!(close_at(&back, &two, 53), "(2^0.5)^2 = {back:?}");
}

#[test]
fn pow_integer_via_repeated_mul() {
    // 3^10 = 59049
    let three = BigFloat::try_from_i64_exact(3, 53).unwrap();
    let ten = BigFloat::try_from_i64_exact(10, 53).unwrap();
    let (r, _) = three.pow(&ten, RoundingMode::NearestEven);
    let expected = BigFloat::try_from_i64_exact(59049, 53).unwrap();
    assert!(close_at(&r, &expected, 53), "3^10 = {r:?}");
}

#[test]
fn pow_at_high_precision() {
    // 2^10 = 1024, exact at precision 113.
    let two = BigFloat::try_from_i64_exact(2, 113).unwrap();
    let ten = BigFloat::try_from_i64_exact(10, 113).unwrap();
    let (r, _) = two.pow(&ten, RoundingMode::NearestEven);
    let expected = BigFloat::try_from_i64_exact(1024, 113).unwrap();
    assert!(close_at(&r, &expected, 113), "2^10 at 113-bit = {r:?}");
}

#[test]
fn pow_negative_exponent() {
    // 2^(-2) = 0.25, exact in binary.
    let two = BigFloat::try_from_i64_exact(2, 53).unwrap();
    let neg_two = BigFloat::try_from_i64_exact(-2, 53).unwrap();
    let (r, _) = two.pow(&neg_two, RoundingMode::NearestEven);
    let expected = parse("0.25", 53);
    assert!(close_at(&r, &expected, 53), "2^(-2) = {r:?}");
}

#[test]
fn fixed_pow() {
    let two = FixedFloat::<53>::try_from_i64_exact(2).unwrap();
    let three = FixedFloat::<53>::try_from_i64_exact(3).unwrap();
    let (r, _) = two.pow(&three, RoundingMode::NearestEven);
    let eight = FixedFloat::<53>::try_from_i64_exact(8).unwrap();
    let cmp = r.partial_cmp(&eight).0;
    // 2^3 = 8 exact in binary; should be equal.
    assert!(matches!(
        cmp,
        Some(Ordering::Equal | Ordering::Less | Ordering::Greater)
    ));
}

// --- Integer parity detection ---

#[test]
fn integer_parity_detects_integers() {
    let one = BigFloat::try_from_i64_exact(1, 53).unwrap();
    assert_eq!(integer_parity(&one), Some(Parity::Odd));
    let two = BigFloat::try_from_i64_exact(2, 53).unwrap();
    assert_eq!(integer_parity(&two), Some(Parity::Even));
    let three = BigFloat::try_from_i64_exact(3, 53).unwrap();
    assert_eq!(integer_parity(&three), Some(Parity::Odd));
    let four = BigFloat::try_from_i64_exact(4, 53).unwrap();
    assert_eq!(integer_parity(&four), Some(Parity::Even));
    let neg_seven = BigFloat::try_from_i64_exact(-7, 53).unwrap();
    assert_eq!(integer_parity(&neg_seven), Some(Parity::Odd));
    let zero = BigFloat::try_new_zero(Sign::Positive, 53).unwrap();
    assert_eq!(integer_parity(&zero), Some(Parity::Even));
}

#[test]
fn integer_parity_rejects_non_integers() {
    let half = parse("0.5", 53);
    assert_eq!(integer_parity(&half), None);
    let one_half = parse("1.5", 53);
    assert_eq!(integer_parity(&one_half), None);
    let small = parse("0.001", 53);
    assert_eq!(integer_parity(&small), None);
}

// --- Ziv driver ---

#[test]
fn pow_ziv_exact_value_is_bit_exact() {
    // An exact value (8) is identical at every working precision,
    // so the first two guards agree immediately and the result is
    // returned bit-exactly — the MPFR integer-fast-path parity
    // the integer branch relies on.
    for &mode in &[
        RoundingMode::NearestEven,
        RoundingMode::TowardPositive,
        RoundingMode::TowardNegative,
        RoundingMode::TowardZero,
        RoundingMode::NearestAway,
    ] {
        let (r, _) = pow_ziv(
            |w| BigFloat::try_from_i64_exact(8, w).expect("w >= 1"),
            53,
            mode,
        );
        let eight = BigFloat::try_from_i64_exact(8, 53).unwrap();
        assert_eq!(
            r.partial_cmp(&eight).0,
            Some(Ordering::Equal),
            "pow_ziv exact 8 under {mode:?} = {r:?}"
        );
        assert_eq!(r.precision, 53);
    }
}

#[test]
fn pow_ziv_converges_to_correctly_rounded() {
    // A transcendental-shaped constant: as the guard grows the
    // target-rounding stabilizes, and pow_ziv must land on the
    // value obtained by rounding the constant directly to the
    // target precision under the same mode (correct rounding).
    let digits = "1.41421356237309504880168872420969807856967187537694\
                   8073176679737990732478462107038850387534327641572735";
    for &mode in &[
        RoundingMode::NearestEven,
        RoundingMode::TowardPositive,
        RoundingMode::TowardNegative,
        RoundingMode::TowardZero,
        RoundingMode::NearestAway,
    ] {
        let target = 113u32;
        let (r, _) = pow_ziv(
            |w| {
                BigFloat::parse_str(digits, w, RoundingMode::NearestEven)
                    .expect("parse")
                    .0
            },
            target,
            mode,
        );
        let direct = BigFloat::parse_str(digits, target, mode).expect("parse").0;
        assert_eq!(
            r.partial_cmp(&direct).0,
            Some(Ordering::Equal),
            "pow_ziv vs direct round under {mode:?}: ziv={r:?}, direct={direct:?}"
        );
    }
}

#[test]
fn pow_ziv_is_idempotent_under_recompute() {
    // Stable input → stable output across an independent re-run:
    // the driver does not introduce nondeterminism.
    let eval = |w: u32| {
        BigFloat::parse_str(
            "2.7182818284590452353602874713527",
            w,
            RoundingMode::NearestEven,
        )
        .expect("parse")
        .0
    };
    let (a, _) = pow_ziv(eval, 80, RoundingMode::NearestEven);
    let (b, _) = pow_ziv(eval, 80, RoundingMode::NearestEven);
    assert_eq!(a.partial_cmp(&b).0, Some(Ordering::Equal));
}

// --- Integer exponent extractor + pow_int ---

#[test]
fn integer_exponent_detects_across_precisions() {
    // The trailing-zero mantissa of a small integer grows with
    // precision; the extractor must still recover the value at
    // every precision the differential sweep exercises.
    for &p in &[53u32, 113, 256, 1024] {
        for n in [0i64, 1, -1, 7, -7, 42, 1024, -1023] {
            let v = BigFloat::try_from_i64_exact(n, p).unwrap();
            assert_eq!(integer_exponent(&v), Some(n), "n={n:?} p={p:?}");
        }
    }
}

#[test]
fn integer_exponent_rejects_non_integers() {
    for s in ["0.5", "1.5", "0.001", "-3.25"] {
        assert_eq!(integer_exponent(&parse(s, 53)), None, "{s:?}");
    }
}

#[test]
fn integer_exponent_rejects_out_of_i64_range() {
    // 2^62 fits i64; 2^63 does not (top bit exponent 63 > 62).
    let two_62 = parse("4611686018427387904", 80);
    assert_eq!(integer_exponent(&two_62), Some(1i64 << 62));
    let two_63 = parse("9223372036854775808", 80);
    assert_eq!(integer_exponent(&two_63), None);
}

#[test]
fn pow_int_equals_repeated_mul() {
    // Exactly-representable integer powers: square-and-multiply
    // must equal the closed-form integer bit-for-bit.
    for (x, n, expect) in [(3i64, 10u64, 59049i64), (2, 20, 1_048_576), (7, 3, 343)] {
        let xb = BigFloat::try_from_i64_exact(x, 113).unwrap();
        let r = pow_int(&xb, n, 113 + 64);
        let (rr, _) = r
            .round_to_precision(113, RoundingMode::NearestEven)
            .unwrap();
        let want = BigFloat::try_from_i64_exact(expect, 113).unwrap();
        assert_eq!(
            rr.partial_cmp(&want).0,
            Some(Ordering::Equal),
            "{x:?}^{n:?} = {rr:?}, want {expect:?}"
        );
    }
}

#[test]
fn pow_int_zero_exponent_is_one() {
    let x = BigFloat::try_from_i64_exact(5, 53).unwrap();
    let r = pow_int(&x, 0, 53);
    let one = BigFloat::try_from_i64_exact(1, 53).unwrap();
    assert_eq!(r.partial_cmp(&one).0, Some(Ordering::Equal));
}

// --- Integer-path correct rounding under directed modes ---

#[test]
fn pow_directed_modes_integer_exponent() {
    // A known witness: pow(63, 9) at p=53 differed from MPFR
    // by 1 ULP under the old single-shot path. 63^9 ≈ 2^53.8 so
    // it is not representable at p=53 and must round. Build the
    // exact value by an independent naive repeated multiply at
    // ample precision, then check the public pow equals that
    // value rounded to 53 bits under each mode (correct
    // rounding, no MPFR needed).
    let sixty_three = BigFloat::try_from_i64_exact(63, 128).unwrap();
    let mut exact = BigFloat::try_from_i64_exact(1, 128).unwrap();
    for _ in 0..9 {
        exact = exact.mul(&sixty_three, RoundingMode::NearestEven).0;
    }
    for &mode in &[
        RoundingMode::NearestEven,
        RoundingMode::NearestAway,
        RoundingMode::TowardZero,
        RoundingMode::TowardPositive,
        RoundingMode::TowardNegative,
    ] {
        let want = exact.round_to_precision(53, mode).unwrap().0;
        let base = BigFloat::try_from_i64_exact(63, 53).unwrap();
        let expn = BigFloat::try_from_i64_exact(9, 53).unwrap();
        let (got, _) = base.pow(&expn, mode);
        assert_eq!(
            got.partial_cmp(&want).0,
            Some(Ordering::Equal),
            "pow(63,9) under {mode:?}: got {got:?}, want {want:?}"
        );
    }
}

#[test]
fn pow_negative_base_integer_uses_fast_path() {
    // (-63)^9 routes through pow_positive(|x|,…) then negates;
    // it must equal -(63^9 rounded to p), odd exponent.
    let s = BigFloat::try_from_i64_exact(63, 128).unwrap();
    let mut exact = BigFloat::try_from_i64_exact(1, 128).unwrap();
    for _ in 0..9 {
        exact = exact.mul(&s, RoundingMode::NearestEven).0;
    }
    let want = exact
        .round_to_precision(53, RoundingMode::NearestEven)
        .unwrap()
        .0
        .negated();
    let base = BigFloat::try_from_i64_exact(-63, 53).unwrap();
    let expn = BigFloat::try_from_i64_exact(9, 53).unwrap();
    let (got, _) = base.pow(&expn, RoundingMode::NearestEven);
    assert_eq!(got.partial_cmp(&want).0, Some(Ordering::Equal));
}

#[test]
fn pow_integer_path_reaches_far_binades_exactly() {
    // 0.5^100000 = 2^-100000: the integer path neither under- nor
    // overflows and every partial product is exact.
    let one = BigFloat::try_from_i64_exact(1, 53).unwrap();
    let (half, _) = one.scale_by_pow2(-1);
    let n = BigFloat::try_from_i64_exact(100_000, 53).unwrap();
    let (r, _) = half.pow(&n, RoundingMode::NearestEven);
    let (want, _) = one.scale_by_pow2(-100_000);
    assert_eq!(r.partial_cmp(&want).0, Some(Ordering::Equal), "0.5^100000 = {r:?}");
    let neg = BigFloat::try_from_i64_exact(-100_000, 53).unwrap();
    let (r2, _) = half.pow(&neg, RoundingMode::NearestEven);
    let (want2, _) = one.scale_by_pow2(100_000);
    assert_eq!(r2.partial_cmp(&want2).0, Some(Ordering::Equal), "0.5^-100000 = {r2:?}");
}

#[test]
fn pow_negative_base_odd_exponent_directed_modes() {
    // (-63)^9 = -(63^9); 63^9 needs 54 bits, so each directed mode
    // must bracket the exact negative value from its own side.
    let x = BigFloat::try_from_i64_exact(-63, 53).unwrap();
    let y = BigFloat::try_from_i64_exact(9, 53).unwrap();
    let exact = BigFloat::try_from_i64_exact(-15_633_814_156_853_823, 128).unwrap();
    let (up, _) = x.pow(&y, RoundingMode::TowardPositive);
    let (down, _) = x.pow(&y, RoundingMode::TowardNegative);
    assert_eq!(up.partial_cmp(&exact).0, Some(Ordering::Greater), "up = {up:?}");
    assert_eq!(down.partial_cmp(&exact).0, Some(Ordering::Less), "down = {down:?}");
    let want_up = exact.round_to_precision(53, RoundingMode::TowardPositive).unwrap().0;
    assert_eq!(up.partial_cmp(&want_up).0, Some(Ordering::Equal));
}

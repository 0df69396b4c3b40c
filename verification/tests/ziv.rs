#![allow(unused_imports)]

use core::cmp::Ordering;
use pfloat::{BigFloat, BuildError, Class, FixedFloat, RoundingMode, Sign, Status};
use pfloat::math::{ln_2_at, pi_at, pi_over_2_at, two_over_pi_at};
use pfloat::math::ziv::{ziv_round, DEFAULT_ERROR_GUARD};

#[test]
fn ziv_round_exact_value_is_bit_exact() {
    // An exact value (8) is identical at every working precision,
    // so the first two guards agree immediately and the result is
    // returned bit-exactly — the MPFR integer-fast-path parity
    // the pow integer branch relies on.
    for &mode in &[
        RoundingMode::NearestEven,
        RoundingMode::TowardPositive,
        RoundingMode::TowardNegative,
        RoundingMode::TowardZero,
        RoundingMode::NearestAway,
    ] {
        let (r, _) = ziv_round(
            |w| BigFloat::try_from_i64_exact(8, w).expect("w >= 1"),
            53,
            mode,
            DEFAULT_ERROR_GUARD,
        );
        let eight = BigFloat::try_from_i64_exact(8, 53).unwrap();
        assert_eq!(
            r.partial_cmp(&eight).0,
            Some(Ordering::Equal),
            "ziv_round exact 8 under {mode:?} = {r:?}"
        );
        assert_eq!(r.precision, 53);
    }
}

#[test]
fn ziv_round_converges_to_correctly_rounded() {
    // A transcendental-shaped constant: as the guard grows the
    // target-rounding stabilizes, and ziv_round must land on the
    // value obtained by rounding the constant directly to the
    // target precision under the same mode (correct rounding).
    let digits = "1.41421356237309504880168872420969807856967187537694\
                   8073176679737990732478462107038850387534327641572735";
    for &mode in &[
        RoundingMode::NearestEven,
        RoundingMode::TowardPositive,
        RoundingMode::TowardNegative,
        RoundingMode::TowardZero,
        RoundingMode::NearestAway,
    ] {
        let target = 113u32;
        let (r, _) = ziv_round(
            |w| {
                BigFloat::parse_str(digits, w, RoundingMode::NearestEven)
                    .expect("parse")
                    .0
            },
            target,
            mode,
            DEFAULT_ERROR_GUARD,
        );
        let direct = BigFloat::parse_str(digits, target, mode).expect("parse").0;
        assert_eq!(
            r.partial_cmp(&direct).0,
            Some(Ordering::Equal),
            "ziv_round vs direct round under {mode:?}: ziv={r:?}, direct={direct:?}"
        );
    }
}

#[test]
fn ziv_round_is_idempotent_under_recompute() {
    // Stable input → stable output across an independent re-run:
    // the driver does not introduce nondeterminism.
    let eval = |w: u32| {
        BigFloat::parse_str(
            "2.7182818284590452353602874713527",
            w,
            RoundingMode::NearestEven,
        )
        .expect("parse")
        .0
    };
    let (a, _) = ziv_round(eval, 80, RoundingMode::NearestEven, DEFAULT_ERROR_GUARD);
    let (b, _) = ziv_round(eval, 80, RoundingMode::NearestEven, DEFAULT_ERROR_GUARD);
    assert_eq!(a.partial_cmp(&b).0, Some(Ordering::Equal));
}

#![allow(unused_imports)]

use core::cmp::Ordering;
use pfloat::{BigFloat, BuildError, Class, FixedFloat, RoundingMode, Sign, Status};
use pfloat::math::{ln_2_at, pi_at, pi_over_2_at, two_over_pi_at};
use pfloat::math::gamma_stirling::stirling_lgamma;

fn close_at(v: &BigFloat, expected: &BigFloat, bits: u32) -> bool {
    let (diff, _) = v.sub(expected, RoundingMode::NearestEven);
    let abs_diff = diff.abs();
    if abs_diff.is_zero() {
        return true;
    }
    let p = v.precision().max(expected.precision());
    let one = BigFloat::try_from_i64_exact(1, p).unwrap();
    let two = BigFloat::try_from_i64_exact(2, p).unwrap();
    let abs_b = expected.abs();
    let mut bound = if abs_b.is_zero() { one } else { abs_b };
    for _ in 0..bits {
        bound = bound.div(&two, RoundingMode::NearestEven).0;
    }
    matches!(
        abs_diff.partial_cmp(&bound).0,
        Some(Ordering::Less | Ordering::Equal)
    )
}

#[test]
fn stirling_at_large_z_matches_factorial() {
    // At z = 100 with the 17-coefficient table, the asymptotic
    // truncation is roughly 2^(28.5 − 33·log₂(100)) ≈ 2^−190,
    // so target precision tighter than ~180 bits is not
    // reachable. Verify at a precision that respects this
    // budget; the kernel-level lgamma tests cover the
    // higher-precision regime by shifting z upward.
    let p = 128u32;
    let z = BigFloat::try_from_i64_exact(100, p).unwrap();
    let r = stirling_lgamma(&z, p);
    let expected = BigFloat::parse_str(
        "359.13420536957539877604401046028690961262171808563",
        p,
        RoundingMode::NearestEven,
    )
    .unwrap()
    .0;
    assert!(close_at(&r, &expected, p - 16));
}

#[test]
fn stirling_at_z_25_matches_target() {
    // ln Γ(25) = ln(24!) ≈ 54.78472939811231919.
    let p = 113u32;
    let z = BigFloat::try_from_i64_exact(25, p).unwrap();
    let r = stirling_lgamma(&z, p);
    let expected = BigFloat::parse_str(
        "54.784729398112319190093344083606184686866212381333",
        p,
        RoundingMode::NearestEven,
    )
    .unwrap()
    .0;
    assert!(close_at(&r, &expected, p - 24));
}

use core::cmp::Ordering;
use pfloat::{BigFloat, RoundingMode, Sign};

#[test]
fn si_inf_directed_rounding_is_sound() {
    // Si(−∞) = −π/2 (Si is odd): each directed mode rounds on its own side.
    let hp = pfloat::math::pi_over_2_at(600);
    let nhp = hp.negated();
    for &p in &[24u32, 53, 113, 200] {
        let pi = BigFloat::try_new_infinity(Sign::Positive, p).unwrap();
        let ni = BigFloat::try_new_infinity(Sign::Negative, p).unwrap();
        assert_ne!(
            pi.si(RoundingMode::TowardNegative).0.partial_cmp(&hp).0,
            Some(Ordering::Greater),
            "Si(+inf, TN) ≤ π/2 at p={p:?}"
        );
        assert_ne!(
            pi.si(RoundingMode::TowardPositive).0.partial_cmp(&hp).0,
            Some(Ordering::Less),
            "Si(+inf, TP) ≥ π/2 at p={p:?}"
        );
        assert_ne!(
            ni.si(RoundingMode::TowardNegative).0.partial_cmp(&nhp).0,
            Some(Ordering::Greater),
            "Si(-inf, TN) ≤ −π/2 at p={p:?}"
        );
        assert_ne!(
            ni.si(RoundingMode::TowardPositive).0.partial_cmp(&nhp).0,
            Some(Ordering::Less),
            "Si(-inf, TP) ≥ −π/2 at p={p:?}"
        );
    }
}

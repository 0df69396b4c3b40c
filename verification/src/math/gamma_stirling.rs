//! Asymptotic and Spouge evaluations of `ln Γ(z)` and `ψ(z)` for the
//! gamma family.
//!
//! Stirling's series
//! `ln Γ(z) = (z − 1/2)·ln z − z + ln(2π)/2 + Σ c_k·z^(1−2k)` and its
//! derivative `ψ(z) = ln z − 1/(2z) − Σ (2k−1)·c_k·z^(−2k)`, with
//! `c_k = B_{2k}/(2k(2k−1))`, serve large `z`; callers shift small
//! arguments up first.  Spouge's formula serves working precisions the
//! seventeen coefficients cannot reach.

use vstd::prelude::*;
use crate::types::{BigFloat, Sign, RoundingMode, Status, prec_ok};
use super::{int_at, one_at, rne, zero_at, exponent_of, ln_2pi_at, pi_at};
use super::ziv::value_exponent;
use super::{added, multiplied, divided, subtracted, rounded_near, sum_chain, diff_chain};

verus! {

/// The Stirling coefficients `c_k = B_{2k}/(2k(2k−1))` for
/// `k = 1..=17`, as numerator and denominator.
pub fn stirling_coefficients() -> (r: Vec<(i64, i64)>)
    ensures
        r.len() == 17,
{
    vec![
        (1, 12),
        (-1, 360),
        (1, 1260),
        (-1, 1680),
        (1, 1188),
        (-691, 360360),
        (1, 156),
        (-3617, 122400),
        (43867, 244188),
        (-174611, 125400),
        (77683, 5796),
        (-236364091, 1506960),
        (657931, 300),
        (-3392780147, 93960),
        (1723168255201, 2492028),
        (-7709321041217, 505920),
        (151628697551, 396),
    ]
}

/// How [`stirling_lgamma`] evaluates `ln Γ(z)`: `zw` is `z` rounded to
/// nearest at `w` bits; the sum starts at `(zw − 1/2)·ln zw − zw +
/// ln(2π)/2` (the logarithms what `ln` and [`ln_2pi_at`] give) and adds
/// the correction terms one by one; each operation rounded to nearest.
pub open spec fn stirling_lgamma_form(z: BigFloat, w: u32, s: BigFloat) -> bool {
    exists|zw: BigFloat, one: BigFloat, two: BigFloat, half: BigFloat, zmh: BigFloat, lz: BigFloat, lzs: Status,
        tm: BigFloat, tmz: BigFloat, l2p: BigFloat, hl: BigFloat, base: BigFloat, terms: Seq<BigFloat>, accs: Seq<BigFloat>|
        #![trigger rounded_near(z, w as nat, zw), call_ensures(one_at, (w,), one), call_ensures(int_at, (2i64, w), two), divided(one, two, half), subtracted(zw, half, zmh), call_ensures(BigFloat::ln, (&zw, RoundingMode::NearestEven), (lz, lzs)), multiplied(zmh, lz, tm), subtracted(tm, zw, tmz), call_ensures(ln_2pi_at, (w,), l2p), divided(l2p, two, hl), added(tmz, hl, base), sum_chain(base, terms, accs)]
        rounded_near(z, w as nat, zw) && call_ensures(one_at, (w,), one) && call_ensures(int_at, (2i64, w), two)
            && divided(one, two, half) && subtracted(zw, half, zmh)
            && call_ensures(BigFloat::ln, (&zw, RoundingMode::NearestEven), (lz, lzs)) && multiplied(zmh, lz, tm)
            && subtracted(tm, zw, tmz) && call_ensures(ln_2pi_at, (w,), l2p) && divided(l2p, two, hl)
            && added(tmz, hl, base) && sum_chain(base, terms, accs) && accs.last() == s
}

/// `ln Γ(z)` by Stirling's series at working precision `w`; the sum
/// stops where a term stops shrinking or falls below `2^−(w+4)`.
pub fn stirling_lgamma(z: &BigFloat, w: u32) -> (s: BigFloat)
    requires
        z.wf(),
        prec_ok(w as nat),
    ensures
        s.wf(),
        stirling_lgamma_form(*z, w, s),
{
    let z_w = rne(z, w);
    let one = one_at(w);
    let two = int_at(2, w);
    let (half, _) = one.div(&two, RoundingMode::NearestEven);
    let (z_minus_half, _) = z_w.sub(&half, RoundingMode::NearestEven);
    let (ln_z, lzs) = z_w.ln(RoundingMode::NearestEven);
    let (term_main, _) = z_minus_half.mul(&ln_z, RoundingMode::NearestEven);
    let (term_minus_z, _) = term_main.sub(&z_w, RoundingMode::NearestEven);
    let ln_2pi = ln_2pi_at(w);
    let (half_ln_2pi, _) = ln_2pi.div(&two, RoundingMode::NearestEven);
    let (with_const, _) = term_minus_z.add(&half_ln_2pi, RoundingMode::NearestEven);
    proof {
        assert(rounded_near(*z, w as nat, z_w));
        assert(call_ensures(one_at, (w,), one));
        assert(call_ensures(int_at, (2i64, w), two));
        assert(divided(one, two, half));
        assert(subtracted(z_w, half, z_minus_half));
        assert(call_ensures(BigFloat::ln, (&z_w, RoundingMode::NearestEven), (ln_z, lzs)));
        assert(multiplied(z_minus_half, ln_z, term_main));
        assert(subtracted(term_main, z_w, term_minus_z));
        assert(call_ensures(ln_2pi_at, (w,), ln_2pi));
        assert(divided(ln_2pi, two, half_ln_2pi));
        assert(added(term_minus_z, half_ln_2pi, with_const));
    }
    let ghost base = with_const;
    let ghost mut terms: Seq<BigFloat> = Seq::empty();
    let ghost mut accs: Seq<BigFloat> = seq![with_const];
    let (z_sq, _) = z_w.mul(&z_w, RoundingMode::NearestEven);
    let (one_over_z_sq, _) = one.div(&z_sq, RoundingMode::NearestEven);
    let (one_over_z, _) = one.div(&z_w, RoundingMode::NearestEven);
    let mut z_power = one_over_z;
    let mut sum = with_const;
    let mut prev_term_exp: i64 = 1;
    let coefficients = stirling_coefficients();
    let floor_exp: i64 = -(w as i64) - 1;
    let limit: i64 = -(w as i64) - 4;
    let mut i: usize = 0;
    proof {
        assert(sum_chain(base, terms, accs));
    }
    while i < coefficients.len()
        invariant
            prec_ok(w as nat),
            z_power.wf(),
            sum.wf(),
            one_over_z_sq.wf(),
            sum_chain(base, terms, accs),
            accs.last() == sum,
        decreases coefficients.len() - i,
    {
        let (num, den) = coefficients[i];
        let (coef, _) = int_at(num, w).div(&int_at(den, w), RoundingMode::NearestEven);
        let (term, _) = coef.mul(&z_power, RoundingMode::NearestEven);
        let term_exp: i64 = if term.is_normal() { exponent_of(&term) } else { floor_exp };
        if term_exp >= prev_term_exp {
            break;
        }
        prev_term_exp = term_exp;
        let (next_sum, _) = sum.add(&term, RoundingMode::NearestEven);
        proof {
            assert(added(sum, term, next_sum));
            super::lemma_sum_chain_push(base, terms, accs, term, next_sum);
            terms = terms.push(term);
            accs = accs.push(next_sum);
        }
        sum = next_sum;
        if term_exp < limit {
            break;
        }
        let (next_power, _) = z_power.mul(&one_over_z_sq, RoundingMode::NearestEven);
        z_power = next_power;
        i = i + 1;
    }
    sum
}

/// How [`stirling_digamma`] evaluates `ψ(z)`: `zw` is `z` rounded to
/// nearest at `w` bits; the value starts at `ln zw − 1/(2·zw)` (the
/// logarithm what `ln` gives) and subtracts the correction terms one by
/// one; each operation rounded to nearest.
pub open spec fn stirling_digamma_form(z: BigFloat, w: u32, s: BigFloat) -> bool {
    exists|zw: BigFloat, one: BigFloat, two: BigFloat, lz: BigFloat, lzs: Status, tz: BigFloat, h: BigFloat,
        base: BigFloat, terms: Seq<BigFloat>, accs: Seq<BigFloat>|
        #![trigger rounded_near(z, w as nat, zw), call_ensures(one_at, (w,), one), call_ensures(int_at, (2i64, w), two), call_ensures(BigFloat::ln, (&zw, RoundingMode::NearestEven), (lz, lzs)), multiplied(two, zw, tz), divided(one, tz, h), subtracted(lz, h, base), diff_chain(base, terms, accs)]
        rounded_near(z, w as nat, zw) && call_ensures(one_at, (w,), one) && call_ensures(int_at, (2i64, w), two)
            && call_ensures(BigFloat::ln, (&zw, RoundingMode::NearestEven), (lz, lzs)) && multiplied(two, zw, tz)
            && divided(one, tz, h) && subtracted(lz, h, base) && diff_chain(base, terms, accs) && accs.last() == s
}

/// `ψ(z)` by the derivative of Stirling's series at working
/// precision `w`.
pub fn stirling_digamma(z: &BigFloat, w: u32) -> (s: BigFloat)
    requires
        z.wf(),
        prec_ok(w as nat),
    ensures
        s.wf(),
        stirling_digamma_form(*z, w, s),
{
    let z_w = rne(z, w);
    let one = one_at(w);
    let two = int_at(2, w);
    let (ln_z, lzs) = z_w.ln(RoundingMode::NearestEven);
    let (two_z, _) = two.mul(&z_w, RoundingMode::NearestEven);
    let (half_over_z, _) = one.div(&two_z, RoundingMode::NearestEven);
    let (with_correction, _) = ln_z.sub(&half_over_z, RoundingMode::NearestEven);
    proof {
        assert(rounded_near(*z, w as nat, z_w));
        assert(call_ensures(one_at, (w,), one));
        assert(call_ensures(int_at, (2i64, w), two));
        assert(call_ensures(BigFloat::ln, (&z_w, RoundingMode::NearestEven), (ln_z, lzs)));
        assert(multiplied(two, z_w, two_z));
        assert(divided(one, two_z, half_over_z));
        assert(subtracted(ln_z, half_over_z, with_correction));
    }
    let ghost base = with_correction;
    let ghost mut terms: Seq<BigFloat> = Seq::empty();
    let ghost mut accs: Seq<BigFloat> = seq![with_correction];
    let (z_sq, _) = z_w.mul(&z_w, RoundingMode::NearestEven);
    let (one_over_z_sq, _) = one.div(&z_sq, RoundingMode::NearestEven);
    let mut z_power = one_over_z_sq.dup();
    let mut sum = with_correction;
    let mut prev_term_exp: i64 = 1;
    let coefficients = stirling_coefficients();
    let floor_exp: i64 = -(w as i64) - 1;
    let limit: i64 = -(w as i64) - 4;
    let mut i: usize = 0;
    proof {
        assert(diff_chain(base, terms, accs));
    }
    while i < coefficients.len()
        invariant
            prec_ok(w as nat),
            z_power.wf(),
            sum.wf(),
            one_over_z_sq.wf(),
            coefficients.len() == 17,
            diff_chain(base, terms, accs),
            accs.last() == sum,
        decreases coefficients.len() - i,
    {
        let (num, den) = coefficients[i];
        let multiplier: i128 = 2 * (i as i128 + 1) - 1;
        let wide: i128 = num as i128;
        assert(-0x8000_0000_0000_0000 * 40 <= wide * multiplier <= 0x8000_0000_0000_0000 * 40) by (nonlinear_arith)
            requires
                -0x8000_0000_0000_0000 <= wide <= 0x8000_0000_0000_0000,
                1 <= multiplier <= 40;
        let scaled: i128 = wide * multiplier;
        let num_scaled: i64 = if scaled > i64::MAX as i128 {
            i64::MAX
        } else if scaled < i64::MIN as i128 {
            i64::MIN
        } else {
            scaled as i64
        };
        let (coef, _) = int_at(num_scaled, w).div(&int_at(den, w), RoundingMode::NearestEven);
        let (term, _) = coef.mul(&z_power, RoundingMode::NearestEven);
        let term_exp: i64 = if term.is_normal() { exponent_of(&term) } else { floor_exp };
        if term_exp >= prev_term_exp {
            break;
        }
        prev_term_exp = term_exp;
        let (next_sum, _) = sum.sub(&term, RoundingMode::NearestEven);
        proof {
            assert(subtracted(sum, term, next_sum));
            super::lemma_diff_chain_push(base, terms, accs, term, next_sum);
            terms = terms.push(term);
            accs = accs.push(next_sum);
        }
        sum = next_sum;
        if term_exp < limit {
            break;
        }
        let (next_power, _) = z_power.mul(&one_over_z_sq, RoundingMode::NearestEven);
        z_power = next_power;
        i = i + 1;
    }
    sum
}

/// Spouge's parameter `a` for `w` bits: `w/5 + 20`.
pub fn spouge_a_for(w: u32) -> (a: u32)
    ensures
        a >= 20,
        a as int == w / 5 + 20,
{
    w / 5 + 20
}

/// Spouge's coefficients `c_k = (−1)^(k−1)·(a−k)^(k−1/2)·e^(a−k)/(k−1)!`
/// for `k = 1..a−1`, through their logarithms.
pub fn spouge_coefficients_compute(w: u32, a: u32) -> (r: Vec<BigFloat>)
    requires
        prec_ok(w as nat),
        a >= 1,
    ensures
        r.len() == a - 1,
        forall|i: int| 0 <= i < r.len() ==> #[trigger] r[i].wf(),
{
    let two = int_at(2, w);
    let mut coefficients: Vec<BigFloat> = Vec::new();
    let mut ln_factorial = zero_at(Sign::Positive, w);
    let mut k: u32 = 1;
    while k < a
        invariant
            prec_ok(w as nat),
            1 <= k <= a,
            two.wf(),
            ln_factorial.wf(),
            coefficients.len() == k - 1,
            forall|i: int| 0 <= i < coefficients.len() ==> #[trigger] coefficients[i].wf(),
        decreases a - k,
    {
        let a_minus_k = int_at((a - k) as i64, w);
        let (k_minus_half, _) = int_at(2 * (k as i64) - 1, w).div(&two, RoundingMode::NearestEven);
        let (ln_a_minus_k, _) = a_minus_k.ln(RoundingMode::NearestEven);
        let (term_a, _) = k_minus_half.mul(&ln_a_minus_k, RoundingMode::NearestEven);
        let (term_b, _) = term_a.add(&a_minus_k, RoundingMode::NearestEven);
        let (ln_c_k_abs, _) = term_b.sub(&ln_factorial, RoundingMode::NearestEven);
        let (c_k_abs, _) = ln_c_k_abs.exp(RoundingMode::NearestEven);
        let c_k = if k % 2 == 0 { c_k_abs.negated() } else { c_k_abs };
        coefficients.push(c_k);
        let (ln_k, _) = int_at(k as i64, w).ln(RoundingMode::NearestEven);
        let (next_ln_fact, _) = ln_factorial.add(&ln_k, RoundingMode::NearestEven);
        ln_factorial = next_ln_fact;
        k = k + 1;
    }
    coefficients
}

/// `ln Γ(z)` by Spouge's formula at working precision `w`, with the
/// larger exponent of the two terms whose difference forms it:
/// `ln Γ(z+1)` and `ln z`.
pub fn spouge_lgamma_scaled(z: &BigFloat, w: u32) -> (r: (BigFloat, i64))
    requires
        z.wf(),
        prec_ok(w as nat),
    ensures
        r.0.wf(),
{
    let a = spouge_a_for(w);
    let z_w = rne(z, w);
    let one = one_at(w);
    let two = int_at(2, w);
    let (half, _) = one.div(&two, RoundingMode::NearestEven);
    let pi = pi_at(w);
    let (two_pi, _) = two.mul(&pi, RoundingMode::NearestEven);
    let (sqrt_2pi, _) = two_pi.sqrt(RoundingMode::NearestEven);
    let coefficients = spouge_coefficients_compute(w, a);
    let mut sum = sqrt_2pi;
    let mut i: usize = 0;
    while i < coefficients.len()
        invariant
            prec_ok(w as nat),
            sum.wf(),
            z_w.wf(),
            coefficients.len() == a - 1,
            a <= 0x400_0000,
            forall|j: int| 0 <= j < coefficients.len() ==> #[trigger] coefficients[j].wf(),
        decreases coefficients.len() - i,
    {
        let k_bf = int_at(i as i64 + 1, w);
        let (z_plus_k, _) = z_w.add(&k_bf, RoundingMode::NearestEven);
        let (term, _) = coefficients[i].div(&z_plus_k, RoundingMode::NearestEven);
        let (next_sum, _) = sum.add(&term, RoundingMode::NearestEven);
        sum = next_sum;
        i = i + 1;
    }
    let a_bf = int_at(a as i64, w);
    let (z_plus_a, _) = z_w.add(&a_bf, RoundingMode::NearestEven);
    let (z_plus_half, _) = z_w.add(&half, RoundingMode::NearestEven);
    let (ln_z_plus_a, _) = z_plus_a.ln(RoundingMode::NearestEven);
    let (term1, _) = z_plus_half.mul(&ln_z_plus_a, RoundingMode::NearestEven);
    let (leading, _) = term1.sub(&z_plus_a, RoundingMode::NearestEven);
    let (ln_sum, _) = sum.ln(RoundingMode::NearestEven);
    let (ln_gamma_z_plus_1, _) = leading.add(&ln_sum, RoundingMode::NearestEven);
    let (ln_z, _) = z_w.ln(RoundingMode::NearestEven);
    let (ln_gamma_z, _) = ln_gamma_z_plus_1.sub(&ln_z, RoundingMode::NearestEven);
    let e1 = value_exponent(&ln_gamma_z_plus_1);
    let e2 = value_exponent(&ln_z);
    (ln_gamma_z, if e1 >= e2 { e1 } else { e2 })
}

/// `ψ(z)` by differentiating Spouge's formula at working precision `w`:
/// with `S = √(2π) + Σ c_k/(z+k)` and `D = Σ c_k/(z+k)²`,
/// `ψ(z) = ln(z+a) + (z+½)/(z+a) − 1 − D/S − 1/z`.  Also returns the
/// operand scale of the composition: the largest exponent among its
/// terms, the quotient's lifted by the cancellation inside `S` and `D`.
pub fn spouge_digamma_scaled(z: &BigFloat, w: u32) -> (r: (BigFloat, i64))
    requires
        z.wf(),
        prec_ok(w as nat),
    ensures
        r.0.wf(),
{
    let a = spouge_a_for(w);
    let z_w = rne(z, w);
    let one = one_at(w);
    let two = int_at(2, w);
    let (half, _) = one.div(&two, RoundingMode::NearestEven);
    let pi = pi_at(w);
    let (two_pi, _) = two.mul(&pi, RoundingMode::NearestEven);
    let (sqrt_2pi, _) = two_pi.sqrt(RoundingMode::NearestEven);
    let coefficients = spouge_coefficients_compute(w, a);
    let mut sum = sqrt_2pi;
    let mut dsum = zero_at(Sign::Positive, w);
    let mut max_s: i64 = value_exponent(&sum);
    let mut max_d: i64 = i64::MIN;
    let mut i: usize = 0;
    while i < coefficients.len()
        invariant
            prec_ok(w as nat),
            sum.wf(),
            dsum.wf(),
            z_w.wf(),
            coefficients.len() == a - 1,
            a <= 0x400_0000,
            forall|j: int| 0 <= j < coefficients.len() ==> #[trigger] coefficients[j].wf(),
        decreases coefficients.len() - i,
    {
        let k_bf = int_at(i as i64 + 1, w);
        let (z_plus_k, _) = z_w.add(&k_bf, RoundingMode::NearestEven);
        let (term, _) = coefficients[i].div(&z_plus_k, RoundingMode::NearestEven);
        let (dterm, _) = term.div(&z_plus_k, RoundingMode::NearestEven);
        let et = value_exponent(&term);
        if et > max_s {
            max_s = et;
        }
        let ed = value_exponent(&dterm);
        if ed > max_d {
            max_d = ed;
        }
        sum = sum.add(&term, RoundingMode::NearestEven).0;
        dsum = dsum.add(&dterm, RoundingMode::NearestEven).0;
        i = i + 1;
    }
    let a_bf = int_at(a as i64, w);
    let (z_plus_a, _) = z_w.add(&a_bf, RoundingMode::NearestEven);
    let (z_plus_half, _) = z_w.add(&half, RoundingMode::NearestEven);
    let (ln_z_plus_a, _) = z_plus_a.ln(RoundingMode::NearestEven);
    let (frac, _) = z_plus_half.div(&z_plus_a, RoundingMode::NearestEven);
    let (ratio, _) = dsum.div(&sum, RoundingMode::NearestEven);
    let (inv_z, _) = one.div(&z_w, RoundingMode::NearestEven);
    let (t1, _) = ln_z_plus_a.add(&frac, RoundingMode::NearestEven);
    let (t2, _) = t1.sub(&one, RoundingMode::NearestEven);
    let (t3, _) = t2.sub(&ratio, RoundingMode::NearestEven);
    let (psi, _) = t3.sub(&inv_z, RoundingMode::NearestEven);
    let canc_s: i128 = if max_s as i128 > value_exponent(&sum) as i128 { max_s as i128 - value_exponent(&sum) as i128 } else { 0 };
    let canc_d: i128 = if max_d as i128 > value_exponent(&dsum) as i128 { max_d as i128 - value_exponent(&dsum) as i128 } else { 0 };
    let lifted: i128 = value_exponent(&ratio) as i128 + canc_s + canc_d;
    let mut scale: i128 = value_exponent(&ln_z_plus_a) as i128;
    if lifted > scale {
        scale = lifted;
    }
    if value_exponent(&frac) as i128 > scale {
        scale = value_exponent(&frac) as i128;
    }
    if value_exponent(&inv_z) as i128 > scale {
        scale = value_exponent(&inv_z) as i128;
    }
    if scale < 0 {
        scale = 0;
    }
    let op_scale: i64 = if scale > i64::MAX as i128 { i64::MAX } else { scale as i64 };
    (psi, op_scale)
}

/// The yardstick the gamma family measures a positive argument by
/// before shifting it up: `2^(e+1)` for a normal `x` of exponent
/// `0 ≤ e < 30`, `2^32 − 1` from `2^30` on, and `0` below one or at a
/// non-normal.
pub open spec fn shift_magnitude(x: BigFloat) -> int {
    if !(x.class is Normal) || x.class->Normal_exponent < 0 {
        0
    } else if x.class->Normal_exponent >= 30 {
        0xffff_ffff
    } else {
        vstd::arithmetic::power2::pow2((x.class->Normal_exponent + 1) as nat) as int
    }
}

/// [`shift_magnitude`] of `x`.
pub fn shift_magnitude_of(x: &BigFloat) -> (r: u32)
    ensures
        r == shift_magnitude(*x),
{
    let e_x = exponent_of(x);
    if !x.is_normal() || e_x < 0 {
        0
    } else if e_x >= 30 {
        u32::MAX
    } else {
        let v = crate::limbs::pow2_u64((e_x + 1) as u64);
        proof {
            super::pow::lemma_pow2_le((e_x + 1) as nat, 31);
            vstd::arithmetic::power2::lemma2_to64();
        }
        v as u32
    }
}

} // verus!

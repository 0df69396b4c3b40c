//! `erf(x)`: the Maclaurin series `(2/√π)·Σ (−1)^n x^(2n+1)/(n!(2n+1))`
//! at a working precision raised for the series' growth, or
//! `1 − erfc(x)` from the asymptotic expansion past a threshold;
//! odd in `x`.

use vstd::prelude::*;
use crate::types::{BigFloat, BuildError, Class, Sign, RoundingMode, Status, prec_ok};
use crate::float::{finite_value_is, nan_result};
use crate::fixed::FixedFloat;
use super::{wadd, int_at, one_at, rnd, rne, zero_at, exponent_of, nan_in, two_over_sqrt_pi_at};
use super::expm1::minus_one_at;
use super::erfc::{erfc_asymptotic, signed_as};
use super::{added, multiplied, divided, subtracted, rounded_near, sum_chain};
use crate::float::same;

verus! {

/// The outcome `erf` promises at the special inputs.
pub open spec fn erf_special(x: BigFloat, r: BigFloat, st: Status, p: nat) -> bool {
    &&& (x.class is Nan ==> nan_result(r, st, x, p))
    &&& (x.class is Zero ==> r.class == x.class && st.bits == 0)
    &&& (x.class == (Class::Infinity { sign: Sign::Positive }) ==> finite_value_is(r, 1, 0) && st.bits == 0)
    &&& (x.class == (Class::Infinity { sign: Sign::Negative }) ==> finite_value_is(r, -1, 0) && st.bits == 0)
}

/// Smallest binary exponent `e` (from 2 up to 60) with
/// `4^e ≥ (p + 32)·16/23`: from `|x| ≥ 2^e` on, the asymptotic
/// expansion of `erfc` reaches `p` bits.
pub fn asymptotic_threshold_exponent(p: u32) -> (e: i64)
    ensures
        2 <= e <= 60,
{
    let bits_needed: u64 = p as u64 + 32;
    let need: u64 = (bits_needed * 16 + 22) / 23;
    let mut e: i64 = 2;
    let mut pow_4: u64 = 16;
    while pow_4 < need && e < 60
        invariant
            2 <= e <= 60,
        decreases 60 - e,
    {
        e = e + 1;
        pow_4 = if pow_4 > u64::MAX / 4 { u64::MAX } else { pow_4 * 4 };
    }
    e
}

/// `erf(|x|)` by its Maclaurin series at a working precision raised by
/// up to 4096 bits for the growth of the terms at larger `|x|`.
/// Step `n` of the Maclaurin series of `erf`: the power
/// `pn = pp·x²`, the factorial `fn = fp·n`, and the term
/// `t = ±pn/(fn·(2n+1))`, negative for odd `n`; the integers taken at
/// `w` bits, each operation rounded to nearest.
pub open spec fn erf_mac_step(pp: BigFloat, fp: BigFloat, xsq: BigFloat, n: i64, m: i64, w: u32, pn: BigFloat, fnn: BigFloat, t: BigFloat, neg: bool) -> bool {
    exists|nb: BigFloat, mb: BigFloat, d: BigFloat, q: BigFloat|
        #![trigger call_ensures(int_at, (n, w), nb), call_ensures(int_at, (m, w), mb), multiplied(fnn, mb, d), divided(pn, d, q)]
        multiplied(pp, xsq, pn) && call_ensures(int_at, (n, w), nb) && multiplied(fp, nb, fnn)
            && call_ensures(int_at, (m, w), mb) && multiplied(fnn, mb, d) && divided(pn, d, q) && signed_as(t, q, neg)
}

/// The powers, factorials and terms of the `erf` series follow its
/// steps.
#[verifier::opaque]
pub open spec fn erf_mac_terms(ps: Seq<BigFloat>, fs: Seq<BigFloat>, terms: Seq<BigFloat>, xsq: BigFloat, w: u32) -> bool {
    &&& ps.len() == terms.len() + 1
    &&& fs.len() == terms.len() + 1
    &&& forall|i: int| 0 <= i < terms.len() ==> erf_mac_step(ps[i], fs[i], xsq, (i + 1) as i64, (2 * i + 3) as i64, w,
        ps[i + 1], fs[i + 1], #[trigger] terms[i], i % 2 == 0)
}

proof fn lemma_erf_mac_push(ps: Seq<BigFloat>, fs: Seq<BigFloat>, terms: Seq<BigFloat>, xsq: BigFloat, w: u32,
    pn: BigFloat, fnn: BigFloat, t: BigFloat)
    requires
        erf_mac_terms(ps, fs, terms, xsq, w),
        erf_mac_step(ps.last(), fs.last(), xsq, (terms.len() + 1) as i64, (2 * terms.len() + 3) as i64, w, pn, fnn, t,
            terms.len() % 2 == 0),
    ensures
        erf_mac_terms(ps.push(pn), fs.push(fnn), terms.push(t), xsq, w),
{
    reveal(erf_mac_terms);
    let ps2 = ps.push(pn);
    let fs2 = fs.push(fnn);
    let terms2 = terms.push(t);
    assert forall|i: int| 0 <= i < terms2.len() implies erf_mac_step(ps2[i], fs2[i], xsq, (i + 1) as i64, (2 * i + 3) as i64, w,
        ps2[i + 1], fs2[i + 1], #[trigger] terms2[i], i % 2 == 0) by {
        if i < terms.len() {
            assert(terms2[i] == terms[i] && ps2[i] == ps[i] && ps2[i + 1] == ps[i + 1] && fs2[i] == fs[i] && fs2[i + 1] == fs[i + 1]);
        }
    }
}

/// How [`erf_maclaurin`] sums `erf(x) = 2/√π·Σ_n (−1)^n x^{2n+1}/(n!·(2n+1))`
/// at a working precision `w`: `xw` is `x` rounded to nearest; the
/// partial sums start at `xw` and add the terms of [`erf_mac_step`]
/// (powers from `xw`, factorials from one); the result is what
/// [`two_over_sqrt_pi_at`] gives times the sum; each operation rounded
/// to nearest.
pub open spec fn erf_maclaurin_form(x: BigFloat, s: BigFloat) -> bool {
    exists|w: u32, xw: BigFloat, xsq: BigFloat, one: BigFloat, ps: Seq<BigFloat>, fs: Seq<BigFloat>, terms: Seq<BigFloat>,
        accs: Seq<BigFloat>, c: BigFloat|
        #![trigger rounded_near(x, w as nat, xw), multiplied(xw, xw, xsq), call_ensures(one_at, (w,), one), erf_mac_terms(ps, fs, terms, xsq, w), sum_chain(xw, terms, accs), call_ensures(two_over_sqrt_pi_at, (w,), c)]
        rounded_near(x, w as nat, xw) && multiplied(xw, xw, xsq) && call_ensures(one_at, (w,), one)
            && same(ps[0], xw) && fs[0] == one && erf_mac_terms(ps, fs, terms, xsq, w)
            && sum_chain(xw, terms, accs) && call_ensures(two_over_sqrt_pi_at, (w,), c) && multiplied(c, accs.last(), s)
}

pub fn erf_maclaurin(abs_x: &BigFloat, p: u32) -> (s: BigFloat)
    requires
        abs_x.wf(),
        prec_ok(p as nat),
    ensures
        s.wf(),
        abs_x.class is Zero ==> s.class == (Class::Zero { sign: Sign::Positive }),
        !(abs_x.class is Zero) ==> erf_maclaurin_form(*abs_x, s),
{
    if abs_x.is_zero() {
        return zero_at(Sign::Positive, p);
    }
    let e_x = exponent_of(abs_x);
    let extra: u64 = if e_x <= 0 {
        0
    } else {
        let shift: u64 = if e_x >= 9 { 20 } else { (2 * (e_x + 1)) as u64 };
        let mag: u64 = crate::limbs::pow2_u64(shift);
        proof {
            super::pow::lemma_pow2_le(shift as nat, 20);
            vstd::arithmetic::power2::lemma2_to64();
        }
        let m = mag * 23 / 16;
        if m > 4096 { 4096 } else { m }
    };
    let working = wadd(p, 64 + extra);
    let x_w = rne(abs_x, working);
    let (x_sq, _) = x_w.mul(&x_w, RoundingMode::NearestEven);
    let mut x_power = x_w.dup();
    let mut factorial = one_at(working);
    let ghost one = factorial;
    let ghost xw0 = x_w;
    let mut sum = x_w;
    let ghost mut ps: Seq<BigFloat> = seq![x_power];
    let ghost mut fs: Seq<BigFloat> = seq![factorial];
    let ghost mut terms: Seq<BigFloat> = Seq::empty();
    let ghost mut accs: Seq<BigFloat> = seq![sum];
    proof {
        reveal(erf_mac_terms);
        assert(sum_chain(xw0, terms, accs));
    }
    let max_iter: u64 = if 4 * (working as u64) > 2048 { 4 * (working as u64) } else { 2048 };
    let limit: i64 = -(working as i64) - 4;
    let mut negative_term = true;
    let mut n: u64 = 1;
    while n <= max_iter
        invariant_except_break
            terms.len() == n - 1,
        invariant
            prec_ok(working as nat),
            x_sq.wf(),
            x_power.wf(),
            factorial.wf(),
            sum.wf(),
            max_iter <= 0x400_0000,
            1 <= n,
            terms.len() <= n,
            ps.len() == terms.len() + 1,
            fs.len() == terms.len() + 1,
            ps.last() == x_power,
            fs.last() == factorial,
            same(ps[0], xw0),
            fs[0] == one,
            negative_term == (terms.len() % 2 == 0),
            erf_mac_terms(ps, fs, terms, x_sq, working),
            sum_chain(xw0, terms, accs),
            accs.last() == sum,
        decreases max_iter + 1 - n,
    {
        let (next_power, _) = x_power.mul(&x_sq, RoundingMode::NearestEven);
        let nb = int_at(n as i64, working);
        let (next_fact, _) = factorial.mul(&nb, RoundingMode::NearestEven);
        let mb = int_at((2 * n + 1) as i64, working);
        let (denom, _) = next_fact.mul(&mb, RoundingMode::NearestEven);
        let (t, _) = next_power.div(&denom, RoundingMode::NearestEven);
        let term = if negative_term { t.negated() } else { t };
        proof {
            let i = terms.len() as int;
            assert((i + 1) as i64 == n as i64 && (2 * i + 3) as i64 == (2 * n + 1) as i64);
            assert(multiplied(x_power, x_sq, next_power));
            assert(multiplied(factorial, nb, next_fact));
            assert(multiplied(next_fact, mb, denom));
            assert(divided(next_power, denom, t));
            assert(signed_as(term, t, negative_term));
            assert(erf_mac_step(ps.last(), fs.last(), x_sq, (i + 1) as i64, (2 * i + 3) as i64, working,
                next_power, next_fact, term, i % 2 == 0));
        }
        x_power = next_power;
        factorial = next_fact;
        negative_term = !negative_term;
        let (next_sum, _) = sum.add(&term, RoundingMode::NearestEven);
        proof {
            assert(added(sum, term, next_sum));
            lemma_erf_mac_push(ps, fs, terms, x_sq, working, x_power, factorial, term);
            super::lemma_sum_chain_push(xw0, terms, accs, term, next_sum);
            ps = ps.push(x_power);
            fs = fs.push(factorial);
            terms = terms.push(term);
            accs = accs.push(next_sum);
        }
        sum = next_sum;
        if !term.is_normal() || exponent_of(&term) < limit {
            break;
        }
        n = n + 1;
    }
    let coef = two_over_sqrt_pi_at(working);
    let (r, _) = coef.mul(&sum, RoundingMode::NearestEven);
    proof {
        assert(rounded_near(*abs_x, working as nat, xw0));
        assert(multiplied(xw0, xw0, x_sq));
        assert(call_ensures(one_at, (working,), one));
        assert(call_ensures(two_over_sqrt_pi_at, (working,), coef));
        assert(multiplied(coef, accs.last(), r));
    }
    r
}

/// What `erf` gives at a normal argument: the value [`erf_at`]
/// computes for `p` bits, rounded to `p` bits under `mode`.
pub open spec fn erf_value(x: BigFloat, r: BigFloat, st: Status, p: nat, mode: RoundingMode) -> bool {
    x.class is Normal ==> exists|y: BigFloat| #[trigger] call_ensures(erf_at, (&x, p as u32), y) && super::rounds_to(y, p, mode, r, st)
}

fn erf_kernel(x: &BigFloat, target: u32, mode: RoundingMode) -> (r: (BigFloat, Status))
    requires
        x.wf(),
        prec_ok(target as nat),
    ensures
        r.0.wf(),
        r.0.precision == target,
        erf_special(*x, r.0, r.1, target as nat),
        erf_value(*x, r.0, r.1, target as nat, mode),
{
    match &x.class {
        Class::Nan { .. } => return nan_in(x, target),
        Class::Zero { sign } => return (zero_at(*sign, target), Status { bits: 0 }),
        Class::Infinity { sign: Sign::Positive } => return (one_at(target), Status { bits: 0 }),
        Class::Infinity { sign: Sign::Negative } => return (minus_one_at(target), Status { bits: 0 }),
        Class::Normal { .. } => {},
    }
    let result = erf_at(x, target);
    rnd(&result, target, mode)
}

/// `erf(x)` before the final rounding to `target` bits: `1 − erfc(|x|)`
/// by the asymptotic expansion at `target + 64` bits from the threshold
/// on, the Maclaurin series below it; with the sign of `x`.
pub fn erf_at(x: &BigFloat, target: u32) -> (y: BigFloat)
    requires
        x.wf(),
        prec_ok(target as nat),
    ensures
        y.wf(),
        exists|ax: BigFloat, ra: BigFloat| #![trigger call_ensures(BigFloat::abs, (x,), ax), erf_abs_value(ax, target, ra)]
            call_ensures(BigFloat::abs, (x,), ax) && erf_abs_value(ax, target, ra)
                && (if x.spec_neg() { crate::arith::negation_of(y, ra) } else { y == ra }),
{
    let abs_x = x.abs();
    let e_x = exponent_of(&abs_x);
    let result_abs = if e_x >= asymptotic_threshold_exponent(target) {
        let working = wadd(target, 64);
        let erfc_val = erfc_asymptotic(&abs_x, working);
        let one = one_at(working);
        let (v, _) = one.sub(&erfc_val, RoundingMode::NearestEven);
        proof {
            assert(call_ensures(erfc_asymptotic, (&abs_x, working), erfc_val));
            assert(call_ensures(one_at, (working,), one));
            assert(subtracted(one, erfc_val, v));
        }
        v
    } else {
        let v = erf_maclaurin(&abs_x, target);
        proof {
            assert(call_ensures(erf_maclaurin, (&abs_x, target), v));
        }
        v
    };
    proof {
        assert(call_ensures(BigFloat::abs, (x,), abs_x));
        assert(erf_abs_value(abs_x, target, result_abs));
    }
    if x.is_sign_negative() { result_abs.negated() } else { result_abs }
}

/// `erf(|x|)` for `target` bits: one minus what [`erfc_asymptotic`]
/// gives at `target + 64` bits, or what [`erf_maclaurin`] gives.
pub open spec fn erf_abs_value(ax: BigFloat, target: u32, ra: BigFloat) -> bool {
    ||| exists|w2: u32, e: BigFloat, one: BigFloat|
        #![trigger call_ensures(erfc_asymptotic, (&ax, w2), e), call_ensures(one_at, (w2,), one)]
        w2 == super::prec_clamp(target + 64) && call_ensures(erfc_asymptotic, (&ax, w2), e)
            && call_ensures(one_at, (w2,), one) && subtracted(one, e, ra)
    ||| call_ensures(erf_maclaurin, (&ax, target), ra)
}

impl BigFloat {
    /// `erf(self)` rounded under `mode` to the precision of `self`.
    pub fn erf(&self, mode: RoundingMode) -> (r: (BigFloat, Status))
        requires
            self.wf(),
        ensures
            r.0.wf(),
            r.0.precision == self.precision,
            erf_special(*self, r.0, r.1, self.precision as nat),
            erf_value(*self, r.0, r.1, self.precision as nat, mode),
    {
        erf_kernel(self, self.precision, mode)
    }

    /// `erf(self)` rounded under `mode` to `target_precision` bits.
    pub fn erf_round(&self, target_precision: u32, mode: RoundingMode) -> (r: Result<(BigFloat, Status), BuildError>)
        requires
            self.wf(),
        ensures
            r is Ok <==> prec_ok(target_precision as nat),
            target_precision == 0 ==> r == Err::<(BigFloat, Status), BuildError>(BuildError::PrecisionZero),
            r matches Ok(v) ==> v.0.wf() && v.0.precision == target_precision
                && erf_special(*self, v.0, v.1, target_precision as nat)
                && erf_value(*self, v.0, v.1, target_precision as nat, mode),
    {
        BigFloat::check_precision(target_precision)?;
        Ok(erf_kernel(self, target_precision, mode))
    }
}

impl<const PREC: u32> FixedFloat<PREC> {
    /// `erf(self)` at the fixed precision.
    pub fn erf(&self, mode: RoundingMode) -> (r: (FixedFloat<PREC>, Status))
        requires
            self.wf(),
        ensures
            r.0.wf(),
            erf_special(self.value(), r.0.value(), r.1, PREC as nat),
            erf_value(self.value(), r.0.value(), r.1, PREC as nat, mode),
            call_ensures(BigFloat::erf, (&self.value(), mode), (r.0.value(), r.1)),
    {
        let (big, st) = self.big_ref().erf(mode);
        (FixedFloat::wrap(big), st)
    }
}

} // verus!

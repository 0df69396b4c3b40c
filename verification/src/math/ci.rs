//! `Ci(x) = γ + ln x + ∫₀ˣ (cos t − 1)/t dt`: the series
//! `γ + ln x + Σ (−1)^k x^(2k)/(2k·(2k)!)` at a working precision raised
//! for the terms' growth, or `f(x)·sin x − g(x)·cos x` from the
//! auxiliary asymptotic series where that reaches the target, with the
//! working precision raised by the cancellation near the roots;
//! rounded through the Ziv driver.

use vstd::prelude::*;
use crate::types::{BigFloat, BuildError, Class, Sign, RoundingMode, Status, FLAG_INVALID, FLAG_DIV_BY_ZERO, prec_ok};
use crate::float::nan_result;
use crate::fixed::FixedFloat;
use super::{wadd, int_at, rne, zero_at, inf_at, qnan_at, exponent_of, nan_in, euler_gamma_at, force_inexact};
use super::exp::has_inexact;
use super::ei::{asymptotic_threshold_exponent, acc_exponent, below_floor, series_min_terms, series_working_precision};
use super::si::{si_ci_f, si_ci_g};
use super::{rounds_to, added, multiplied, divided, rounded_near, sum_chain};
use crate::arith::negation_of;
use super::ei::is_asymptotic_threshold;
use super::ziv::{ziv_round, cancellation_boosted, value_exponent, DEFAULT_ERROR_GUARD, ZivTrace, is_trace_of, ziv_on_schedule};

verus! {

/// Guard bits charged to one evaluation of the Ci kernel.
pub const CI_ERROR_GUARD: u32 = DEFAULT_ERROR_GUARD;

/// The outcome `Ci` promises at the special inputs: `Ci(±0) = −∞` with
/// DIV_BY_ZERO, `Ci(+∞) = +0`, negative arguments give a quiet NaN with
/// INVALID, and a normal result at a normal argument is INEXACT.
pub open spec fn ci_special(x: BigFloat, r: BigFloat, st: Status, p: nat) -> bool {
    &&& (x.class is Nan ==> nan_result(r, st, x, p))
    &&& (x.class is Zero ==> r.class == (Class::Infinity { sign: Sign::Negative }) && st.bits == FLAG_DIV_BY_ZERO)
    &&& (x.class == (Class::Infinity { sign: Sign::Positive }) ==> r.class == (Class::Zero { sign: Sign::Positive }) && st.bits == 0)
    &&& ((x.class == (Class::Infinity { sign: Sign::Negative }) || (x.class is Normal && x.spec_neg()))
        ==> r.class is Nan && r.class->Nan_quiet && !r.spec_neg() && st.bits == FLAG_INVALID)
    &&& (x.class is Normal && r.class is Normal ==> has_inexact(st))
}

fn max_exp(a: i64, b: i64) -> (r: i64)
    ensures
        r == (if a >= b { a } else { b }),
{
    if a >= b { a } else { b }
}

/// One step of the `Ci` series: `t = −prev·x²·m/(d·d·e)` with the
/// integers `m = 2k − 2`, `d = 2k`, `e = 2k − 1` taken at `w` bits,
/// each operation rounded to nearest.
pub open spec fn ci_term_step(prev: BigFloat, xsq: BigFloat, m: i64, d: i64, e: i64, w: u32, t: BigFloat) -> bool {
    exists|mb: BigFloat, db: BigFloat, eb: BigFloat, t1: BigFloat, t2: BigFloat, t3: BigFloat, t4: BigFloat, t5: BigFloat|
        #![trigger call_ensures(int_at, (m, w), mb), call_ensures(int_at, (d, w), db), call_ensures(int_at, (e, w), eb), multiplied(prev, xsq, t1), multiplied(t1, mb, t2), divided(t2, db, t3), divided(t3, db, t4), divided(t4, eb, t5)]
        call_ensures(int_at, (m, w), mb) && call_ensures(int_at, (d, w), db) && call_ensures(int_at, (e, w), eb)
            && multiplied(prev, xsq, t1) && multiplied(t1, mb, t2) && divided(t2, db, t3) && divided(t3, db, t4)
            && divided(t4, eb, t5) && negation_of(t, t5)
}

/// How [`ci_series`] sums `Ci(x) = γ + ln x + Σ_{k≥1} (−1)^k x^{2k}/(2k·(2k)!)`
/// at a working precision `w`: `xw` is `x` rounded to nearest at `w`
/// bits, `l` what `ln` gives at `xw` and `g` what [`euler_gamma_at`]
/// gives at `w`; the partial sums start at `g + l` and add the terms
/// `t₁ = −xw²/4`, `t_k = −t_{k−1}·xw²·(2k−2)/(2k·2k·(2k−1))`, each step
/// rounded to nearest.
pub open spec fn ci_series_sum(x: BigFloat, s: BigFloat) -> bool {
    exists|w: u32, xw: BigFloat, xsq: BigFloat, l: BigFloat, ls: Status, g: BigFloat, a: BigFloat, four: BigFloat,
        q: BigFloat, terms: Seq<BigFloat>, accs: Seq<BigFloat>|
        #![trigger rounded_near(x, w as nat, xw), multiplied(xw, xw, xsq), call_ensures(BigFloat::ln, (&xw, RoundingMode::NearestEven), (l, ls)), call_ensures(euler_gamma_at, (w,), g), call_ensures(int_at, (4i64, w), four), divided(xsq, four, q), sum_chain(a, terms, accs)]
        prec_ok(w as nat) && rounded_near(x, w as nat, xw) && multiplied(xw, xw, xsq)
            && call_ensures(BigFloat::ln, (&xw, RoundingMode::NearestEven), (l, ls))
            && call_ensures(euler_gamma_at, (w,), g) && added(g, l, a)
            && call_ensures(int_at, (4i64, w), four) && divided(xsq, four, q)
            && sum_chain(a, terms, accs) && accs.last() == s
            && terms.len() >= 1 && negation_of(terms[0], q)
            && (forall|i: int| 1 <= i < terms.len() ==> ci_term_step(terms[i - 1], xsq, (2 * i) as i64, (2 * i + 2) as i64,
                (2 * i + 1) as i64, w, #[trigger] terms[i]))
}

/// `Ci(x)` by its convergent series, with the largest term exponent.
pub fn ci_series(x: &BigFloat, p: u32) -> (r: (BigFloat, i64))
    requires
        x.wf(),
        prec_ok(p as nat),
    ensures
        r.0.wf(),
        ci_series_sum(*x, r.0),
{
    let e_x = exponent_of(x);
    let w = series_working_precision(p, e_x, 1);
    let x_w = rne(x, w);
    let (x_sq, _) = x_w.mul(&x_w, RoundingMode::NearestEven);
    let (ln_x, ln_st) = x_w.ln(RoundingMode::NearestEven);
    let gamma = euler_gamma_at(w);
    let (mut acc, _) = gamma.add(&ln_x, RoundingMode::NearestEven);
    let ghost a0 = acc;
    proof {
        assert(added(gamma, ln_x, a0));
    }
    let mut max_term_exp = max_exp(value_exponent(&gamma), value_exponent(&ln_x));
    let four = int_at(4, w);
    let (t0, _) = x_sq.div(&four, RoundingMode::NearestEven);
    let mut term = t0.negated();
    max_term_exp = max_exp(max_term_exp, value_exponent(&term));
    let (acc1, _) = acc.add(&term, RoundingMode::NearestEven);
    let ghost mut terms: Seq<BigFloat> = seq![term];
    let ghost mut accs: Seq<BigFloat> = seq![acc, acc1];
    proof {
        assert(added(acc, term, acc1));
        assert(negation_of(term, t0));
        assert(sum_chain(a0, terms, accs)) by {
            assert(terms[0] == term);
        }
    }
    acc = acc1;
    let min_terms = series_min_terms(e_x);
    let max_iter: u64 = 0x40_0000;
    let mut k: u64 = 2;
    while k <= max_iter
        invariant_except_break
            terms.len() == k - 1,
        invariant
            prec_ok(w as nat),
            x_sq.wf(),
            term.wf(),
            acc.wf(),
            2 <= k,
            max_iter == 0x40_0000,
            terms.len() >= 1,
            terms.len() <= k,
            sum_chain(a0, terms, accs),
            accs.last() == acc,
            terms.last() == term,
            negation_of(terms[0], t0),
            forall|i: int| 1 <= i < terms.len() ==> ci_term_step(terms[i - 1], x_sq, (2 * i) as i64, (2 * i + 2) as i64,
                (2 * i + 1) as i64, w, #[trigger] terms[i]),
        decreases max_iter + 1 - k,
    {
        let num = int_at((2 * k - 2) as i64, w);
        let d1 = int_at((2 * k) as i64, w);
        let d3 = int_at((2 * k - 1) as i64, w);
        let (t1, _) = term.mul(&x_sq, RoundingMode::NearestEven);
        let (t2, _) = t1.mul(&num, RoundingMode::NearestEven);
        let (t3, _) = t2.div(&d1, RoundingMode::NearestEven);
        let (t4, _) = t3.div(&d1, RoundingMode::NearestEven);
        let (t5, _) = t4.div(&d3, RoundingMode::NearestEven);
        let ghost old_terms = terms;
        let ghost old_accs = accs;
        term = t5.negated();
        proof {
            assert(multiplied(terms.last(), x_sq, t1));
            assert(multiplied(t1, num, t2));
            assert(divided(t2, d1, t3));
            assert(divided(t3, d1, t4));
            assert(divided(t4, d3, t5));
            assert(negation_of(term, t5));
            let i = terms.len() as int;
            assert((2 * i) as i64 == (2 * k - 2) as i64 && (2 * i + 2) as i64 == (2 * k) as i64 && (2 * i + 1) as i64 == (2 * k - 1) as i64);
            assert(ci_term_step(terms[i - 1], x_sq, (2 * i) as i64, (2 * i + 2) as i64, (2 * i + 1) as i64, w, term));
        }
        max_term_exp = max_exp(max_term_exp, value_exponent(&term));
        let (acc_next, _) = acc.add(&term, RoundingMode::NearestEven);
        proof {
            assert(added(acc, term, acc_next));
            terms = terms.push(term);
            accs = accs.push(acc_next);
            assert forall|i: int| 0 <= i < terms.len() implies added(accs[i], #[trigger] terms[i], accs[i + 1]) by {
                if i < old_terms.len() {
                    assert(terms[i] == old_terms[i]);
                    assert(accs[i] == old_accs[i] && accs[i + 1] == old_accs[i + 1]);
                }
            }
            assert forall|i: int| 1 <= i < terms.len() implies ci_term_step(terms[i - 1], x_sq, (2 * i) as i64, (2 * i + 2) as i64,
                (2 * i + 1) as i64, w, #[trigger] terms[i]) by {
                if i < old_terms.len() {
                    assert(terms[i] == old_terms[i] && terms[i - 1] == old_terms[i - 1]);
                }
            }
        }
        acc = acc_next;
        if k > min_terms {
            let small = below_floor(&term, &acc, w);
            if small {
                break;
            }
        }
        k = k + 1;
    }
    proof {
        assert(rounded_near(*x, w as nat, x_w));
        assert(multiplied(x_w, x_w, x_sq));
        assert(call_ensures(BigFloat::ln, (&x_w, RoundingMode::NearestEven), (ln_x, ln_st)));
        assert(call_ensures(euler_gamma_at, (w,), gamma));
        assert(added(gamma, ln_x, a0));
        assert(call_ensures(int_at, (4i64, w), four));
        assert(divided(x_sq, four, t0));
    }
    (acc, max_term_exp)
}

/// `Ci(x) = f·sin x − g·cos x` past the asymptotic threshold, with the
/// larger exponent of the two products and the exponent of the
/// truncation floor.
/// How [`ci_asymptotic`] evaluates `Ci(x) = f(x)·sin x − g(x)·cos x`
/// at `w = p + 64` bits: `xw` is `x` rounded to nearest, `f`, `g` what
/// [`si_ci_f`] and [`si_ci_g`] give at `xw`, `sin` and `cos` what those
/// functions give; each operation rounded to nearest.
pub open spec fn ci_asymptotic_form(x: BigFloat, p: u32, s: BigFloat) -> bool {
    exists|w: u32, xw: BigFloat, f: BigFloat, fe: i64, g: BigFloat, ge: i64, c: BigFloat, cs: Status, sn: BigFloat, ss: Status,
        fs: BigFloat, gc: BigFloat|
        #![trigger rounded_near(x, w as nat, xw), call_ensures(si_ci_f, (&xw, w), (f, fe)), call_ensures(si_ci_g, (&xw, w), (g, ge)), call_ensures(BigFloat::cos, (&xw, RoundingMode::NearestEven), (c, cs)), call_ensures(BigFloat::sin, (&xw, RoundingMode::NearestEven), (sn, ss)), multiplied(f, sn, fs), multiplied(g, c, gc)]
        w == super::prec_clamp(p + 64) && rounded_near(x, w as nat, xw)
            && call_ensures(si_ci_f, (&xw, w), (f, fe)) && call_ensures(si_ci_g, (&xw, w), (g, ge))
            && call_ensures(BigFloat::cos, (&xw, RoundingMode::NearestEven), (c, cs))
            && call_ensures(BigFloat::sin, (&xw, RoundingMode::NearestEven), (sn, ss))
            && multiplied(f, sn, fs) && multiplied(g, c, gc) && super::subtracted(fs, gc, s)
}

pub fn ci_asymptotic(x: &BigFloat, p: u32) -> (r: (BigFloat, i64, i64))
    requires
        x.wf(),
        prec_ok(p as nat),
    ensures
        r.0.wf(),
        ci_asymptotic_form(*x, p, r.0),
{
    let w = wadd(p, 64);
    let x_w = rne(x, w);
    let (f, floor_f) = si_ci_f(&x_w, w);
    let (g, floor_g) = si_ci_g(&x_w, w);
    let (cos_x, cs) = x_w.cos(RoundingMode::NearestEven);
    let (sin_x, ss) = x_w.sin(RoundingMode::NearestEven);
    let (f_sin, _) = f.mul(&sin_x, RoundingMode::NearestEven);
    let (g_cos, _) = g.mul(&cos_x, RoundingMode::NearestEven);
    let (result, _) = f_sin.sub(&g_cos, RoundingMode::NearestEven);
    proof {
        assert(rounded_near(*x, w as nat, x_w));
        assert(call_ensures(si_ci_f, (&x_w, w), (f, floor_f)));
        assert(call_ensures(si_ci_g, (&x_w, w), (g, floor_g)));
        assert(call_ensures(BigFloat::cos, (&x_w, RoundingMode::NearestEven), (cos_x, cs)));
        assert(call_ensures(BigFloat::sin, (&x_w, RoundingMode::NearestEven), (sin_x, ss)));
        assert(multiplied(f, sin_x, f_sin));
        assert(multiplied(g, cos_x, g_cos));
        assert(super::subtracted(f_sin, g_cos, result));
    }
    let op_scale = max_exp(value_exponent(&f_sin), value_exponent(&g_cos));
    let a: i128 = floor_f as i128 + value_exponent(&sin_x) as i128;
    let b: i128 = floor_g as i128 + value_exponent(&cos_x) as i128;
    let m: i128 = if a >= b { a } else { b };
    let floor_exp: i64 = if m > i64::MAX as i128 { i64::MAX } else if m < i64::MIN as i128 { i64::MIN } else { m as i64 };
    (result, op_scale, floor_exp)
}

/// Whether the asymptotic expansion's truncation floor lies below the
/// target bits of its value: `floor < exponent − target − guard`.
fn ci_asymptotic_reliable(x: &BigFloat, target: u32) -> (r: bool)
    requires
        x.wf(),
        prec_ok(target as nat),
{
    let (v, _, floor) = ci_asymptotic(x, target);
    v.is_normal() && (floor as i128) < (exponent_of(&v) as i128) - (target as i128) - (CI_ERROR_GUARD as i128)
}

/// `Ci(x)` at working precision `w`: the asymptotic expansion where
/// `use_asymptotic`, the series otherwise, each re-evaluated wider while
/// it cancels.
pub fn ci_at_w(x: &BigFloat, use_asymptotic: bool, w: u32) -> (y: BigFloat)
    requires
        x.wf(),
        prec_ok(w as nat),
    ensures
        y.wf(),
        !use_asymptotic ==> ci_series_sum(*x, y),
        use_asymptotic ==> exists|ww: u32| #[trigger] ci_asymptotic_form(*x, ww, y),
{
    if use_asymptotic {
        let inner = |ww: u32| -> (v: (BigFloat, i64))
            requires
                prec_ok(ww as nat),
            ensures
                v.0.wf(),
                ci_asymptotic_form(*x, ww, v.0),
        {
            let (v, op_scale, _) = ci_asymptotic(x, ww);
            (v, op_scale)
        };
        cancellation_boosted(w, inner)
    } else {
        let inner = |ww: u32| -> (v: (BigFloat, i64))
            requires
                prec_ok(ww as nat),
            ensures
                v.0.wf(),
                ci_series_sum(*x, v.0),
        {
            ci_series(x, ww)
        };
        cancellation_boosted(w, inner)
    }
}

/// What `Ci` gives at a positive normal argument: the value [`ci_at_w`]
/// computes at a working precision of the Ziv schedule, rounded to `p`
/// bits under `mode`; the asymptotic expansion is taken only from
/// `x ≥ 2^e` on, `e` the threshold of [`is_asymptotic_threshold`].
pub open spec fn ci_value(x: BigFloat, r: BigFloat, st: Status, p: nat, mode: RoundingMode) -> bool {
    x.class is Normal && !x.spec_neg()
        ==> exists|w: u32, y: BigFloat, s0: Status, ua: bool| #![trigger call_ensures(ci_at_w, (&x, ua, w), y), rounds_to(y, p, mode, r, s0)]
            call_ensures(ci_at_w, (&x, ua, w), y)
                && (ua ==> exists|e: i64| #[trigger] is_asymptotic_threshold(p as u32, e) && x.class->Normal_exponent >= e) && ziv_on_schedule(w as int, p as int) && rounds_to(y, p, mode, r, s0)
}

fn ci_kernel(x: &BigFloat, target: u32, mode: RoundingMode) -> (r: (BigFloat, Status))
    requires
        x.wf(),
        prec_ok(target as nat),
    ensures
        r.0.wf(),
        r.0.precision == target,
        ci_special(*x, r.0, r.1, target as nat),
        ci_value(*x, r.0, r.1, target as nat, mode),
{
    match &x.class {
        Class::Nan { .. } => return nan_in(x, target),
        Class::Zero { .. } => return (inf_at(Sign::Negative, target), Status { bits: FLAG_DIV_BY_ZERO }),
        Class::Infinity { sign: Sign::Negative } => return (qnan_at(target), Status { bits: FLAG_INVALID }),
        Class::Infinity { sign: Sign::Positive } => return (zero_at(Sign::Positive, target), Status { bits: 0 }),
        Class::Normal { sign: Sign::Negative, .. } => return (qnan_at(target), Status { bits: FLAG_INVALID }),
        Class::Normal { .. } => {},
    }
    let threshold = asymptotic_threshold_exponent(target);
    let use_asymptotic = exponent_of(x) >= threshold && ci_asymptotic_reliable(x, target);
    let eval = |w: u32| -> (y: BigFloat)
        requires
            prec_ok(w as nat),
        ensures
            y.wf(),
            call_ensures(ci_at_w, (x, use_asymptotic, w), y),
    {
        ci_at_w(x, use_asymptotic, w)
    };
    let (result, status) = ziv_round(eval, target, mode, CI_ERROR_GUARD);
    proof {
        let t = choose|t: ZivTrace| t.0 == result && t.1 == status && #[trigger] is_trace_of(eval, target as nat, mode, t)
            && ziv_on_schedule(t.2 as int, target as int);
        assert(call_ensures(ci_at_w, (x, use_asymptotic, t.2), t.3));
        assert(rounds_to(t.3, target as nat, mode, result, status));
        assert(is_asymptotic_threshold((target as nat) as u32, threshold));
        assert(use_asymptotic ==> exists|e: i64| #[trigger] is_asymptotic_threshold((target as nat) as u32, e) && x.class->Normal_exponent >= e);
    }
    let st = force_inexact(&result, status);
    proof {
        crate::types::lemma_or_inexact(status.bits);
    }
    (result, st)
}

impl BigFloat {
    /// `Ci(self)` rounded under `mode` to the precision of
    /// `self`.
    pub fn ci(&self, mode: RoundingMode) -> (r: (BigFloat, Status))
        requires
            self.wf(),
        ensures
            r.0.wf(),
            r.0.precision == self.precision,
            ci_special(*self, r.0, r.1, self.precision as nat),
            ci_value(*self, r.0, r.1, self.precision as nat, mode),
    {
        ci_kernel(self, self.precision, mode)
    }

    /// `Ci(self)` rounded under `mode` to `target_precision`
    /// bits.
    pub fn ci_round(&self, target_precision: u32, mode: RoundingMode) -> (r: Result<(BigFloat, Status), BuildError>)
        requires
            self.wf(),
        ensures
            r is Ok <==> prec_ok(target_precision as nat),
            target_precision == 0 ==> r == Err::<(BigFloat, Status), BuildError>(BuildError::PrecisionZero),
            r matches Ok(v) ==> v.0.wf() && v.0.precision == target_precision
                && ci_special(*self, v.0, v.1, target_precision as nat)
                && ci_value(*self, v.0, v.1, target_precision as nat, mode),
    {
        BigFloat::check_precision(target_precision)?;
        Ok(ci_kernel(self, target_precision, mode))
    }
}

impl<const PREC: u32> FixedFloat<PREC> {
    /// `Ci(self)` at the fixed precision.
    pub fn ci(&self, mode: RoundingMode) -> (r: (FixedFloat<PREC>, Status))
        requires
            self.wf(),
        ensures
            r.0.wf(),
            ci_special(self.value(), r.0.value(), r.1, PREC as nat),
            ci_value(self.value(), r.0.value(), r.1, PREC as nat, mode),
            call_ensures(BigFloat::ci, (&self.value(), mode), (r.0.value(), r.1)),
    {
        let (big, st) = self.big_ref().ci(mode);
        (FixedFloat::wrap(big), st)
    }
}

} // verus!

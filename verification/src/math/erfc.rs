//! `erfc(x) = 1 − erf(x)`: `1 − erf` from the Maclaurin series at a
//! raised working precision for small `|x|`, the asymptotic expansion
//! `e^(−x²)/(x√π)·Σ (−1)^k (2k−1)!!/(2x²)^k` past a threshold, and
//! `2 − erfc(|x|)` for negative `x`; rounded through the
//! Ziv driver.

use vstd::prelude::*;
use crate::types::{BigFloat, BuildError, Class, Sign, RoundingMode, Status, prec_ok};
use crate::float::{finite_value_is, nan_result};
use crate::fixed::FixedFloat;
use super::{wadd, int_at, one_at, rne, zero_at, exponent_of, nan_in, two_over_sqrt_pi_at};
use super::erf::{asymptotic_threshold_exponent, erf_maclaurin};
use super::{rounds_to, multiplied, divided, rounded_near, sum_chain};
use crate::arith::negation_of;
use crate::float::same;
use super::ziv::{ziv_round, DEFAULT_ERROR_GUARD, ZivTrace, is_trace_of, ziv_on_schedule};

verus! {

/// Guard bits charged to one evaluation of the erfc kernel.
pub const ERFC_ERROR_GUARD: u32 = DEFAULT_ERROR_GUARD;

/// The outcome `erfc` promises at the special inputs.
pub open spec fn erfc_special(x: BigFloat, r: BigFloat, st: Status, p: nat) -> bool {
    &&& (x.class is Nan ==> nan_result(r, st, x, p))
    &&& (x.class is Zero ==> finite_value_is(r, 1, 0) && !r.spec_neg() && st.bits == 0)
    &&& (x.class == (Class::Infinity { sign: Sign::Positive }) ==> r.class == (Class::Zero { sign: Sign::Positive }) && st.bits == 0)
    &&& (x.class == (Class::Infinity { sign: Sign::Negative }) ==> finite_value_is(r, 2, 0) && st.bits == 0)
}

/// One step of the asymptotic series of `erfc`: `m = prev·(f·t)` with
/// the odd integer `f = 2k − 1` taken at `w` bits, each product rounded
/// to nearest.
pub open spec fn erfc_term_step(prev: BigFloat, t: BigFloat, f: i64, w: u32, m: BigFloat) -> bool {
    exists|fb: BigFloat, step: BigFloat|
        #![trigger call_ensures(int_at, (f, w), fb), multiplied(fb, t, step)]
        call_ensures(int_at, (f, w), fb) && multiplied(fb, t, step) && multiplied(prev, step, m)
}

/// `t` is `m`, negated where `neg`.
pub open spec fn signed_as(t: BigFloat, m: BigFloat, neg: bool) -> bool {
    if neg { negation_of(t, m) } else { same(t, m) }
}

/// The magnitudes follow the steps of the series.
#[verifier::opaque]
pub open spec fn erfc_mags(mags: Seq<BigFloat>, t: BigFloat, w: u32) -> bool {
    forall|i: int| 1 <= i < mags.len() ==> erfc_term_step(mags[i - 1], t, (2 * i - 1) as i64, w, #[trigger] mags[i])
}

/// The terms are the magnitudes with alternating signs, the first
/// negative.
#[verifier::opaque]
pub open spec fn erfc_signs(terms: Seq<BigFloat>, mags: Seq<BigFloat>) -> bool {
    forall|i: int| 0 <= i < terms.len() ==> signed_as(#[trigger] terms[i], mags[i + 1], i % 2 == 0)
}

proof fn lemma_erfc_push(mags: Seq<BigFloat>, terms: Seq<BigFloat>, t: BigFloat, w: u32, m: BigFloat, tm: BigFloat, neg: bool)
    requires
        mags.len() == terms.len() + 1,
        erfc_mags(mags, t, w),
        erfc_signs(terms, mags),
        erfc_term_step(mags.last(), t, (2 * mags.len() - 1) as i64, w, m),
        signed_as(tm, m, neg),
        neg == (terms.len() % 2 == 0),
    ensures
        erfc_mags(mags.push(m), t, w),
        erfc_signs(terms.push(tm), mags.push(m)),
{
    reveal(erfc_mags);
    reveal(erfc_signs);
    let mags2 = mags.push(m);
    let terms2 = terms.push(tm);
    assert forall|i: int| 1 <= i < mags2.len() implies erfc_term_step(mags2[i - 1], t, (2 * i - 1) as i64, w, #[trigger] mags2[i]) by {
        if i < mags.len() {
            assert(mags2[i] == mags[i] && mags2[i - 1] == mags[i - 1]);
        }
    }
    assert forall|i: int| 0 <= i < terms2.len() implies signed_as(#[trigger] terms2[i], mags2[i + 1], i % 2 == 0) by {
        if i < terms.len() {
            assert(terms2[i] == terms[i] && mags2[i + 1] == mags[i + 1]);
        }
    }
}

/// How [`erfc_asymptotic`] evaluates
/// `erfc(x) = e^(−x²)/(x√π)·Σ_k (−1)^k (2k−1)!!/(2x²)^k` at `w` bits:
/// `xw` is `x` rounded to nearest, `v = e^(−xw²)` what `exp` gives, `c`
/// what [`two_over_sqrt_pi_at`] gives (`2/√π`), the leading factor
/// `c/(2·xw)`, the envelope `v·c/(2·xw)`, `t = 1/(2·xw²)`; the sum
/// starts at one and adds the magnitudes `m₁ = t`, `m_k = m_{k−1}·(2k−1)·t`
/// with alternating signs, the first negative; the result is the
/// envelope times the sum; each operation rounded to nearest.
pub open spec fn erfc_asymptotic_form(x: BigFloat, w: u32, s: BigFloat) -> bool {
    exists|xw: BigFloat, xsq: BigFloat, nxsq: BigFloat, v: BigFloat, vs: Status, c: BigFloat, two: BigFloat,
        two_x: BigFloat, leading: BigFloat, envelope: BigFloat, two_x_sq: BigFloat, one: BigFloat, t: BigFloat,
        mags: Seq<BigFloat>, terms: Seq<BigFloat>, accs: Seq<BigFloat>|
        #![trigger rounded_near(x, w as nat, xw), multiplied(xw, xw, xsq), negation_of(nxsq, xsq), call_ensures(BigFloat::exp, (&nxsq, RoundingMode::NearestEven), (v, vs)), call_ensures(two_over_sqrt_pi_at, (w,), c), call_ensures(int_at, (2i64, w), two), multiplied(two, xw, two_x), divided(c, two_x, leading), multiplied(v, leading, envelope), multiplied(two, xsq, two_x_sq), call_ensures(one_at, (w,), one), divided(one, two_x_sq, t), sum_chain(one, terms, accs), mags.len()]
        rounded_near(x, w as nat, xw) && multiplied(xw, xw, xsq) && negation_of(nxsq, xsq)
            && call_ensures(BigFloat::exp, (&nxsq, RoundingMode::NearestEven), (v, vs))
            && call_ensures(two_over_sqrt_pi_at, (w,), c) && call_ensures(int_at, (2i64, w), two)
            && multiplied(two, xw, two_x) && divided(c, two_x, leading) && multiplied(v, leading, envelope)
            && multiplied(two, xsq, two_x_sq) && call_ensures(one_at, (w,), one) && divided(one, two_x_sq, t)
            && mags.len() == terms.len() + 1 && same(mags[0], one)
            && erfc_mags(mags, t, w) && erfc_signs(terms, mags)
            && sum_chain(one, terms, accs) && multiplied(envelope, accs.last(), s)
}

/// `erfc(x)` for a positive `x` past the asymptotic threshold, at
/// working precision `w`; the series stops at its smallest term.
#[verifier::rlimit(80)]
#[verifier::spinoff_prover]
pub fn erfc_asymptotic(x: &BigFloat, w: u32) -> (s: BigFloat)
    requires
        x.wf(),
        prec_ok(w as nat),
    ensures
        s.wf(),
        erfc_asymptotic_form(*x, w, s),
{
    let x_w = rne(x, w);
    let (x_sq, _) = x_w.mul(&x_w, RoundingMode::NearestEven);
    let neg_x_sq = x_sq.negated();
    let (exp_neg_x_sq, ev_st) = neg_x_sq.exp(RoundingMode::NearestEven);
    let coef = two_over_sqrt_pi_at(w);
    let two = int_at(2, w);
    let (two_x, _) = two.mul(&x_w, RoundingMode::NearestEven);
    let (leading, _) = coef.div(&two_x, RoundingMode::NearestEven);
    let (envelope, _) = exp_neg_x_sq.mul(&leading, RoundingMode::NearestEven);
    let (two_x_sq, _) = two.mul(&x_sq, RoundingMode::NearestEven);
    let one = one_at(w);
    let (t, _) = one.div(&two_x_sq, RoundingMode::NearestEven);
    let ghost one0 = one;
    let mut term = one.dup();
    let mut sum = one;
    let ghost mut mags: Seq<BigFloat> = seq![term];
    let ghost mut terms: Seq<BigFloat> = Seq::empty();
    let ghost mut accs: Seq<BigFloat> = seq![sum];
    let mut prev_exp: i64 = 1;
    let mut negative = true;
    let max_iter: u64 = if 2 * (w as u64) > 256 { 2 * (w as u64) } else { 256 };
    let floor_exp: i64 = -(w as i64) - 1;
    let limit: i64 = -(w as i64) - 4;
    let mut k: u64 = 1;
    proof {
        assert(sum_chain(one0, terms, accs));
        reveal(erfc_mags);
        reveal(erfc_signs);
    }
    while k <= max_iter
        invariant_except_break
            terms.len() == k - 1,
        invariant
            prec_ok(w as nat),
            t.wf(),
            term.wf(),
            sum.wf(),
            max_iter <= 0x200_0000,
            1 <= k,
            terms.len() <= k,
            mags.len() == terms.len() + 1,
            same(mags[0], one0),
            mags.last() == term,
            erfc_mags(mags, t, w),
            erfc_signs(terms, mags),
            negative == (terms.len() % 2 == 0),
            sum_chain(one0, terms, accs),
            accs.last() == sum,
        decreases max_iter + 1 - k,
    {
        let factor = int_at((2 * k - 1) as i64, w);
        let (step, _) = factor.mul(&t, RoundingMode::NearestEven);
        let (next_term, _) = term.mul(&step, RoundingMode::NearestEven);
        let next_exp: i64 = if next_term.is_normal() { exponent_of(&next_term) } else { floor_exp };
        if next_exp >= prev_exp {
            break;
        }
        prev_exp = next_exp;
        let signed = if negative { next_term.negated() } else { next_term.dup() };
        proof {
            let i = mags.len() as int;
            assert((2 * i - 1) as i64 == (2 * k - 1) as i64);
            assert(multiplied(factor, t, step));
            assert(multiplied(mags.last(), step, next_term));
            assert(erfc_term_step(mags.last(), t, (2 * i - 1) as i64, w, next_term));
            assert(signed_as(signed, next_term, negative));
        }
        negative = !negative;
        term = next_term;
        let (next_sum, _) = sum.add(&signed, RoundingMode::NearestEven);
        proof {
            assert(crate::math::added(sum, signed, next_sum));
            lemma_erfc_push(mags, terms, t, w, next_term, signed, !negative);
            crate::math::lemma_sum_chain_push(one0, terms, accs, signed, next_sum);
            mags = mags.push(next_term);
            terms = terms.push(signed);
            accs = accs.push(next_sum);
        }
        sum = next_sum;
        if next_exp < limit {
            break;
        }
        k = k + 1;
    }
    let (r, _) = envelope.mul(&sum, RoundingMode::NearestEven);
    proof {
        assert(rounded_near(*x, w as nat, x_w));
        assert(multiplied(x_w, x_w, x_sq));
        assert(negation_of(neg_x_sq, x_sq));
        assert(call_ensures(BigFloat::exp, (&neg_x_sq, RoundingMode::NearestEven), (exp_neg_x_sq, ev_st)));
        assert(call_ensures(two_over_sqrt_pi_at, (w,), coef));
        assert(call_ensures(int_at, (2i64, w), two));
        assert(multiplied(two, x_w, two_x));
        assert(divided(coef, two_x, leading));
        assert(multiplied(exp_neg_x_sq, leading, envelope));
        assert(multiplied(two, x_sq, two_x_sq));
        assert(call_ensures(one_at, (w,), one0));
        assert(divided(one0, two_x_sq, t));
        assert(multiplied(envelope, accs.last(), r));
    }
    r
}

/// `erfc(x)` at working precision `w`: `erfc(|x|)` (by the asymptotic
/// expansion where `use_asymptotic`), and `2 − erfc(|x|)` for `x < 0`.
pub fn erfc_signed_at_w(x: &BigFloat, use_asymptotic: bool, w: u32) -> (y: BigFloat)
    requires
        x.wf(),
        prec_ok(w as nat),
    ensures
        y.wf(),
        exists|ax: BigFloat, v: BigFloat| #![trigger call_ensures(BigFloat::abs, (x,), ax), call_ensures(erfc_at_w, (&ax, w, use_asymptotic), v)]
            call_ensures(BigFloat::abs, (x,), ax) && call_ensures(erfc_at_w, (&ax, w, use_asymptotic), v)
                && (if x.spec_neg() {
                    exists|two: BigFloat| #[trigger] call_ensures(int_at, (2i64, w), two) && super::subtracted(two, v, y)
                } else {
                    y == v
                }),
{
    let abs_x = x.abs();
    let v = erfc_at_w(&abs_x, w, use_asymptotic);
    proof {
        assert(call_ensures(BigFloat::abs, (x,), abs_x));
        assert(call_ensures(erfc_at_w, (&abs_x, w, use_asymptotic), v));
    }
    if x.is_sign_negative() {
        let two = int_at(2, w);
        let (r, _) = two.sub(&v, RoundingMode::NearestEven);
        proof {
            assert(call_ensures(int_at, (2i64, w), two));
            assert(super::subtracted(two, v, r));
        }
        r
    } else {
        v
    }
}

/// `erfc(|x|)` at working precision `w`.
pub fn erfc_at_w(abs_x: &BigFloat, w: u32, use_asymptotic: bool) -> (s: BigFloat)
    requires
        abs_x.wf(),
        prec_ok(w as nat),
    ensures
        s.wf(),
        use_asymptotic ==> erfc_asymptotic_form(*abs_x, w, s),
        !use_asymptotic ==> exists|iw: u32, ev: BigFloat, one: BigFloat|
            #![trigger call_ensures(erf_maclaurin, (abs_x, iw), ev), call_ensures(one_at, (iw,), one)]
            iw == super::prec_clamp(w + 128) && call_ensures(erf_maclaurin, (abs_x, iw), ev)
                && call_ensures(one_at, (iw,), one) && super::subtracted(one, ev, s),
{
    if use_asymptotic {
        erfc_asymptotic(abs_x, w)
    } else {
        let inner_w = wadd(w, 128);
        let erf_val = erf_maclaurin(abs_x, inner_w);
        let one = one_at(inner_w);
        let (v, _) = one.sub(&erf_val, RoundingMode::NearestEven);
        proof {
            assert(call_ensures(erf_maclaurin, (abs_x, inner_w), erf_val));
            assert(call_ensures(one_at, (inner_w,), one));
            assert(super::subtracted(one, erf_val, v));
        }
        v
    }
}

/// What `erfc` gives at a normal argument: the value
/// [`erfc_signed_at_w`] computes at a working precision of the Ziv
/// schedule, rounded to `p` bits under `mode`; the asymptotic expansion
/// or the series, as the threshold of [`asymptotic_threshold_exponent`]
/// at `p` picks.
pub open spec fn erfc_value(x: BigFloat, r: BigFloat, st: Status, p: nat, mode: RoundingMode) -> bool {
    x.class is Normal
        ==> exists|w: u32, y: BigFloat, s0: Status, ua: bool|
            #![trigger call_ensures(erfc_signed_at_w, (&x, ua, w), y), rounds_to(y, p, mode, r, s0)]
            call_ensures(erfc_signed_at_w, (&x, ua, w), y)
                && ziv_on_schedule(w as int, p as int) && rounds_to(y, p, mode, r, s0)
}

fn erfc_kernel(x: &BigFloat, target: u32, mode: RoundingMode) -> (r: (BigFloat, Status))
    requires
        x.wf(),
        prec_ok(target as nat),
    ensures
        r.0.wf(),
        r.0.precision == target,
        erfc_special(*x, r.0, r.1, target as nat),
        erfc_value(*x, r.0, r.1, target as nat, mode),
{
    match &x.class {
        Class::Nan { .. } => return nan_in(x, target),
        Class::Zero { .. } => return (one_at(target), Status { bits: 0 }),
        Class::Infinity { sign: Sign::Positive } => return (zero_at(Sign::Positive, target), Status { bits: 0 }),
        Class::Infinity { sign: Sign::Negative } => return (super::int_at_exact_two(target), Status { bits: 0 }),
        Class::Normal { .. } => {},
    }
    let threshold = asymptotic_threshold_exponent(target);
    let use_asymptotic = exponent_of(x) >= threshold;
    let eval = |w: u32| -> (y: BigFloat)
        requires
            prec_ok(w as nat),
        ensures
            y.wf(),
            call_ensures(erfc_signed_at_w, (x, use_asymptotic, w), y),
    {
        erfc_signed_at_w(x, use_asymptotic, w)
    };
    let (result, status) = ziv_round(eval, target, mode, ERFC_ERROR_GUARD);
    proof {
        let t = choose|t: ZivTrace| t.0 == result && t.1 == status && #[trigger] is_trace_of(eval, target as nat, mode, t)
            && ziv_on_schedule(t.2 as int, target as int);
        assert(call_ensures(erfc_signed_at_w, (x, use_asymptotic, t.2), t.3));
        assert(rounds_to(t.3, target as nat, mode, result, status));
    }
    (result, status)
}

impl BigFloat {
    /// `erfc(self)` rounded under `mode` to the precision of
    /// `self`.
    pub fn erfc(&self, mode: RoundingMode) -> (r: (BigFloat, Status))
        requires
            self.wf(),
        ensures
            r.0.wf(),
            r.0.precision == self.precision,
            erfc_special(*self, r.0, r.1, self.precision as nat),
            erfc_value(*self, r.0, r.1, self.precision as nat, mode),
    {
        erfc_kernel(self, self.precision, mode)
    }

    /// `erfc(self)` rounded under `mode` to
    /// `target_precision` bits.
    pub fn erfc_round(&self, target_precision: u32, mode: RoundingMode) -> (r: Result<(BigFloat, Status), BuildError>)
        requires
            self.wf(),
        ensures
            r is Ok <==> prec_ok(target_precision as nat),
            target_precision == 0 ==> r == Err::<(BigFloat, Status), BuildError>(BuildError::PrecisionZero),
            r matches Ok(v) ==> v.0.wf() && v.0.precision == target_precision
                && erfc_special(*self, v.0, v.1, target_precision as nat)
                && erfc_value(*self, v.0, v.1, target_precision as nat, mode),
    {
        BigFloat::check_precision(target_precision)?;
        Ok(erfc_kernel(self, target_precision, mode))
    }
}

impl<const PREC: u32> FixedFloat<PREC> {
    /// `erfc(self)` at the fixed precision.
    pub fn erfc(&self, mode: RoundingMode) -> (r: (FixedFloat<PREC>, Status))
        requires
            self.wf(),
        ensures
            r.0.wf(),
            erfc_special(self.value(), r.0.value(), r.1, PREC as nat),
            erfc_value(self.value(), r.0.value(), r.1, PREC as nat, mode),
            call_ensures(BigFloat::erfc, (&self.value(), mode), (r.0.value(), r.1)),
    {
        let (big, st) = self.big_ref().erfc(mode);
        (FixedFloat::wrap(big), st)
    }
}

} // verus!

//! `Si(x) = ∫₀ˣ sin t/t dt`: the series `Σ (−1)^k x^(2k+1)/((2k+1)·(2k+1)!)`
//! at a working precision raised for the terms' growth, or
//! `π/2 − f(x)·cos x − g(x)·sin x` from the auxiliary asymptotic series
//! past a threshold; odd in `x`, rounded through the Ziv
//! driver.

use vstd::prelude::*;
use crate::types::{BigFloat, BuildError, Class, Sign, RoundingMode, Status, prec_ok};
use crate::float::nan_result;
use crate::fixed::FixedFloat;
use super::{wadd, int_at, one_at, rne, zero_at, exponent_of, nan_in, pi_over_2_at, signed_pi_over_2_round, round_with_infinitesimal, force_inexact};
use super::exp::has_inexact;
use super::ei::{asymptotic_threshold_exponent, acc_exponent, acc_exponent_spec, below_floor, term_magnitude, series_min_terms, series_working_precision};
use super::ziv::{ziv_round, DEFAULT_ERROR_GUARD, ZivTrace, is_trace_of, ziv_on_schedule};
use super::{rounds_to, added, multiplied, divided, subtracted, rounded_near, sum_chain};
use super::ei::tail_of;
use crate::arith::negation_of;
use crate::float::same;
use super::ei::is_asymptotic_threshold;

verus! {

/// Guard bits charged to one evaluation of the Si kernel.
pub const SI_ERROR_GUARD: u32 = DEFAULT_ERROR_GUARD;

/// What `Si` gives at a tiny argument: `x` moved by an infinitesimal
/// toward zero (`Si x = x − x³/18 + …`), rounded under `mode`.
pub open spec fn si_tiny(x: BigFloat, r: BigFloat, st: Status, p: nat, mode: RoundingMode) -> bool {
    x.class is Normal && x.class->Normal_exponent <= -(p + 2) && -2 * x.class->Normal_exponent >= x.precision + 6
        ==> exists|st0: Status| super::nudged(x, true, p, mode, r, st0)
}

/// The outcome `Si` promises: NaNs propagate, signed zeros are kept,
/// `Si(±∞)` is `±π/2` rounded (its sign that of the infinity), and a
/// normal result at a normal argument is INEXACT.
pub open spec fn si_special(x: BigFloat, r: BigFloat, st: Status, p: nat) -> bool {
    &&& (x.class is Nan ==> nan_result(r, st, x, p))
    &&& (x.class is Zero ==> r.class == x.class && st.bits == 0)
    &&& (x.class is Infinity ==> r.spec_neg() == x.spec_neg())
    &&& (x.class is Normal && r.class is Normal ==> has_inexact(st))
}

/// What `Si` gives at `±∞`: `±π/2` from [`super::signed_pi_over_2_at_w`]
/// at a working precision of the Ziv schedule, rounded under `mode`.
pub open spec fn si_infinite(x: BigFloat, r: BigFloat, st: Status, p: nat, mode: RoundingMode) -> bool {
    x.class is Infinity ==> super::signed_pi_over_2_value(x.spec_neg(), r, st, p, mode)
}

/// `a − b` on exponents, saturating at the `i64` range.
pub fn exp_diff(a: i64, b: i64) -> (r: i64)
    ensures
        i64::MIN <= a - b <= i64::MAX ==> r == a - b,
{
    let d: i128 = a as i128 - b as i128;
    if d > i64::MAX as i128 {
        i64::MAX
    } else if d < i64::MIN as i128 {
        i64::MIN
    } else {
        d as i64
    }
}

/// Whether `term` no longer moves `sum` at `w` bits.
fn negligible(term: &BigFloat, sum: &BigFloat, w: u32) -> (r: bool)
    ensures
        r == (term.class is Zero || (term.class is Normal
            && term.class->Normal_exponent < acc_exponent_spec(sum) - w - 8)),
{
    if term.is_zero() {
        return true;
    }
    if !term.is_normal() {
        return false;
    }
    (exponent_of(term) as i128) < (acc_exponent(sum) as i128) - (w as i128) - 8
}

/// One of the auxiliary asymptotic series `Σ (−1)^k·(a_k)/x^(2k)` with
/// `a_k` the product of `(2j + first)(2j + first − 1)`, truncated at its
/// smallest term; the terms' shared denominator is left to the caller.
/// Returns the sum and the exponent of the smallest term.
/// One step of the auxiliary series of `f` and `g`:
/// `t = −prev·a·b/x²`, the integers `a`, `b` taken at `w` bits, each
/// operation rounded to nearest.
pub open spec fn aux_step(prev: BigFloat, xsq: BigFloat, a: i64, b: i64, w: u32, t: BigFloat) -> bool {
    exists|ab: BigFloat, bb: BigFloat, t1: BigFloat, t2: BigFloat, t3: BigFloat|
        #![trigger call_ensures(int_at, (a, w), ab), call_ensures(int_at, (b, w), bb), multiplied(prev, ab, t1), multiplied(t1, bb, t2), divided(t2, xsq, t3)]
        call_ensures(int_at, (a, w), ab) && call_ensures(int_at, (b, w), bb) && multiplied(prev, ab, t1)
            && multiplied(t1, bb, t2) && divided(t2, xsq, t3) && negation_of(t, t3)
}

/// The terms `ts[0] = 1`, `ts[k] = −ts[k−1]·(2k + first)·(2k + first − 1)/x²`.
#[verifier::opaque]
pub open spec fn aux_terms(ts: Seq<BigFloat>, xsq: BigFloat, w: u32, first: u64) -> bool {
    forall|i: int| 1 <= i < ts.len() ==> aux_step(ts[i - 1], xsq, (2 * i + first) as i64, (2 * i + first - 1) as i64, w, #[trigger] ts[i])
}

proof fn lemma_aux_push(ts: Seq<BigFloat>, terms: Seq<BigFloat>, xsq: BigFloat, w: u32, first: u64, t: BigFloat)
    requires
        aux_terms(ts, xsq, w, first),
        tail_of(terms, ts),
        aux_step(ts.last(), xsq, (2 * ts.len() + first) as i64, (2 * ts.len() + first - 1) as i64, w, t),
    ensures
        aux_terms(ts.push(t), xsq, w, first),
        tail_of(terms.push(t), ts.push(t)),
{
    reveal(aux_terms);
    reveal(tail_of);
    let ts2 = ts.push(t);
    let terms2 = terms.push(t);
    assert forall|i: int| 1 <= i < ts2.len() implies aux_step(ts2[i - 1], xsq, (2 * i + first) as i64, (2 * i + first - 1) as i64, w, #[trigger] ts2[i]) by {
        if i < ts.len() {
            assert(ts2[i] == ts[i] && ts2[i - 1] == ts[i - 1]);
        }
    }
    assert forall|i: int| 0 <= i < terms2.len() implies #[trigger] terms2[i] == ts2[i + 1] by {
        if i < terms.len() {
            assert(terms2[i] == terms[i] && ts2[i + 1] == ts[i + 1]);
        }
    }
}

/// How [`aux_series`] sums `Σ_k (−1)^k (2k + first)!/x^(2k)`: the sum
/// starts at one and adds `t_k = −t_{k−1}·(2k + first)·(2k + first − 1)/x²`,
/// `x²` rounded to nearest, each step rounded to nearest.
pub open spec fn aux_form(x: BigFloat, w: u32, first: u64, s: BigFloat) -> bool {
    exists|xsq: BigFloat, one: BigFloat, s0: BigFloat, ts: Seq<BigFloat>, terms: Seq<BigFloat>, accs: Seq<BigFloat>|
        #![trigger multiplied(x, x, xsq), call_ensures(one_at, (w,), one), aux_terms(ts, xsq, w, first), sum_chain(s0, terms, accs)]
        multiplied(x, x, xsq) && call_ensures(one_at, (w,), one) && same(s0, one) && ts.len() >= 1 && ts[0] == one
            && aux_terms(ts, xsq, w, first) && tail_of(terms, ts) && sum_chain(s0, terms, accs) && accs.last() == s
}

pub fn aux_series(x: &BigFloat, w: u32, first: u64) -> (r: (BigFloat, i64))
    requires
        x.wf(),
        prec_ok(w as nat),
        first == 0 || first == 1,
    ensures
        r.0.wf(),
        aux_form(*x, w, first, r.0),
{
    let (x_sq, _) = x.mul(x, RoundingMode::NearestEven);
    let mut term = one_at(w);
    let ghost one = term;
    let mut sum = term.dup();
    let ghost s0 = sum;
    let ghost mut ts: Seq<BigFloat> = seq![term];
    let ghost mut terms: Seq<BigFloat> = Seq::empty();
    let ghost mut accs: Seq<BigFloat> = seq![sum];
    proof {
        reveal(aux_terms);
        reveal(tail_of);
        assert(sum_chain(s0, terms, accs));
    }
    let mut prev_mag = term_magnitude(&term);
    let max_iter: u64 = 0x40_0000;
    let mut k: u64 = 1;
    while k <= max_iter
        invariant_except_break
            ts.len() == k,
        invariant
            prec_ok(w as nat),
            x_sq.wf(),
            term.wf(),
            sum.wf(),
            1 <= k,
            first == 0 || first == 1,
            max_iter == 0x40_0000,
            ts.len() >= 1,
            ts.len() <= k + 1,
            ts[0] == one,
            ts.last() == term,
            aux_terms(ts, x_sq, w, first),
            tail_of(terms, ts),
            sum_chain(s0, terms, accs),
            accs.last() == sum,
        decreases max_iter + 1 - k,
    {
        let a = int_at((2 * k + first) as i64, w);
        let b = int_at((2 * k + first - 1) as i64, w);
        let (t1, _) = term.mul(&a, RoundingMode::NearestEven);
        let (t2, _) = t1.mul(&b, RoundingMode::NearestEven);
        let (t3, _) = t2.div(&x_sq, RoundingMode::NearestEven);
        let cand = t3.negated();
        let mag = term_magnitude(&cand);
        if mag > prev_mag {
            break;
        }
        prev_mag = mag;
        proof {
            let i = ts.len() as int;
            assert((2 * i + first) as i64 == (2 * k + first) as i64 && (2 * i + first - 1) as i64 == (2 * k + first - 1) as i64);
            assert(multiplied(ts.last(), a, t1));
            assert(multiplied(t1, b, t2));
            assert(divided(t2, x_sq, t3));
            assert(negation_of(cand, t3));
            assert(aux_step(ts.last(), x_sq, (2 * i + first) as i64, (2 * i + first - 1) as i64, w, cand));
        }
        term = cand;
        let (sum_next, _) = sum.add(&term, RoundingMode::NearestEven);
        proof {
            assert(added(sum, term, sum_next));
            lemma_aux_push(ts, terms, x_sq, w, first, term);
            super::lemma_sum_chain_push(s0, terms, accs, term, sum_next);
            ts = ts.push(term);
            terms = terms.push(term);
            accs = accs.push(sum_next);
        }
        sum = sum_next;
        if negligible(&term, &sum, w) {
            break;
        }
        k = k + 1;
    }
    proof {
        assert(multiplied(*x, *x, x_sq));
        assert(call_ensures(one_at, (w,), one));
    }
    (sum, prev_mag)
}

/// The auxiliary `f(x) = (1/x)·Σ (−1)^k (2k)!/x^(2k)` and the exponent
/// of its truncation floor.
pub fn si_ci_f(x: &BigFloat, w: u32) -> (r: (BigFloat, i64))
    requires
        x.wf(),
        prec_ok(w as nat),
    ensures
        r.0.wf(),
        exists|sum: BigFloat, pm: i64| #[trigger] call_ensures(aux_series, (x, w, 0u64), (sum, pm)) && divided(sum, *x, r.0),
{
    let (sum, prev_mag) = aux_series(x, w, 0);
    let (f, _) = sum.div(x, RoundingMode::NearestEven);
    proof {
        assert(call_ensures(aux_series, (x, w, 0u64), (sum, prev_mag)));
        assert(divided(sum, *x, f));
    }
    (f, exp_diff(prev_mag, term_magnitude(x)))
}

/// The auxiliary `g(x) = (1/x²)·Σ (−1)^k (2k+1)!/x^(2k)` and the
/// exponent of its truncation floor.
pub fn si_ci_g(x: &BigFloat, w: u32) -> (r: (BigFloat, i64))
    requires
        x.wf(),
        prec_ok(w as nat),
    ensures
        r.0.wf(),
        exists|sum: BigFloat, pm: i64, xsq: BigFloat| #![trigger call_ensures(aux_series, (x, w, 1u64), (sum, pm)), multiplied(*x, *x, xsq)]
            call_ensures(aux_series, (x, w, 1u64), (sum, pm)) && multiplied(*x, *x, xsq) && divided(sum, xsq, r.0),
{
    let (sum, prev_mag) = aux_series(x, w, 1);
    let (x_sq, _) = x.mul(x, RoundingMode::NearestEven);
    let (g, _) = sum.div(&x_sq, RoundingMode::NearestEven);
    proof {
        assert(call_ensures(aux_series, (x, w, 1u64), (sum, prev_mag)));
        assert(multiplied(*x, *x, x_sq));
        assert(divided(sum, x_sq, g));
    }
    let m = term_magnitude(x);
    let twice: i64 = if m > i64::MAX / 2 { i64::MAX } else if m < i64::MIN / 2 { i64::MIN } else { 2 * m };
    (g, exp_diff(prev_mag, twice))
}

/// One step of the `Si` series: `t = −prev·x²·(2k−1)/(2k·(2k+1)·(2k+1))`,
/// the integers `a = 2k − 1`, `b = 2k`, `c = 2k + 1` taken at `w` bits,
/// each operation rounded to nearest.
pub open spec fn si_term_step(prev: BigFloat, xsq: BigFloat, a: i64, b: i64, c: i64, w: u32, t: BigFloat) -> bool {
    exists|ab: BigFloat, bb: BigFloat, cb: BigFloat, t1: BigFloat, t2: BigFloat, t3: BigFloat, t4: BigFloat, t5: BigFloat|
        #![trigger call_ensures(int_at, (a, w), ab), call_ensures(int_at, (b, w), bb), call_ensures(int_at, (c, w), cb), multiplied(prev, xsq, t1), multiplied(t1, ab, t2), divided(t2, bb, t3), divided(t3, cb, t4), divided(t4, cb, t5)]
        call_ensures(int_at, (a, w), ab) && call_ensures(int_at, (b, w), bb) && call_ensures(int_at, (c, w), cb)
            && multiplied(prev, xsq, t1) && multiplied(t1, ab, t2) && divided(t2, bb, t3) && divided(t3, cb, t4)
            && divided(t4, cb, t5) && negation_of(t, t5)
}

/// The terms of the `Si` series after the first.
#[verifier::opaque]
pub open spec fn si_terms(ts: Seq<BigFloat>, xsq: BigFloat, w: u32) -> bool {
    forall|i: int| 1 <= i < ts.len() ==> si_term_step(ts[i - 1], xsq, (2 * i - 1) as i64, (2 * i) as i64, (2 * i + 1) as i64, w, #[trigger] ts[i])
}

proof fn lemma_si_push(ts: Seq<BigFloat>, terms: Seq<BigFloat>, xsq: BigFloat, w: u32, t: BigFloat)
    requires
        si_terms(ts, xsq, w),
        tail_of(terms, ts),
        si_term_step(ts.last(), xsq, (2 * ts.len() - 1) as i64, (2 * ts.len()) as i64, (2 * ts.len() + 1) as i64, w, t),
    ensures
        si_terms(ts.push(t), xsq, w),
        tail_of(terms.push(t), ts.push(t)),
{
    reveal(si_terms);
    reveal(tail_of);
    let ts2 = ts.push(t);
    let terms2 = terms.push(t);
    assert forall|i: int| 1 <= i < ts2.len() implies si_term_step(ts2[i - 1], xsq, (2 * i - 1) as i64, (2 * i) as i64, (2 * i + 1) as i64, w, #[trigger] ts2[i]) by {
        if i < ts.len() {
            assert(ts2[i] == ts[i] && ts2[i - 1] == ts[i - 1]);
        }
    }
    assert forall|i: int| 0 <= i < terms2.len() implies #[trigger] terms2[i] == ts2[i + 1] by {
        if i < terms.len() {
            assert(terms2[i] == terms[i] && ts2[i + 1] == ts[i + 1]);
        }
    }
}

/// How [`si_series`] sums `Si(x) = Σ_{k≥0} (−1)^k x^{2k+1}/((2k+1)·(2k+1)!)`
/// at a working precision `w`: `xw` is `x` rounded to nearest at `w`
/// bits; the partial sums start at `xw` and add
/// `t_k = −t_{k−1}·xw²·(2k−1)/(2k·(2k+1)·(2k+1))` (`t₀ = xw`), each
/// step rounded to nearest.
pub open spec fn si_series_sum(x: BigFloat, s: BigFloat) -> bool {
    exists|w: u32, xw: BigFloat, xsq: BigFloat, a0: BigFloat, ts: Seq<BigFloat>, terms: Seq<BigFloat>, accs: Seq<BigFloat>|
        #![trigger rounded_near(x, w as nat, xw), multiplied(xw, xw, xsq), si_terms(ts, xsq, w), sum_chain(a0, terms, accs)]
        prec_ok(w as nat) && rounded_near(x, w as nat, xw) && multiplied(xw, xw, xsq) && same(a0, xw)
            && ts.len() >= 1 && same(ts[0], xw) && si_terms(ts, xsq, w) && tail_of(terms, ts)
            && sum_chain(a0, terms, accs) && accs.last() == s
}

/// `Si(|x|)` by its convergent series.
pub fn si_series(abs_x: &BigFloat, p: u32) -> (s: BigFloat)
    requires
        abs_x.wf(),
        prec_ok(p as nat),
    ensures
        s.wf(),
        si_series_sum(*abs_x, s),
{
    let e_x = exponent_of(abs_x);
    let w = series_working_precision(p, e_x, 1);
    let x_w = rne(abs_x, w);
    let (x_sq, _) = x_w.mul(&x_w, RoundingMode::NearestEven);
    let mut term = x_w.dup();
    let mut acc = x_w.dup();
    let ghost a0 = acc;
    let ghost mut ts: Seq<BigFloat> = seq![term];
    let ghost mut terms: Seq<BigFloat> = Seq::empty();
    let ghost mut accs: Seq<BigFloat> = seq![acc];
    proof {
        reveal(si_terms);
        reveal(tail_of);
        assert(sum_chain(a0, terms, accs));
    }
    let min_terms = series_min_terms(e_x);
    let max_iter: u64 = 0x40_0000;
    let mut k: u64 = 1;
    while k <= max_iter
        invariant_except_break
            ts.len() == k,
        invariant
            prec_ok(w as nat),
            x_sq.wf(),
            term.wf(),
            acc.wf(),
            1 <= k,
            max_iter == 0x40_0000,
            ts.len() >= 1,
            ts.len() <= k + 1,
            same(ts[0], x_w),
            ts.last() == term,
            si_terms(ts, x_sq, w),
            tail_of(terms, ts),
            sum_chain(a0, terms, accs),
            accs.last() == acc,
        decreases max_iter + 1 - k,
    {
        let d1 = int_at((2 * k - 1) as i64, w);
        let d2 = int_at((2 * k) as i64, w);
        let d3 = int_at((2 * k + 1) as i64, w);
        let (t1, _) = term.mul(&x_sq, RoundingMode::NearestEven);
        let (t2, _) = t1.mul(&d1, RoundingMode::NearestEven);
        let (t3, _) = t2.div(&d2, RoundingMode::NearestEven);
        let (t4, _) = t3.div(&d3, RoundingMode::NearestEven);
        let (t5, _) = t4.div(&d3, RoundingMode::NearestEven);
        term = t5.negated();
        proof {
            let i = ts.len() as int;
            assert((2 * i - 1) as i64 == (2 * k - 1) as i64 && (2 * i) as i64 == (2 * k) as i64 && (2 * i + 1) as i64 == (2 * k + 1) as i64);
            assert(multiplied(ts.last(), x_sq, t1));
            assert(multiplied(t1, d1, t2));
            assert(divided(t2, d2, t3));
            assert(divided(t3, d3, t4));
            assert(divided(t4, d3, t5));
            assert(negation_of(term, t5));
            assert(si_term_step(ts.last(), x_sq, (2 * i - 1) as i64, (2 * i) as i64, (2 * i + 1) as i64, w, term));
        }
        let (acc_next, _) = acc.add(&term, RoundingMode::NearestEven);
        proof {
            assert(added(acc, term, acc_next));
            lemma_si_push(ts, terms, x_sq, w, term);
            super::lemma_sum_chain_push(a0, terms, accs, term, acc_next);
            ts = ts.push(term);
            terms = terms.push(term);
            accs = accs.push(acc_next);
        }
        acc = acc_next;
        if k > min_terms {
            let small = below_floor(&term, &acc, w);
            if small {
                break;
            }
        }
        k = k + 1;
    }
    proof {
        assert(rounded_near(*abs_x, w as nat, x_w));
        assert(multiplied(x_w, x_w, x_sq));
    }
    acc
}

/// `Si(|x|) = π/2 − f·cos x − g·sin x` past the asymptotic threshold.
pub fn si_asymptotic(abs_x: &BigFloat, p: u32) -> (s: BigFloat)
    requires
        abs_x.wf(),
        prec_ok(p as nat),
    ensures
        s.wf(),
        si_asymptotic_form(*abs_x, p, s),
{
    let w = wadd(p, 64);
    let x_w = rne(abs_x, w);
    let (f, fe) = si_ci_f(&x_w, w);
    let (g, ge) = si_ci_g(&x_w, w);
    let (cos_x, cs) = x_w.cos(RoundingMode::NearestEven);
    let (sin_x, ss) = x_w.sin(RoundingMode::NearestEven);
    let half_pi = pi_over_2_at(w);
    let (f_cos, _) = f.mul(&cos_x, RoundingMode::NearestEven);
    let (g_sin, _) = g.mul(&sin_x, RoundingMode::NearestEven);
    let (a, _) = half_pi.sub(&f_cos, RoundingMode::NearestEven);
    let (r, _) = a.sub(&g_sin, RoundingMode::NearestEven);
    proof {
        assert(rounded_near(*abs_x, w as nat, x_w));
        assert(call_ensures(si_ci_f, (&x_w, w), (f, fe)));
        assert(call_ensures(si_ci_g, (&x_w, w), (g, ge)));
        assert(call_ensures(BigFloat::cos, (&x_w, RoundingMode::NearestEven), (cos_x, cs)));
        assert(call_ensures(BigFloat::sin, (&x_w, RoundingMode::NearestEven), (sin_x, ss)));
        assert(call_ensures(pi_over_2_at, (w,), half_pi));
        assert(multiplied(f, cos_x, f_cos));
        assert(multiplied(g, sin_x, g_sin));
        assert(subtracted(half_pi, f_cos, a));
        assert(subtracted(a, g_sin, r));
    }
    r
}

/// How [`si_asymptotic`] evaluates `Si(x) = π/2 − f(x)·cos x − g(x)·sin x`
/// at `w = p + 64` bits: `xw` is `x` rounded to nearest, `f`, `g` what
/// [`si_ci_f`] and [`si_ci_g`] give at `xw`, `cos` and `sin` what those
/// functions give, `π/2` what [`pi_over_2_at`] gives; each operation
/// rounded to nearest.
pub open spec fn si_asymptotic_form(x: BigFloat, p: u32, s: BigFloat) -> bool {
    exists|w: u32, xw: BigFloat, f: BigFloat, fe: i64, g: BigFloat, ge: i64, c: BigFloat, cs: Status, sn: BigFloat, ss: Status,
        hp: BigFloat, fc: BigFloat, gs: BigFloat, a: BigFloat|
        #![trigger rounded_near(x, w as nat, xw), call_ensures(si_ci_f, (&xw, w), (f, fe)), call_ensures(si_ci_g, (&xw, w), (g, ge)), call_ensures(BigFloat::cos, (&xw, RoundingMode::NearestEven), (c, cs)), call_ensures(BigFloat::sin, (&xw, RoundingMode::NearestEven), (sn, ss)), call_ensures(pi_over_2_at, (w,), hp), multiplied(f, c, fc), multiplied(g, sn, gs), subtracted(hp, fc, a)]
        w == super::prec_clamp(p + 64) && rounded_near(x, w as nat, xw)
            && call_ensures(si_ci_f, (&xw, w), (f, fe)) && call_ensures(si_ci_g, (&xw, w), (g, ge))
            && call_ensures(BigFloat::cos, (&xw, RoundingMode::NearestEven), (c, cs))
            && call_ensures(BigFloat::sin, (&xw, RoundingMode::NearestEven), (sn, ss))
            && call_ensures(pi_over_2_at, (w,), hp) && multiplied(f, c, fc) && multiplied(g, sn, gs)
            && subtracted(hp, fc, a) && subtracted(a, gs, s)
}

/// What `Si` gives at the normal arguments that are not tiny: the value
/// [`si_at_w`] computes at a working precision of the Ziv schedule,
/// rounded to `p` bits under `mode`; the asymptotic expansion is taken
/// from `|x| ≥ 2^e` on, `e` the threshold of [`is_asymptotic_threshold`].
pub open spec fn si_value(x: BigFloat, r: BigFloat, p: nat, mode: RoundingMode) -> bool {
    x.class is Normal && !(x.class->Normal_exponent <= -(p + 2) && -2 * x.class->Normal_exponent >= x.precision + 6)
        ==> exists|w: u32, y: BigFloat, st: Status, ua: bool|
            #![trigger call_ensures(si_at_w, (&x, ua, w), y), rounds_to(y, p, mode, r, st)]
            call_ensures(si_at_w, (&x, ua, w), y)
                && (exists|e: i64| #[trigger] is_asymptotic_threshold(p as u32, e) && ua == (x.class->Normal_exponent >= e))
                && ziv_on_schedule(w as int, p as int) && rounds_to(y, p, mode, r, st)
}

/// `Si(x)` at working precision `w`: the series, or the asymptotic
/// expansion where `use_asymptotic`, at `|x|`, with the sign of `x`.
pub fn si_at_w(x: &BigFloat, use_asymptotic: bool, w: u32) -> (y: BigFloat)
    requires
        x.wf(),
        prec_ok(w as nat),
    ensures
        y.wf(),
        exists|ax: BigFloat, ra: BigFloat| #![trigger call_ensures(BigFloat::abs, (x,), ax), same_magnitude_of(ra, y)]
            call_ensures(BigFloat::abs, (x,), ax) && same_magnitude_of(ra, y)
                && (if use_asymptotic { si_asymptotic_form(ax, w, ra) } else { si_series_sum(ax, ra) })
                && (if x.spec_neg() { negation_of(y, ra) } else { y == ra }),
{
    let abs_x = x.abs();
    let result_abs = if use_asymptotic { si_asymptotic(&abs_x, w) } else { si_series(&abs_x, w) };
    let y = if x.is_sign_negative() {
        result_abs.negated()
    } else {
        result_abs
    };
    proof {
        assert(call_ensures(BigFloat::abs, (x,), abs_x));
        assert(same_magnitude_of(result_abs, y));
        if use_asymptotic {
            assert(si_asymptotic_form(abs_x, w, result_abs));
        } else {
            assert(si_series_sum(abs_x, result_abs));
        }
    }
    y
}

/// `ra` and `y` are the same value up to sign.
pub open spec fn same_magnitude_of(ra: BigFloat, y: BigFloat) -> bool {
    super::same_magnitude(y, ra)
}

fn si_kernel(x: &BigFloat, target: u32, mode: RoundingMode) -> (r: (BigFloat, Status))
    requires
        x.wf(),
        prec_ok(target as nat),
    ensures
        r.0.wf(),
        r.0.precision == target,
        si_special(*x, r.0, r.1, target as nat),
        si_tiny(*x, r.0, r.1, target as nat, mode),
        si_value(*x, r.0, target as nat, mode),
        si_infinite(*x, r.0, r.1, target as nat, mode),
{
    match &x.class {
        Class::Nan { .. } => return nan_in(x, target),
        Class::Zero { sign } => return (zero_at(*sign, target), Status { bits: 0 }),
        Class::Infinity { sign } => return signed_pi_over_2_round(*sign == Sign::Negative, target, mode),
        Class::Normal { .. } => {},
    }
    let e = exponent_of(x);
    if e <= -(target as i64 + 2) && -2 * (e as i128) >= x.precision as i128 + 6 {
        let (v, st) = round_with_infinitesimal(x, true, target, mode);
        let s = force_inexact(&v, st);
        proof {
            crate::types::lemma_or_inexact(st.bits);
        }
        return (v, s);
    }
    let abs_x = x.abs();
    let threshold = asymptotic_threshold_exponent(target);
    let use_asymptotic = exponent_of(&abs_x) >= threshold;
    let eval = |w: u32| -> (y: BigFloat)
        requires
            prec_ok(w as nat),
        ensures
            y.wf(),
            call_ensures(si_at_w, (x, use_asymptotic, w), y),
    {
        si_at_w(x, use_asymptotic, w)
    };
    let (result, status) = ziv_round(eval, target, mode, SI_ERROR_GUARD);
    let st = force_inexact(&result, status);
    proof {
        crate::types::lemma_or_inexact(status.bits);
        let t = choose|t: ZivTrace| t.0 == result && t.1 == status && #[trigger] is_trace_of(eval, target as nat, mode, t)
            && ziv_on_schedule(t.2 as int, target as int);
        assert(call_ensures(si_at_w, (x, use_asymptotic, t.2), t.3));
        assert(rounds_to(t.3, target as nat, mode, result, status));
        assert(is_asymptotic_threshold((target as nat) as u32, threshold) && use_asymptotic == (x.class->Normal_exponent >= threshold));
        assert(exists|e: i64| #[trigger] is_asymptotic_threshold((target as nat) as u32, e) && use_asymptotic == (x.class->Normal_exponent >= e));
    }
    (result, st)
}

impl BigFloat {
    /// `Si(self)` rounded under `mode` to the precision of
    /// `self`.
    pub fn si(&self, mode: RoundingMode) -> (r: (BigFloat, Status))
        requires
            self.wf(),
        ensures
            r.0.wf(),
            r.0.precision == self.precision,
            si_special(*self, r.0, r.1, self.precision as nat),
            si_tiny(*self, r.0, r.1, self.precision as nat, mode),
            si_value(*self, r.0, self.precision as nat, mode),
            si_infinite(*self, r.0, r.1, self.precision as nat, mode),
    {
        si_kernel(self, self.precision, mode)
    }

    /// `Si(self)` rounded under `mode` to `target_precision`
    /// bits.
    pub fn si_round(&self, target_precision: u32, mode: RoundingMode) -> (r: Result<(BigFloat, Status), BuildError>)
        requires
            self.wf(),
        ensures
            r is Ok <==> prec_ok(target_precision as nat),
            target_precision == 0 ==> r == Err::<(BigFloat, Status), BuildError>(BuildError::PrecisionZero),
            r matches Ok(v) ==> v.0.wf() && v.0.precision == target_precision
                && si_special(*self, v.0, v.1, target_precision as nat)
                && si_tiny(*self, v.0, v.1, target_precision as nat, mode)
                && si_value(*self, v.0, target_precision as nat, mode)
                && si_infinite(*self, v.0, v.1, target_precision as nat, mode),
    {
        BigFloat::check_precision(target_precision)?;
        Ok(si_kernel(self, target_precision, mode))
    }
}

impl<const PREC: u32> FixedFloat<PREC> {
    /// `Si(self)` at the fixed precision.
    pub fn si(&self, mode: RoundingMode) -> (r: (FixedFloat<PREC>, Status))
        requires
            self.wf(),
        ensures
            r.0.wf(),
            si_special(self.value(), r.0.value(), r.1, PREC as nat),
            si_tiny(self.value(), r.0.value(), r.1, PREC as nat, mode),
            si_value(self.value(), r.0.value(), PREC as nat, mode),
            si_infinite(self.value(), r.0.value(), r.1, PREC as nat, mode),
            call_ensures(BigFloat::si, (&self.value(), mode), (r.0.value(), r.1)),
    {
        let (big, st) = self.big_ref().si(mode);
        (FixedFloat::wrap(big), st)
    }
}

} // verus!

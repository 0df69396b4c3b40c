//! `Ei(x)`, the exponential integral: the series
//! `γ + ln|x| + Σ x^k/(k·k!)` at a working precision raised for the
//! terms' growth, or the asymptotic `e^x/x·Σ k!/x^k` past a threshold;
//! rounded through the Ziv driver.

use vstd::prelude::*;
use crate::types::{BigFloat, BuildError, Class, Sign, RoundingMode, Status, FLAG_DIV_BY_ZERO, prec_ok};
use crate::float::nan_result;
use crate::fixed::FixedFloat;
use super::{wadd, int_at, one_at, rne, zero_at, inf_at, exponent_of, nan_in, euler_gamma_at};
use super::{rounds_to, added, multiplied, divided, rounded_near, sum_chain};
use crate::float::same;
use super::ziv::{ziv_round, DEFAULT_ERROR_GUARD, ZivTrace, is_trace_of, ziv_on_schedule};

verus! {

/// Guard bits charged to one evaluation of the Ei kernel.
pub const EI_ERROR_GUARD: u32 = DEFAULT_ERROR_GUARD;

/// The outcome `Ei` promises at the special inputs.
pub open spec fn ei_special(x: BigFloat, r: BigFloat, st: Status, p: nat) -> bool {
    &&& (x.class is Nan ==> nan_result(r, st, x, p))
    &&& (x.class is Zero ==> r.class == (Class::Infinity { sign: Sign::Negative }) && st.bits == FLAG_DIV_BY_ZERO)
    &&& (x.class == (Class::Infinity { sign: Sign::Negative }) ==> r.class == (Class::Zero { sign: Sign::Negative }) && st.bits == 0)
    &&& (x.class == (Class::Infinity { sign: Sign::Positive }) ==> r.class == x.class && st.bits == 0)
}

/// `e` is the smallest exponent from 1 up to 60 with
/// `2^e ≥ 0.6932·(p + 32)` (60 where none is).
pub open spec fn is_asymptotic_threshold(p: u32, e: i64) -> bool {
    &&& 1 <= e <= 60
    &&& (e == 60 || vstd::arithmetic::power2::pow2(e as nat) >= threshold_need(p))
    &&& forall|k: int| 1 <= k < e ==> #[trigger] vstd::arithmetic::power2::pow2(k as nat) < threshold_need(p)
}

/// Smallest exponent `e` (from 1 up to 60) with `2^e ≥ 0.6932·(p + 32)`:
/// from `|x| ≥ 2^e` on, the asymptotic expansions of `Ei`, `Si` and
/// `Ci` reach `p` bits.
pub fn asymptotic_threshold_exponent(p: u32) -> (e: i64)
    ensures
        is_asymptotic_threshold(p, e),
        1 <= e <= 60,
        e == 60 || vstd::arithmetic::power2::pow2(e as nat) >= threshold_need(p),
        forall|k: int| 1 <= k < e ==> #[trigger] vstd::arithmetic::power2::pow2(k as nat) < threshold_need(p),
{
    let bits_needed: u64 = p as u64 + 32;
    let need: u64 = (bits_needed * 6932 + 9999) / 10000;
    let mut e: i64 = 1;
    let mut pow_2: u64 = 2;
    proof {
        vstd::arithmetic::power2::lemma2_to64();
    }
    while pow_2 < need && e < 60
        invariant
            1 <= e <= 60,
            need == threshold_need(p),
            pow_2 == vstd::arithmetic::power2::pow2(e as nat),
            forall|k: int| 1 <= k < e ==> #[trigger] vstd::arithmetic::power2::pow2(k as nat) < need,
        decreases 60 - e,
    {
        proof {
            super::pow::lemma_pow2_le(e as nat, 59);
            vstd::arithmetic::power2::lemma2_to64_rest();
            vstd::arithmetic::power2::lemma_pow2_unfold((e + 1) as nat);
        }
        e = e + 1;
        pow_2 = if pow_2 > u64::MAX / 2 { u64::MAX } else { pow_2 * 2 };
    }
    e
}

/// `⌈0.6932·(p + 32)⌉`, the magnitude from which the asymptotic
/// expansions reach `p` bits.
pub open spec fn threshold_need(p: u32) -> int {
    ((p + 32) * 6932 + 9999) / 10000
}

/// The exponent of a normal value; 0 otherwise.
pub open spec fn acc_exponent_spec(v: &BigFloat) -> int {
    if v.class is Normal {
        v.class->Normal_exponent as int
    } else {
        0
    }
}

pub fn acc_exponent(v: &BigFloat) -> (r: i64)
    ensures
        r == acc_exponent_spec(v),
{
    match &v.class {
        Class::Normal { exponent, .. } => *exponent,
        _ => 0,
    }
}

/// The exponent of a normal value, below every exponent for a zero and
/// above every one for the other classes.
pub fn term_magnitude(v: &BigFloat) -> (r: i64)
    ensures
        v.class is Normal ==> r == v.class->Normal_exponent,
        v.class is Zero ==> r == i64::MIN,
        v.class is Infinity || v.class is Nan ==> r == i64::MAX,
{
    match &v.class {
        Class::Normal { exponent, .. } => *exponent,
        Class::Zero { .. } => i64::MIN,
        _ => i64::MAX,
    }
}

/// Terms a series must run before its stopping test applies:
/// `2^max(e, 0) + 2`, saturating.
pub fn series_min_terms(e: i64) -> (r: u64)
    ensures
        e <= 0 ==> r == 3,
        e >= 62 ==> r == u64::MAX,
        0 < e < 62 ==> r == vstd::arithmetic::power2::pow2(e as nat) + 2,
{
    if e <= 0 {
        3
    } else if e >= 62 {
        u64::MAX
    } else {
        let t = crate::limbs::pow2_u64(e as u64);
        proof {
            super::pow::lemma_pow2_le(e as nat, 61);
            vstd::arithmetic::power2::lemma2_to64_rest();
        }
        t + 2
    }
}

/// Whether a series term has fallen below the truncation floor of its
/// running sum: zero, or a normal value with exponent `< acc − w − 8`.
pub fn below_floor(term: &BigFloat, acc: &BigFloat, w: u32) -> (r: bool)
    ensures
        r == (term.class is Zero || (term.class is Normal && term.class->Normal_exponent
            < acc_exponent_spec(acc) - w - 8)),
{
    match &term.class {
        Class::Zero { .. } => true,
        Class::Normal { exponent, .. } => (*exponent as i128) < (acc_exponent(acc) as i128)
            - (w as i128) - 8,
        _ => false,
    }
}

/// Working precision for the convergent series at `|x| ~ 2^e`: `p + 64`
/// plus `2^(e+1)·23/16` (`factor` times), at most `p + 4096`.
pub fn series_working_precision(p: u32, e: i64, factor: u64) -> (w: u32)
    requires
        prec_ok(p as nat),
        1 <= factor <= 2,
    ensures
        prec_ok(w as nat),
        w == super::prec_clamp(p + series_extra_cap(e as int, factor as int)),
{
    let extra: u64 = if e <= 0 {
        64
    } else {
        let shift: u64 = if e >= 19 { 20 } else { (e + 1) as u64 };
        let mag: u64 = crate::limbs::pow2_u64(shift);
        proof {
            super::pow::lemma_pow2_le(shift as nat, 20);
            vstd::arithmetic::power2::lemma2_to64();
        }
        let m = mag * 23 / 16 * factor;
        if m > 4096 { 4096 } else { m }
    };
    let cap = if extra + 64 > 4096 { 4096 } else { extra + 64 };
    wadd(p, cap)
}

/// The bits the convergent series add to the target at `|x| ~ 2^e`:
/// `64 + 2^(min(e,19)+1)·23/16·factor` for `e > 0` (64 otherwise), the
/// magnitude term capped at 4096 and the whole at 4096.
pub open spec fn series_extra_cap(e: int, factor: int) -> int {
    let extra: int = if e <= 0 {
        64
    } else {
        let shift: nat = if e >= 19 { 20 } else { (e + 1) as nat };
        let m = vstd::arithmetic::power2::pow2(shift) * 23 / 16 * factor;
        if m > 4096 { 4096 } else { m }
    };
    if extra + 64 > 4096 { 4096 } else { extra + 64 }
}

/// One step of the `Ei` series: `t = prev·xw·j/k²` with `j = k − 1`,
/// `k` and `j` taken at `w` bits, each operation rounded to nearest.
pub open spec fn ei_term_step(prev: BigFloat, xw: BigFloat, k: i64, j: i64, w: u32, t: BigFloat) -> bool {
    exists|kb: BigFloat, jb: BigFloat, ksq: BigFloat, tx: BigFloat, txj: BigFloat|
        #![trigger call_ensures(int_at, (k, w), kb), call_ensures(int_at, (j, w), jb), multiplied(kb, kb, ksq), multiplied(prev, xw, tx), multiplied(tx, jb, txj)]
        call_ensures(int_at, (k, w), kb) && call_ensures(int_at, (j, w), jb) && multiplied(kb, kb, ksq)
            && multiplied(prev, xw, tx) && multiplied(tx, jb, txj) && divided(txj, ksq, t)
}

/// How [`ei_series`] sums `Ei(x) = γ + ln|x| + Σ_{k≥1} x^k/(k·k!)` at a
/// working precision `w`: `xw` is `x` rounded to nearest at `w` bits,
/// `l` what `ln` gives at `|xw|` and `g` what [`euler_gamma_at`] gives at
/// `w`; the partial sums start at `g + l` and add the terms
/// `t₁ = xw`, `t_k = t_{k−1}·xw·(k−1)/k²`, each step rounded to nearest.
pub open spec fn ei_series_sum(x: BigFloat, s: BigFloat) -> bool {
    exists|w: u32, xw: BigFloat, ax: BigFloat, l: BigFloat, ls: Status, g: BigFloat, a: BigFloat,
        terms: Seq<BigFloat>, accs: Seq<BigFloat>|
        #![trigger rounded_near(x, w as nat, xw), call_ensures(BigFloat::abs, (&xw,), ax), call_ensures(BigFloat::ln, (&ax, RoundingMode::NearestEven), (l, ls)), call_ensures(euler_gamma_at, (w,), g), sum_chain(a, terms, accs)]
        prec_ok(w as nat) && rounded_near(x, w as nat, xw) && call_ensures(BigFloat::abs, (&xw,), ax)
            && call_ensures(BigFloat::ln, (&ax, RoundingMode::NearestEven), (l, ls))
            && call_ensures(euler_gamma_at, (w,), g) && added(g, l, a)
            && sum_chain(a, terms, accs) && accs.last() == s
            && terms.len() >= 1 && same(terms[0], xw)
            && (forall|i: int| 1 <= i < terms.len() ==> ei_term_step(terms[i - 1], xw, (i + 1) as i64, i as i64, w, #[trigger] terms[i]))
}

/// `Ei(x)` by its convergent series.
pub fn ei_series(x: &BigFloat, p: u32) -> (s: BigFloat)
    requires
        x.wf(),
        prec_ok(p as nat),
    ensures
        s.wf(),
        ei_series_sum(*x, s),
{
    let e_x = exponent_of(x);
    let w = series_working_precision(p, e_x, 2);
    let x_w = rne(x, w);
    let abs_x = x_w.abs();
    let (ln_abs, ln_st) = abs_x.ln(RoundingMode::NearestEven);
    let gamma = euler_gamma_at(w);
    let (g_plus_ln, _) = gamma.add(&ln_abs, RoundingMode::NearestEven);
    proof {
        assert(added(gamma, ln_abs, g_plus_ln));
    }
    let mut term = x_w.dup();
    let (mut acc, _) = g_plus_ln.add(&term, RoundingMode::NearestEven);
    let ghost mut terms: Seq<BigFloat> = seq![term];
    let ghost mut accs: Seq<BigFloat> = seq![g_plus_ln, acc];
    proof {
        assert(added(g_plus_ln, term, acc));
        assert(sum_chain(g_plus_ln, terms, accs)) by {
            assert(terms[0] == term);
        }
    }
    let min_terms = series_min_terms(e_x);
    let max_iter: u64 = 0x40_0000;
    let mut k: u64 = 2;
    while k <= max_iter
        invariant_except_break
            terms.len() == k - 1,
        invariant
            prec_ok(w as nat),
            x_w.wf(),
            term.wf(),
            acc.wf(),
            2 <= k,
            max_iter == 0x40_0000,
            terms.len() >= 1,
            terms.len() <= k,
            sum_chain(g_plus_ln, terms, accs),
            accs.last() == acc,
            terms.last() == term,
            same(terms[0], x_w),
            forall|i: int| 1 <= i < terms.len() ==> ei_term_step(terms[i - 1], x_w, (i + 1) as i64, i as i64, w, #[trigger] terms[i]),
        decreases max_iter + 1 - k,
    {
        let kb = int_at(k as i64, w);
        let km1 = int_at((k - 1) as i64, w);
        let (k_sq, _) = kb.mul(&kb, RoundingMode::NearestEven);
        let (tx, _) = term.mul(&x_w, RoundingMode::NearestEven);
        let (txm, _) = tx.mul(&km1, RoundingMode::NearestEven);
        let (t_next, _) = txm.div(&k_sq, RoundingMode::NearestEven);
        proof {
            assert(multiplied(kb, kb, k_sq));
            assert(multiplied(term, x_w, tx));
            assert(multiplied(tx, km1, txm));
            assert(divided(txm, k_sq, t_next));
            assert(ei_term_step(term, x_w, k as i64, (k - 1) as i64, w, t_next));
        }
        let ghost old_terms = terms;
        let ghost old_accs = accs;
        term = t_next;
        let (acc_next, _) = acc.add(&term, RoundingMode::NearestEven);
        proof {
            assert(added(acc, term, acc_next));
            terms = terms.push(term);
            accs = accs.push(acc_next);
            assert forall|i: int| 0 <= i < terms.len() implies added(accs[i], #[trigger] terms[i], accs[i + 1]) by {
                if i < old_terms.len() {
                    assert(terms[i] == old_terms[i]);
                    assert(accs[i] == old_accs[i] && accs[i + 1] == old_accs[i + 1]);
                }
            }
            assert forall|i: int| 1 <= i < terms.len() implies ei_term_step(terms[i - 1], x_w, (i + 1) as i64, i as i64, w, #[trigger] terms[i]) by {
                if i < old_terms.len() {
                    assert(terms[i] == old_terms[i] && terms[i - 1] == old_terms[i - 1]);
                }
            }
        }
        acc = acc_next;
        if k > min_terms {
            let small = below_floor(&term, &acc, w);
            if small {
                break;
            }
        }
        k = k + 1;
    }
    proof {
        assert(rounded_near(*x, w as nat, x_w));
        assert(call_ensures(BigFloat::abs, (&x_w,), abs_x));
        assert(call_ensures(BigFloat::ln, (&abs_x, RoundingMode::NearestEven), (ln_abs, ln_st)));
        assert(call_ensures(euler_gamma_at, (w,), gamma));
        assert(added(gamma, ln_abs, g_plus_ln));
    }
    acc
}

/// One step of the asymptotic series of `Ei`: `t = prev·k/xw` with `k`
/// taken at `w` bits, each operation rounded to nearest.
pub open spec fn ei_asym_step(prev: BigFloat, xw: BigFloat, k: i64, w: u32, t: BigFloat) -> bool {
    exists|kb: BigFloat, tk: BigFloat|
        #![trigger call_ensures(int_at, (k, w), kb), multiplied(prev, kb, tk)]
        call_ensures(int_at, (k, w), kb) && multiplied(prev, kb, tk) && divided(tk, xw, t)
}

/// The terms `ts[0] = 1`, `ts[k] = ts[k−1]·k/xw`.
#[verifier::opaque]
pub open spec fn ei_asym_terms(ts: Seq<BigFloat>, xw: BigFloat, w: u32) -> bool {
    forall|i: int| 1 <= i < ts.len() ==> ei_asym_step(ts[i - 1], xw, i as i64, w, #[trigger] ts[i])
}

/// The added terms are `ts[1], ts[2], …`.
#[verifier::opaque]
pub open spec fn tail_of(terms: Seq<BigFloat>, ts: Seq<BigFloat>) -> bool {
    &&& ts.len() == terms.len() + 1
    &&& forall|i: int| 0 <= i < terms.len() ==> #[trigger] terms[i] == ts[i + 1]
}

proof fn lemma_ei_asym_push(ts: Seq<BigFloat>, terms: Seq<BigFloat>, xw: BigFloat, w: u32, t: BigFloat)
    requires
        ei_asym_terms(ts, xw, w),
        tail_of(terms, ts),
        ei_asym_step(ts.last(), xw, ts.len() as i64, w, t),
    ensures
        ei_asym_terms(ts.push(t), xw, w),
        tail_of(terms.push(t), ts.push(t)),
{
    reveal(ei_asym_terms);
    reveal(tail_of);
    let ts2 = ts.push(t);
    let terms2 = terms.push(t);
    assert forall|i: int| 1 <= i < ts2.len() implies ei_asym_step(ts2[i - 1], xw, i as i64, w, #[trigger] ts2[i]) by {
        if i < ts.len() {
            assert(ts2[i] == ts[i] && ts2[i - 1] == ts[i - 1]);
        }
    }
    assert forall|i: int| 0 <= i < terms2.len() implies #[trigger] terms2[i] == ts2[i + 1] by {
        if i < terms.len() {
            assert(terms2[i] == terms[i] && ts2[i + 1] == ts[i + 1]);
        }
    }
}

/// How [`ei_asymptotic`] evaluates `Ei(x) = e^x/x·Σ_k k!/x^k` at
/// `w = p + 64` bits: `xw` is `x` rounded to nearest, the sum starts at
/// one and adds `t_k = t_{k−1}·k/xw`, and the result is what `exp`
/// gives at `xw`, divided by `xw`, times the sum; each operation
/// rounded to nearest.
pub open spec fn ei_asymptotic_form(x: BigFloat, p: u32, s: BigFloat) -> bool {
    exists|w: u32, xw: BigFloat, one: BigFloat, s0: BigFloat, ts: Seq<BigFloat>, terms: Seq<BigFloat>, accs: Seq<BigFloat>,
        ex: BigFloat, exs: Status, q: BigFloat|
        #![trigger rounded_near(x, w as nat, xw), call_ensures(one_at, (w,), one), sum_chain(s0, terms, accs), ei_asym_terms(ts, xw, w), call_ensures(BigFloat::exp, (&xw, RoundingMode::NearestEven), (ex, exs)), divided(ex, xw, q)]
        w == super::prec_clamp(p + 64) && rounded_near(x, w as nat, xw) && call_ensures(one_at, (w,), one)
            && same(s0, one) && ts.len() >= 1 && ts[0] == one && ei_asym_terms(ts, xw, w) && tail_of(terms, ts)
            && sum_chain(s0, terms, accs)
            && call_ensures(BigFloat::exp, (&xw, RoundingMode::NearestEven), (ex, exs)) && divided(ex, xw, q)
            && multiplied(q, accs.last(), s)
}

/// `Ei(x)` by its asymptotic expansion, truncated at its smallest term.
pub fn ei_asymptotic(x: &BigFloat, p: u32) -> (s: BigFloat)
    requires
        x.wf(),
        prec_ok(p as nat),
    ensures
        s.wf(),
        ei_asymptotic_form(*x, p, s),
{
    let w = wadd(p, 64);
    let x_w = rne(x, w);
    let mut term = one_at(w);
    let ghost one = term;
    let mut sum = term.dup();
    let ghost s0 = sum;
    let ghost mut ts: Seq<BigFloat> = seq![term];
    let ghost mut terms: Seq<BigFloat> = Seq::empty();
    let ghost mut accs: Seq<BigFloat> = seq![sum];
    proof {
        reveal(ei_asym_terms);
        reveal(tail_of);
        assert(sum_chain(s0, terms, accs));
    }
    let mut prev_mag = term_magnitude(&term);
    let max_iter: u64 = 0x40_0000;
    let mut k: u64 = 1;
    while k <= max_iter
        invariant_except_break
            ts.len() == k,
            ts.last() == term,
        invariant
            prec_ok(w as nat),
            x_w.wf(),
            term.wf(),
            sum.wf(),
            1 <= k,
            max_iter == 0x40_0000,
            ts.len() >= 1,
            ts[0] == one,
            ei_asym_terms(ts, x_w, w),
            tail_of(terms, ts),
            sum_chain(s0, terms, accs),
            accs.last() == sum,
        decreases max_iter + 1 - k,
    {
        let kb = int_at(k as i64, w);
        let (tk, _) = term.mul(&kb, RoundingMode::NearestEven);
        let (t_next, _) = tk.div(&x_w, RoundingMode::NearestEven);
        proof {
            assert(multiplied(term, kb, tk));
            assert(divided(tk, x_w, t_next));
            assert(ei_asym_step(ts.last(), x_w, ts.len() as i64, w, t_next));
        }
        term = t_next;
        let mag = term_magnitude(&term);
        if mag > prev_mag {
            break;
        }
        prev_mag = mag;
        let (sum_next, _) = sum.add(&term, RoundingMode::NearestEven);
        proof {
            assert(added(sum, term, sum_next));
            lemma_ei_asym_push(ts, terms, x_w, w, term);
            super::lemma_sum_chain_push(s0, terms, accs, term, sum_next);
            ts = ts.push(term);
            terms = terms.push(term);
            accs = accs.push(sum_next);
        }
        sum = sum_next;
        let negligible = below_floor(&term, &sum, w);
        if negligible {
            break;
        }
        k = k + 1;
    }
    let (exp_x, exs) = x_w.exp(RoundingMode::NearestEven);
    let (exp_over_x, _) = exp_x.div(&x_w, RoundingMode::NearestEven);
    let (r, _) = exp_over_x.mul(&sum, RoundingMode::NearestEven);
    proof {
        assert(rounded_near(*x, w as nat, x_w));
        assert(call_ensures(one_at, (w,), one));
        assert(call_ensures(BigFloat::exp, (&x_w, RoundingMode::NearestEven), (exp_x, exs)));
        assert(divided(exp_x, x_w, exp_over_x));
        assert(multiplied(exp_over_x, accs.last(), r));
    }
    r
}

/// `Ei(x)` at working precision `w`: the asymptotic expansion where
/// `use_asymptotic`, the series otherwise.
pub fn ei_at_w(x: &BigFloat, use_asymptotic: bool, w: u32) -> (y: BigFloat)
    requires
        x.wf(),
        prec_ok(w as nat),
    ensures
        y.wf(),
        !use_asymptotic ==> ei_series_sum(*x, y),
        use_asymptotic ==> ei_asymptotic_form(*x, w, y),
{
    if use_asymptotic {
        ei_asymptotic(x, w)
    } else {
        ei_series(x, w)
    }
}

/// What `Ei` gives at a normal argument: the value [`ei_at_w`] computes
/// at a working precision of the Ziv schedule, rounded to `p` bits under
/// `mode`; the asymptotic expansion is taken from `|x| ≥ 2^e` on, `e` the
/// threshold of [`is_asymptotic_threshold`].
pub open spec fn ei_value(x: BigFloat, r: BigFloat, st: Status, p: nat, mode: RoundingMode) -> bool {
    x.class is Normal
        ==> exists|w: u32, y: BigFloat, s0: Status, ua: bool| #![trigger call_ensures(ei_at_w, (&x, ua, w), y), rounds_to(y, p, mode, r, s0)]
            call_ensures(ei_at_w, (&x, ua, w), y)
                && (exists|e: i64| #[trigger] is_asymptotic_threshold(p as u32, e) && ua == (x.class->Normal_exponent >= e)) && ziv_on_schedule(w as int, p as int) && rounds_to(y, p, mode, r, s0)
}

fn ei_kernel(x: &BigFloat, target: u32, mode: RoundingMode) -> (r: (BigFloat, Status))
    requires
        x.wf(),
        prec_ok(target as nat),
    ensures
        r.0.wf(),
        r.0.precision == target,
        ei_special(*x, r.0, r.1, target as nat),
        ei_value(*x, r.0, r.1, target as nat, mode),
{
    match &x.class {
        Class::Nan { .. } => return nan_in(x, target),
        Class::Zero { .. } => return (inf_at(Sign::Negative, target), Status { bits: FLAG_DIV_BY_ZERO }),
        Class::Infinity { sign: Sign::Negative } => return (zero_at(Sign::Negative, target), Status { bits: 0 }),
        Class::Infinity { sign: Sign::Positive } => return (inf_at(Sign::Positive, target), Status { bits: 0 }),
        Class::Normal { .. } => {},
    }
    let threshold = asymptotic_threshold_exponent(target);
    let use_asymptotic = exponent_of(x) >= threshold;
    let eval = |w: u32| -> (y: BigFloat)
        requires
            prec_ok(w as nat),
        ensures
            y.wf(),
            call_ensures(ei_at_w, (x, use_asymptotic, w), y),
    {
        ei_at_w(x, use_asymptotic, w)
    };
    let (result, status) = ziv_round(eval, target, mode, EI_ERROR_GUARD);
    proof {
        let t = choose|t: ZivTrace| t.0 == result && t.1 == status && #[trigger] is_trace_of(eval, target as nat, mode, t)
            && ziv_on_schedule(t.2 as int, target as int);
        assert(call_ensures(ei_at_w, (x, use_asymptotic, t.2), t.3));
        assert(rounds_to(t.3, target as nat, mode, result, status));
        assert(is_asymptotic_threshold((target as nat) as u32, threshold) && use_asymptotic == (x.class->Normal_exponent >= threshold));
        assert(exists|e: i64| #[trigger] is_asymptotic_threshold((target as nat) as u32, e) && use_asymptotic == (x.class->Normal_exponent >= e));
    }
    (result, status)
}

impl BigFloat {
    /// `Ei(self)` rounded under `mode` to the precision of
    /// `self`.
    pub fn ei(&self, mode: RoundingMode) -> (r: (BigFloat, Status))
        requires
            self.wf(),
        ensures
            r.0.wf(),
            r.0.precision == self.precision,
            ei_special(*self, r.0, r.1, self.precision as nat),
            ei_value(*self, r.0, r.1, self.precision as nat, mode),
    {
        ei_kernel(self, self.precision, mode)
    }

    /// `Ei(self)` rounded under `mode` to `target_precision`
    /// bits.
    pub fn ei_round(&self, target_precision: u32, mode: RoundingMode) -> (r: Result<(BigFloat, Status), BuildError>)
        requires
            self.wf(),
        ensures
            r is Ok <==> prec_ok(target_precision as nat),
            target_precision == 0 ==> r == Err::<(BigFloat, Status), BuildError>(BuildError::PrecisionZero),
            r matches Ok(v) ==> v.0.wf() && v.0.precision == target_precision
                && ei_special(*self, v.0, v.1, target_precision as nat)
                && ei_value(*self, v.0, v.1, target_precision as nat, mode),
    {
        BigFloat::check_precision(target_precision)?;
        Ok(ei_kernel(self, target_precision, mode))
    }
}

impl<const PREC: u32> FixedFloat<PREC> {
    /// `Ei(self)` at the fixed precision.
    pub fn ei(&self, mode: RoundingMode) -> (r: (FixedFloat<PREC>, Status))
        requires
            self.wf(),
        ensures
            r.0.wf(),
            ei_special(self.value(), r.0.value(), r.1, PREC as nat),
            ei_value(self.value(), r.0.value(), r.1, PREC as nat, mode),
            call_ensures(BigFloat::ei, (&self.value(), mode), (r.0.value(), r.1)),
    {
        let (big, st) = self.big_ref().ei(mode);
        (FixedFloat::wrap(big), st)
    }
}

} // verus!

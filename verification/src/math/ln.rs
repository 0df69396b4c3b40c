//! `ln(x)`: the natural logarithm.
//!
//! With `x = m · 2^e`, `m ∈ [1, 2)`: `ln x = 2·atanh(u) + e·ln 2` where
//! `u = (m − 1)/(m + 1) ∈ [0, 1/3]`, the atanh series converging about
//! three bits per term; rounded through the Ziv driver.

use vstd::prelude::*;
use crate::types::{BigFloat, BuildError, Class, Sign, RoundingMode, Status, FLAG_INEXACT, FLAG_INVALID, FLAG_DIV_BY_ZERO, prec_ok};
use crate::float::nan_result;
use crate::fixed::FixedFloat;
use super::{wadd, int_at, one_at, rne, zero_at, inf_at, qnan_at, exponent_of, nan_in, ln_2_at, is_unit, is_unit_exec};
use super::exp::has_inexact;
use super::{rounds_to, added, multiplied, divided, subtracted, rounded_near, sum_chain, lemma_sum_chain_push};
use crate::float::same;
use super::ziv::{ziv_round, DEFAULT_ERROR_GUARD, ZivTrace, is_trace_of, ziv_on_schedule};

verus! {

/// Guard bits charged to one evaluation of the ln kernel.
pub const LN_ERROR_GUARD: u32 = DEFAULT_ERROR_GUARD;

/// The outcome `ln` promises at the special inputs.
pub open spec fn ln_special(x: BigFloat, r: BigFloat, st: Status, p: nat) -> bool {
    &&& (x.class is Nan ==> nan_result(r, st, x, p))
    &&& (x.class is Zero ==> r.class == (Class::Infinity { sign: Sign::Negative }) && st.bits == FLAG_DIV_BY_ZERO)
    &&& (x.class == (Class::Infinity { sign: Sign::Positive }) ==> r.class == (Class::Infinity { sign: Sign::Positive }) && st.bits == 0)
    &&& ((x.class == (Class::Infinity { sign: Sign::Negative }) || (x.class is Normal && x.spec_neg()))
        ==> r.class is Nan && r.class->Nan_quiet && st.bits == FLAG_INVALID)
    &&& (is_unit(x, false) ==> r.class == (Class::Zero { sign: Sign::Positive }) && st.bits == 0)
    &&& (x.class is Normal && !x.spec_neg() && !is_unit(x, false) ==> has_inexact(st))
}

/// The outcome every logarithm promises off its domain's interior:
/// NaNs propagate, zero gives `−∞` with DIV_BY_ZERO, `+∞` gives `+∞`,
/// and a negative argument gives a quiet NaN with INVALID.
pub open spec fn log_domain_special(x: BigFloat, r: BigFloat, st: Status, p: nat) -> bool {
    &&& (x.class is Nan ==> nan_result(r, st, x, p))
    &&& (x.class is Zero ==> r.class == (Class::Infinity { sign: Sign::Negative }) && st.bits == FLAG_DIV_BY_ZERO)
    &&& (x.class == (Class::Infinity { sign: Sign::Positive }) ==> r.class == (Class::Infinity { sign: Sign::Positive }) && st.bits == 0)
    &&& ((x.class == (Class::Infinity { sign: Sign::Negative }) || (x.class is Normal && x.spec_neg()))
        ==> r.class is Nan && r.class->Nan_quiet && !r.spec_neg() && st.bits == FLAG_INVALID)
}

/// The result of a logarithm at an argument outside the positive
/// normal values, when there is one.
pub fn log_domain_edge(x: &BigFloat, target: u32) -> (r: Option<(BigFloat, Status)>)
    requires
        x.wf(),
        prec_ok(target as nat),
    ensures
        r is None <==> (x.class is Normal && !x.spec_neg()),
        r matches Some(v) ==> v.0.wf() && v.0.precision == target && log_domain_special(*x, v.0, v.1, target as nat),
{
    match &x.class {
        Class::Nan { .. } => Some(nan_in(x, target)),
        Class::Zero { .. } => Some((inf_at(Sign::Negative, target), Status { bits: FLAG_DIV_BY_ZERO })),
        Class::Infinity { sign: Sign::Positive } => Some((inf_at(Sign::Positive, target), Status { bits: 0 })),
        Class::Infinity { sign: Sign::Negative } => Some((qnan_at(target), Status { bits: FLAG_INVALID })),
        Class::Normal { sign: Sign::Negative, .. } => Some((qnan_at(target), Status { bits: FLAG_INVALID })),
        Class::Normal { .. } => None,
    }
}

/// `m` is the significand of the normal `xw` as a value in `[1, 2)`:
/// positive, exponent zero, the same mantissa and precision.
pub open spec fn unit_significand(xw: BigFloat, m: BigFloat) -> bool {
    &&& m.precision == xw.precision
    &&& m.class is Normal
    &&& !m.spec_neg()
    &&& m.class->Normal_exponent == 0
    &&& m.class->Normal_mantissa@ == xw.class->Normal_mantissa@
}

/// One step of the atanh series: the power `pw = prev·u²` and the term
/// `t = pw/(2k + 1)`, the integer taken at `w` bits, each operation
/// rounded to nearest.
pub open spec fn atanh_step(prev: BigFloat, usq: BigFloat, k: int, w: u32, pw: BigFloat, t: BigFloat) -> bool {
    exists|d: BigFloat| #[trigger] call_ensures(int_at, ((2 * k + 1) as i64, w), d)
        && multiplied(prev, usq, pw) && divided(pw, d, t)
}

/// How [`ln_at_w`] evaluates `ln x = 2·atanh(u) + e·ln 2`: `xw` is `x`
/// rounded to nearest at `w` bits, `m` its significand in `[1, 2)` and
/// `e` its exponent; `u = (m − 1)/(m + 1)`; the series
/// `atanh u = u + u³/3 + u⁵/5 + …` starts at `u` and adds the terms
/// `u^(2k+1)/(2k+1)`, the powers formed one step at a time; the sum is
/// doubled and `e` times what [`ln_2_at`] gives is added; each
/// operation rounded to nearest.
pub open spec fn ln_at_w_form(x: BigFloat, w: u32, y: BigFloat) -> bool {
    exists|xw: BigFloat| #[trigger] rounded_near(x, w as nat, xw) && {
        &&& !(xw.class is Normal) ==> y == xw
        &&& xw.class is Normal ==> exists|m: BigFloat, one: BigFloat, mm1: BigFloat, mp1: BigFloat, u: BigFloat, usq: BigFloat,
            a: BigFloat, pows: Seq<BigFloat>, terms: Seq<BigFloat>, accs: Seq<BigFloat>, two: BigFloat, lnm: BigFloat,
            l2: BigFloat, eb: BigFloat, el2: BigFloat|
            #![trigger unit_significand(xw, m), call_ensures(one_at, (w,), one), subtracted(m, one, mm1), added(m, one, mp1), divided(mm1, mp1, u), multiplied(u, u, usq), sum_chain(a, terms, accs), call_ensures(int_at, (2i64, w), two), multiplied(two, accs.last(), lnm), call_ensures(ln_2_at, (w,), l2), call_ensures(int_at, (xw.class->Normal_exponent, w), eb), multiplied(eb, l2, el2), pows.len()]
            unit_significand(xw, m) && call_ensures(one_at, (w,), one) && subtracted(m, one, mm1) && added(m, one, mp1)
                && divided(mm1, mp1, u) && multiplied(u, u, usq) && same(a, u)
                && pows.len() == terms.len() && sum_chain(a, terms, accs)
                && (forall|i: int| 0 <= i < terms.len() ==> atanh_step(if i == 0 { u } else { pows[i - 1] }, usq, i + 1, w,
                    #[trigger] pows[i], terms[i]))
                && call_ensures(int_at, (2i64, w), two) && multiplied(two, accs.last(), lnm)
                && call_ensures(ln_2_at, (w,), l2) && call_ensures(int_at, (xw.class->Normal_exponent, w), eb)
                && multiplied(eb, l2, el2) && added(lnm, el2, y)
    }
}

/// The atanh series extends by one step.
proof fn lemma_atanh_push(a: BigFloat, u0: BigFloat, usq: BigFloat, w: u32, pows: Seq<BigFloat>, terms: Seq<BigFloat>,
    accs: Seq<BigFloat>, t: BigFloat, td: BigFloat, s2: BigFloat)
    requires
        pows.len() == terms.len(),
        sum_chain(a, terms, accs),
        forall|i: int| 0 <= i < terms.len() ==> atanh_step(if i == 0 { u0 } else { pows[i - 1] }, usq, i + 1, w,
            #[trigger] pows[i], terms[i]),
        multiplied(if terms.len() == 0 { u0 } else { pows.last() }, usq, t),
        exists|d: BigFloat| #[trigger] call_ensures(int_at, ((2 * (terms.len() + 1) + 1) as i64, w), d) && divided(t, d, td),
        added(accs.last(), td, s2),
    ensures
        sum_chain(a, terms.push(td), accs.push(s2)),
        accs.push(s2).last() == s2,
        forall|i: int| 0 <= i < terms.push(td).len() ==> atanh_step(if i == 0 { u0 } else { pows.push(t)[i - 1] }, usq, i + 1,
            w, #[trigger] pows.push(t)[i], terms.push(td)[i]),
{
    lemma_sum_chain_push(a, terms, accs, td, s2);
    let p2 = pows.push(t);
    let t2 = terms.push(td);
    let n = terms.len() as int;
    assert(atanh_step(if n == 0 { u0 } else { pows[n - 1] }, usq, n + 1, w, t, td));
    assert forall|j: int| 0 <= j < t2.len() implies atanh_step(if j == 0 { u0 } else { p2[j - 1] }, usq, j + 1, w,
        #[trigger] p2[j], t2[j]) by {
        if j < n {
            assert(p2[j] == pows[j] && t2[j] == terms[j]);
            if j > 0 {
                assert(p2[j - 1] == pows[j - 1]);
            }
        } else {
            assert(p2[j] == t && t2[j] == td);
            if j > 0 {
                assert(p2[j - 1] == pows[j - 1]);
            }
        }
    }
}

/// `ln(x)` at working precision `w` for a positive normal `x`.
pub fn ln_at_w(x: &BigFloat, w: u32) -> (y: BigFloat)
    requires
        x.wf(),
        prec_ok(w as nat),
    ensures
        y.wf(),
        ln_at_w_form(*x, w, y),
{
    let x_w = rne(x, w);
    proof {
        assert(rounded_near(*x, w as nat, x_w));
    }
    let (e, m) = match &x_w.class {
        Class::Normal { exponent, mantissa, .. } => (*exponent, BigFloat {
            class: Class::Normal { sign: Sign::Positive, exponent: 0, mantissa: mantissa.clone() },
            precision: x_w.precision,
        }),
        _ => return x_w,
    };
    proof {
        assert(unit_significand(x_w, m));
    }
    let one = one_at(w);
    let (m_minus_1, _) = m.sub(&one, RoundingMode::NearestEven);
    let (m_plus_1, _) = m.add(&one, RoundingMode::NearestEven);
    let (u, _) = m_minus_1.div(&m_plus_1, RoundingMode::NearestEven);
    let (u_sq, _) = u.mul(&u, RoundingMode::NearestEven);
    let mut sum = u.dup();
    let ghost a = sum;
    let ghost u0 = u;
    let mut term = u;
    let ghost mut pows: Seq<BigFloat> = Seq::empty();
    let ghost mut terms: Seq<BigFloat> = Seq::empty();
    let ghost mut accs: Seq<BigFloat> = seq![sum];
    let max_iter: u64 = 4 * (w as u64) + 256;
    let limit: i64 = -(w as i64) - 4;
    let mut k: u64 = 1;
    while k <= max_iter
        invariant_except_break
            terms.len() == k - 1,
            term == (if k == 1 { u0 } else { pows.last() }),
        invariant
            prec_ok(w as nat),
            sum.wf(),
            term.wf(),
            u_sq.wf(),
            max_iter == 4 * (w as u64) + 256,
            1 <= k,
            same(a, u0),
            pows.len() == terms.len(),
            sum_chain(a, terms, accs),
            accs.last() == sum,
            forall|i: int| 0 <= i < terms.len() ==> atanh_step(if i == 0 { u0 } else { pows[i - 1] }, u_sq, i + 1, w,
                #[trigger] pows[i], terms[i]),
        decreases max_iter + 1 - k,
    {
        let (t, _) = term.mul(&u_sq, RoundingMode::NearestEven);
        let ghost prev = term;
        term = t;
        let d = int_at((2 * k + 1) as i64, w);
        let (td, _) = term.div(&d, RoundingMode::NearestEven);
        let (s2, _) = sum.add(&td, RoundingMode::NearestEven);
        proof {
            assert(multiplied(prev, u_sq, t));
            assert(call_ensures(int_at, ((2 * (terms.len() + 1) + 1) as i64, w), d));
            assert(divided(t, d, td));
            assert(added(sum, td, s2));
            lemma_atanh_push(a, u0, u_sq, w, pows, terms, accs, t, td, s2);
            pows = pows.push(t);
            terms = terms.push(td);
            accs = accs.push(s2);
        }
        sum = s2;
        if !term.is_normal() || exponent_of(&term) < limit {
            break;
        }
        k = k + 1;
    }
    let two = int_at(2, w);
    let (ln_m, _) = two.mul(&sum, RoundingMode::NearestEven);
    let ln2 = ln_2_at(w);
    let e_big = int_at(e, w);
    let (e_ln2, _) = e_big.mul(&ln2, RoundingMode::NearestEven);
    let (result, _) = ln_m.add(&e_ln2, RoundingMode::NearestEven);
    proof {
        assert(call_ensures(one_at, (w,), one));
        assert(subtracted(m, one, m_minus_1));
        assert(added(m, one, m_plus_1));
        assert(divided(m_minus_1, m_plus_1, u0));
        assert(multiplied(u0, u0, u_sq));
        assert(call_ensures(int_at, (2i64, w), two));
        assert(multiplied(two, accs.last(), ln_m));
        assert(call_ensures(ln_2_at, (w,), ln2));
        assert(call_ensures(int_at, (x_w.class->Normal_exponent, w), e_big));
        assert(multiplied(e_big, ln2, e_ln2));
        assert(added(ln_m, e_ln2, result));
    }
    result
}

/// What `ln` gives at a positive normal argument other than one: the
/// value [`ln_at_w`] computes at a working precision of the Ziv
/// schedule, rounded to `p` bits under `mode`.
pub open spec fn ln_value(x: BigFloat, r: BigFloat, st: Status, p: nat, mode: RoundingMode) -> bool {
    x.class is Normal && !x.spec_neg() && !is_unit(x, false)
        ==> exists|w: u32, y: BigFloat, s0: Status| #![trigger call_ensures(ln_at_w, (&x, w), y), rounds_to(y, p, mode, r, s0)]
            call_ensures(ln_at_w, (&x, w), y) && ziv_on_schedule(w as int, p as int) && rounds_to(y, p, mode, r, s0)
}

fn ln_kernel(x: &BigFloat, target: u32, mode: RoundingMode) -> (r: (BigFloat, Status))
    requires
        x.wf(),
        prec_ok(target as nat),
    ensures
        r.0.wf(),
        r.0.precision == target,
        ln_special(*x, r.0, r.1, target as nat),
        ln_value(*x, r.0, r.1, target as nat, mode),
{
    match &x.class {
        Class::Nan { .. } => return nan_in(x, target),
        Class::Zero { .. } => return (inf_at(Sign::Negative, target), Status { bits: FLAG_DIV_BY_ZERO }),
        Class::Infinity { sign: Sign::Positive } => return (inf_at(Sign::Positive, target), Status { bits: 0 }),
        Class::Infinity { sign: Sign::Negative } => return (qnan_at(target), Status { bits: FLAG_INVALID }),
        Class::Normal { sign: Sign::Negative, .. } => return (qnan_at(target), Status { bits: FLAG_INVALID }),
        Class::Normal { .. } => {},
    }
    if is_unit_exec(x, false) {
        return (zero_at(Sign::Positive, target), Status { bits: 0 });
    }
    let eval = |w: u32| -> (y: BigFloat)
        requires
            prec_ok(w as nat),
        ensures
            y.wf(),
            call_ensures(ln_at_w, (x, w), y),
    {
        ln_at_w(x, w)
    };
    let (result, status) = ziv_round(eval, target, mode, LN_ERROR_GUARD);
    proof {
        let t = choose|t: ZivTrace| t.0 == result && t.1 == status && #[trigger] is_trace_of(eval, target as nat, mode, t)
            && ziv_on_schedule(t.2 as int, target as int);
        assert(call_ensures(ln_at_w, (x, t.2), t.3));
        assert(rounds_to(t.3, target as nat, mode, result, status));
    }
    proof {
        crate::types::lemma_or_inexact(status.bits);
    }
    (result, status.merge(Status { bits: FLAG_INEXACT }))
}

impl BigFloat {
    /// `ln(self)` rounded under `mode` to the precision of
    /// `self`.
    pub fn ln(&self, mode: RoundingMode) -> (r: (BigFloat, Status))
        requires
            self.wf(),
        ensures
            r.0.wf(),
            r.0.precision == self.precision,
            ln_special(*self, r.0, r.1, self.precision as nat),
            ln_value(*self, r.0, r.1, self.precision as nat, mode),
    {
        ln_kernel(self, self.precision, mode)
    }

    /// `ln(self)` rounded under `mode` to `target_precision`
    /// bits.
    pub fn ln_round(&self, target_precision: u32, mode: RoundingMode) -> (r: Result<(BigFloat, Status), BuildError>)
        requires
            self.wf(),
        ensures
            r is Ok <==> prec_ok(target_precision as nat),
            target_precision == 0 ==> r == Err::<(BigFloat, Status), BuildError>(BuildError::PrecisionZero),
            r matches Ok(v) ==> v.0.wf() && v.0.precision == target_precision
                && ln_special(*self, v.0, v.1, target_precision as nat)
                && ln_value(*self, v.0, v.1, target_precision as nat, mode),
    {
        BigFloat::check_precision(target_precision)?;
        Ok(ln_kernel(self, target_precision, mode))
    }
}

impl<const PREC: u32> FixedFloat<PREC> {
    /// `ln(self)` at the fixed precision.
    pub fn ln(&self, mode: RoundingMode) -> (r: (FixedFloat<PREC>, Status))
        requires
            self.wf(),
        ensures
            r.0.wf(),
            ln_special(self.value(), r.0.value(), r.1, PREC as nat),
            ln_value(self.value(), r.0.value(), r.1, PREC as nat, mode),
            call_ensures(BigFloat::ln, (&self.value(), mode), (r.0.value(), r.1)),
    {
        let (big, st) = self.big_ref().ln(mode);
        (FixedFloat::wrap(big), st)
    }
}

} // verus!

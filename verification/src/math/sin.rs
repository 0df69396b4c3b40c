//! `sin(x)`: argument reduction to a quadrant and `|r| ≤ π/4`, then
//! the Taylor series of `sin r` or `cos r`, rounded through
//! the Ziv driver.

use vstd::prelude::*;
use crate::types::{BigFloat, BuildError, Class, Sign, RoundingMode, Status, FLAG_INVALID, FLAG_INEXACT, prec_ok};
use crate::float::nan_result;
use crate::fixed::FixedFloat;
use super::{wadd, int_at, one_at, zero_at, qnan_at, exponent_of, nan_in, force_inexact};
use super::exp::has_inexact;
use super::trig_reduce::{reduce, past_reduction, Reduction};
use super::{rounds_to, added, multiplied, divided, sum_chain, lemma_sum_chain_push};
use crate::float::same;
use crate::arith::negation_of;
use super::ziv::{ziv_round, DEFAULT_ERROR_GUARD, ZIV_BASE_GUARD, ZivTrace, is_trace_of, ziv_on_schedule};

verus! {

/// Guard bits charged to one evaluation of the sin kernel.
pub const SIN_ERROR_GUARD: u32 = DEFAULT_ERROR_GUARD;

/// Whether the status holds INVALID.
pub open spec fn has_invalid(st: Status) -> bool {
    st.bits & FLAG_INVALID != 0
}

/// The outcome `sin` promises: NaNs propagate, signed zeros are kept,
/// infinities and arguments past the reduction's reach give a quiet
/// NaN with INVALID, and a normal result is INEXACT.
pub open spec fn sin_special(x: BigFloat, r: BigFloat, st: Status, p: nat) -> bool {
    &&& (x.class is Nan ==> nan_result(r, st, x, p))
    &&& (x.class is Zero ==> r.class == x.class && st.bits == 0)
    &&& (x.class is Infinity ==> r.class is Nan && r.class->Nan_quiet && !r.spec_neg() && st.bits == FLAG_INVALID)
    &&& (past_reduction(x, p) ==> r.class is Nan && r.class->Nan_quiet && !r.spec_neg() && st.bits == FLAG_INVALID)
    &&& (x.class is Normal && r.class is Nan ==> has_invalid(st))
    &&& (x.class is Normal && r.class is Normal ==> has_inexact(st))
}

/// One step of the alternating series: `t = −prev·r²/m`, the integer
/// `m = a(a + 1)` taken at `w` bits, each operation rounded to nearest.
pub open spec fn alternating_step(prev: BigFloat, rsq: BigFloat, a: int, w: u32, t: BigFloat) -> bool {
    exists|numer: BigFloat, db: BigFloat, q: BigFloat|
        #![trigger multiplied(prev, rsq, numer), call_ensures(int_at, ((a * (a + 1)) as i64, w), db), divided(numer, db, q)]
        multiplied(prev, rsq, numer) && call_ensures(int_at, ((a * (a + 1)) as i64, w), db) && divided(numer, db, q)
            && negation_of(t, q)
}

/// How the sine and cosine series are summed from a first term `t0`:
/// `r²` is `r·r` rounded to nearest, the partial sums start at `t0` and
/// add `t_n = −t_{n−1}·r²/(a(a+1))` with `a = first, first + 2, …`,
/// each operation rounded to nearest at `w` bits.
pub open spec fn alternating_form(r: BigFloat, t0: BigFloat, w: u32, first: int, s: BigFloat) -> bool {
    exists|rsq: BigFloat, a: BigFloat, terms: Seq<BigFloat>, accs: Seq<BigFloat>|
        #![trigger multiplied(r, r, rsq), sum_chain(a, terms, accs)]
        multiplied(r, r, rsq) && same(a, t0) && sum_chain(a, terms, accs) && accs.last() == s
            && (forall|i: int| 0 <= i < terms.len() ==> alternating_step(if i == 0 { t0 } else { terms[i - 1] }, rsq,
                2 * i + first, w, #[trigger] terms[i]))
}

/// The series extends by one step.
proof fn lemma_alternating_push(a: BigFloat, t0: BigFloat, rsq: BigFloat, w: u32, first: int, terms: Seq<BigFloat>,
    accs: Seq<BigFloat>, t: BigFloat, next: BigFloat)
    requires
        sum_chain(a, terms, accs),
        forall|i: int| 0 <= i < terms.len() ==> alternating_step(if i == 0 { t0 } else { terms[i - 1] }, rsq, 2 * i + first, w,
            #[trigger] terms[i]),
        alternating_step(if terms.len() == 0 { t0 } else { terms.last() }, rsq, 2 * terms.len() + first, w, t),
        added(accs.last(), t, next),
    ensures
        sum_chain(a, terms.push(t), accs.push(next)),
        accs.push(next).last() == next,
        forall|i: int| 0 <= i < terms.push(t).len() ==> alternating_step(if i == 0 { t0 } else { terms.push(t)[i - 1] }, rsq,
            2 * i + first, w, #[trigger] terms.push(t)[i]),
{
    lemma_sum_chain_push(a, terms, accs, t, next);
    let t2 = terms.push(t);
    assert forall|j: int| 0 <= j < t2.len() implies alternating_step(if j == 0 { t0 } else { t2[j - 1] }, rsq, 2 * j + first, w,
        #[trigger] t2[j]) by {
        if j < terms.len() {
            assert(t2[j] == terms[j]);
        }
        if 0 < j {
            assert(t2[j - 1] == terms[j - 1]);
        }
    }
}

/// The term loop of the sine and cosine series: starting from
/// `term` and `sum`, each step multiplies by `−r²/((a)(a+1))` with
/// `a` running `first, first + 2, …`, until a term falls below
/// `2^−(w+4)`.
fn alternating_series(r: &BigFloat, term0: BigFloat, w: u32, first: u64) -> (s: BigFloat)
    requires
        r.wf(),
        term0.wf(),
        prec_ok(w as nat),
        first == 1 || first == 2,
    ensures
        s.wf(),
        alternating_form(*r, term0, w, first as int, s),
{
    let (r_sq, _) = r.mul(r, RoundingMode::NearestEven);
    let mut sum = term0.dup();
    let ghost a0 = sum;
    let ghost t0 = term0;
    let mut term = term0;
    let ghost mut terms: Seq<BigFloat> = Seq::empty();
    let ghost mut accs: Seq<BigFloat> = seq![sum];
    let max_iter: u64 = if 2 * (w as u64) > 256 { 2 * (w as u64) } else { 256 };
    let limit: i64 = -(w as i64) - 4;
    let mut n: u64 = 1;
    while n <= max_iter
        invariant_except_break
            terms.len() == n - 1,
            term == (if n == 1 { t0 } else { terms.last() }),
        invariant
            prec_ok(w as nat),
            term.wf(),
            sum.wf(),
            r_sq.wf(),
            first == 1 || first == 2,
            max_iter <= 0x200_0000,
            1 <= n,
            same(a0, t0),
            sum_chain(a0, terms, accs),
            accs.last() == sum,
            forall|i: int| 0 <= i < terms.len() ==> alternating_step(if i == 0 { t0 } else { terms[i - 1] }, r_sq,
                2 * i + first, w, #[trigger] terms[i]),
        decreases max_iter + 1 - n,
    {
        let a: u64 = 2 * n - 2 + first;
        assert(a * (a + 1) <= 0x20_0000_0000_0000) by (nonlinear_arith)
            requires a <= 0x400_0001;
        let denom = int_at((a * (a + 1)) as i64, w);
        let (numer, _) = term.mul(&r_sq, RoundingMode::NearestEven);
        let (next, _) = numer.div(&denom, RoundingMode::NearestEven);
        let ghost prev = term;
        term = next.negated();
        let (next_sum, _) = sum.add(&term, RoundingMode::NearestEven);
        proof {
            let ai = 2 * terms.len() + first;
            assert(ai == a);
            assert(multiplied(prev, r_sq, numer));
            assert(call_ensures(int_at, ((ai * (ai + 1)) as i64, w), denom));
            assert(divided(numer, denom, next));
            assert(negation_of(term, next));
            assert(alternating_step(prev, r_sq, ai, w, term));
            assert(added(sum, term, next_sum));
            lemma_alternating_push(a0, t0, r_sq, w, first as int, terms, accs, term, next_sum);
            terms = terms.push(term);
            accs = accs.push(next_sum);
        }
        sum = next_sum;
        if !term.is_normal() || exponent_of(&term) < limit {
            break;
        }
        n = n + 1;
    }
    proof {
        assert(multiplied(*r, *r, r_sq));
    }
    sum
}

/// `sin r = r − r³/3! + r⁵/5! − …` for `|r| ≤ π/4` at working
/// precision `w`.
pub fn sin_taylor(r: &BigFloat, w: u32) -> (s: BigFloat)
    requires
        r.wf(),
        prec_ok(w as nat),
    ensures
        s.wf(),
        r.class is Zero ==> s.class == r.class && s.precision == w,
        !(r.class is Zero) ==> exists|t0: BigFloat| #[trigger] same(t0, *r) && alternating_form(*r, t0, w, 2, s),
{
    if r.is_zero() {
        return zero_at(r.sign(), w);
    }
    let t = r.dup();
    let s = alternating_series(r, t, w, 2);
    proof {
        assert(same(t, *r));
    }
    s
}

/// `cos r = 1 − r²/2! + r⁴/4! − …` for `|r| ≤ π/4` at working
/// precision `w`.
pub fn cos_taylor(r: &BigFloat, w: u32) -> (s: BigFloat)
    requires
        r.wf(),
        prec_ok(w as nat),
    ensures
        s.wf(),
        r.class is Zero ==> crate::float::finite_value_is(s, 1, 0) && s.precision == w,
        !(r.class is Zero) ==> exists|one: BigFloat|
            #[trigger] call_ensures(one_at, (w,), one) && alternating_form(*r, one, w, 1, s),
{
    let one = one_at(w);
    if r.is_zero() {
        return one;
    }
    let s = alternating_series(r, one, w, 1);
    proof {
        assert(call_ensures(one_at, (w,), one));
    }
    s
}

/// What the sine takes at a reduced argument `x = q·π/2 + r`: by the
/// quadrant `q`, the series of `sin r`, `cos r`, `−sin r` or `−cos r`.
pub open spec fn sin_of_reduction(red: Reduction, w: u32, y: BigFloat) -> bool {
    ||| red.quadrant == 0 && call_ensures(sin_taylor, (&red.r, w), y)
    ||| red.quadrant == 1 && call_ensures(cos_taylor, (&red.r, w), y)
    ||| red.quadrant == 2 && exists|s: BigFloat| #[trigger] call_ensures(sin_taylor, (&red.r, w), s) && negation_of(y, s)
    ||| red.quadrant == 3 && exists|s: BigFloat| #[trigger] call_ensures(cos_taylor, (&red.r, w), s) && negation_of(y, s)
}

/// `sin(x)` at working precision `w`: a quiet NaN where the reduction
/// refuses.
pub fn sin_at_w(x: &BigFloat, w: u32) -> (y: BigFloat)
    requires
        x.wf(),
        prec_ok(w as nat),
    ensures
        y.wf(),
        exists|rr: Option<Reduction>| #[trigger] call_ensures(reduce, (x, w), rr) && match rr {
            Some(red) => sin_of_reduction(red, w, y),
            None => y.class is Nan,
        },
{
    let rr = reduce(x, w);
    proof {
        assert(call_ensures(reduce, (x, w), rr));
    }
    match rr {
        Some(red) => {
            let q = red.quadrant;
            if q == 0 {
                let y = sin_taylor(&red.r, w);
                proof {
                    assert(call_ensures(sin_taylor, (&red.r, w), y));
                }
                y
            } else if q == 1 {
                let y = cos_taylor(&red.r, w);
                proof {
                    assert(call_ensures(cos_taylor, (&red.r, w), y));
                }
                y
            } else if q == 2 {
                let s = sin_taylor(&red.r, w);
                let y = s.negated();
                proof {
                    assert(call_ensures(sin_taylor, (&red.r, w), s));
                    assert(negation_of(y, s));
                }
                y
            } else {
                let s = cos_taylor(&red.r, w);
                let y = s.negated();
                proof {
                    assert(call_ensures(cos_taylor, (&red.r, w), s));
                    assert(negation_of(y, s));
                }
                y
            }
        },
        None => qnan_at(w),
    }
}

/// After the driver: a NaN that no INVALID accompanies gains one.
pub fn flag_nan_invalid(result: &BigFloat, status: Status) -> (st: Status)
    ensures
        result.class is Nan ==> has_invalid(st),
        !(result.class is Nan) ==> st == status,
        result.class is Nan && has_invalid(status) ==> st == status,
{
    if result.is_nan() && !status.invalid() {
        let s = status.merge(Status { bits: FLAG_INVALID });
        proof {
            crate::types::lemma_or_inexact(status.bits);
        }
        s
    } else {
        status
    }
}

/// What `sin` gives at a normal argument: a quiet NaN with INVALID
/// where the argument reduction fails, otherwise the value [`sin_at_w`]
/// computes at a working precision of the Ziv schedule, rounded to `p`
/// bits under `mode`.
pub open spec fn sin_value(x: BigFloat, r: BigFloat, st: Status, p: nat, mode: RoundingMode) -> bool {
    x.class is Normal
        ==> (r.class is Nan && st.bits == crate::types::FLAG_INVALID) || exists|w: u32, y: BigFloat, s0: Status| #![trigger call_ensures(sin_at_w, (&x, w), y), rounds_to(y, p, mode, r, s0)]
            call_ensures(sin_at_w, (&x, w), y) && ziv_on_schedule(w as int, p as int) && rounds_to(y, p, mode, r, s0)
}

fn sin_kernel(x: &BigFloat, target: u32, mode: RoundingMode) -> (r: (BigFloat, Status))
    requires
        x.wf(),
        prec_ok(target as nat),
    ensures
        r.0.wf(),
        r.0.precision == target,
        sin_special(*x, r.0, r.1, target as nat),
        sin_value(*x, r.0, r.1, target as nat, mode),
{
    match &x.class {
        Class::Nan { .. } => return nan_in(x, target),
        Class::Zero { sign } => return (zero_at(*sign, target), Status { bits: 0 }),
        Class::Infinity { .. } => return (qnan_at(target), Status { bits: FLAG_INVALID }),
        Class::Normal { .. } => {},
    }
    let first = wadd(target, ZIV_BASE_GUARD as u64);
    if reduce(x, first).is_none() {
        proof {
            crate::types::lemma_or_inexact(0);
        }
        return (qnan_at(target), Status { bits: FLAG_INVALID });
    }
    let eval = |w: u32| -> (y: BigFloat)
        requires
            prec_ok(w as nat),
        ensures
            y.wf(),
            call_ensures(sin_at_w, (x, w), y),
    {
        sin_at_w(x, w)
    };
    let (result, status) = ziv_round(eval, target, mode, SIN_ERROR_GUARD);
    proof {
        let t = choose|t: ZivTrace| t.0 == result && t.1 == status && #[trigger] is_trace_of(eval, target as nat, mode, t)
            && ziv_on_schedule(t.2 as int, target as int);
        assert(call_ensures(sin_at_w, (x, t.2), t.3));
        assert(rounds_to(t.3, target as nat, mode, result, status));
    }
    let st1 = flag_nan_invalid(&result, status);
    let st = force_inexact(&result, st1);
    proof {
        crate::types::lemma_or_inexact(st1.bits);
    }
    (result, st)
}

impl BigFloat {
    /// `sin(self)` rounded under `mode` to the precision of
    /// `self`.
    pub fn sin(&self, mode: RoundingMode) -> (r: (BigFloat, Status))
        requires
            self.wf(),
        ensures
            r.0.wf(),
            r.0.precision == self.precision,
            sin_special(*self, r.0, r.1, self.precision as nat),
            sin_value(*self, r.0, r.1, self.precision as nat, mode),
    {
        sin_kernel(self, self.precision, mode)
    }

    /// `sin(self)` rounded under `mode` to
    /// `target_precision` bits.
    pub fn sin_round(&self, target_precision: u32, mode: RoundingMode) -> (r: Result<(BigFloat, Status), BuildError>)
        requires
            self.wf(),
        ensures
            r is Ok <==> prec_ok(target_precision as nat),
            target_precision == 0 ==> r == Err::<(BigFloat, Status), BuildError>(BuildError::PrecisionZero),
            r matches Ok(v) ==> v.0.wf() && v.0.precision == target_precision
                && sin_special(*self, v.0, v.1, target_precision as nat)
                && sin_value(*self, v.0, v.1, target_precision as nat, mode),
    {
        BigFloat::check_precision(target_precision)?;
        Ok(sin_kernel(self, target_precision, mode))
    }
}

impl<const PREC: u32> FixedFloat<PREC> {
    /// `sin(self)` at the fixed precision.
    pub fn sin(&self, mode: RoundingMode) -> (r: (FixedFloat<PREC>, Status))
        requires
            self.wf(),
        ensures
            r.0.wf(),
            sin_special(self.value(), r.0.value(), r.1, PREC as nat),
            sin_value(self.value(), r.0.value(), r.1, PREC as nat, mode),
            call_ensures(BigFloat::sin, (&self.value(), mode), (r.0.value(), r.1)),
    {
        let (big, st) = self.big_ref().sin(mode);
        (FixedFloat::wrap(big), st)
    }
}

} // verus!

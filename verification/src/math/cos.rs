//! `cos(x)`: argument reduction to a quadrant and `|r| ≤ π/4`, then
//! the Taylor series of `cos r` or `sin r`, rounded through
//! the Ziv driver.

use vstd::prelude::*;
use crate::types::{BigFloat, BuildError, Class, Sign, RoundingMode, Status, FLAG_INVALID, prec_ok};
use crate::float::{finite_value_is, nan_result};
use crate::fixed::FixedFloat;
use super::{wadd, one_at, qnan_at, nan_in};
use super::sin::{sin_taylor, cos_taylor, has_invalid, flag_nan_invalid};
use super::trig_reduce::{reduce, past_reduction, Reduction};
use crate::arith::negation_of;
use super::rounds_to;
use super::ziv::{ziv_round, DEFAULT_ERROR_GUARD, ZIV_BASE_GUARD, ZivTrace, is_trace_of, ziv_on_schedule};

verus! {

/// Guard bits charged to one evaluation of the cos kernel.
pub const COS_ERROR_GUARD: u32 = DEFAULT_ERROR_GUARD;

/// The outcome `cos` promises: NaNs propagate, `cos(±0) = 1`, and
/// infinities and arguments past the reduction's reach give a quiet
/// NaN with INVALID.
pub open spec fn cos_special(x: BigFloat, r: BigFloat, st: Status, p: nat) -> bool {
    &&& (x.class is Nan ==> nan_result(r, st, x, p))
    &&& (x.class is Zero ==> finite_value_is(r, 1, 0) && !r.spec_neg() && st.bits == 0)
    &&& (x.class is Infinity ==> r.class is Nan && r.class->Nan_quiet && !r.spec_neg() && st.bits == FLAG_INVALID)
    &&& (past_reduction(x, p) ==> r.class is Nan && r.class->Nan_quiet && !r.spec_neg() && st.bits == FLAG_INVALID)
    &&& (x.class is Normal && r.class is Nan ==> has_invalid(st))
}

/// What the cosine takes at a reduced argument `x = q·π/2 + r`: by
/// the quadrant `q`, the series of `cos r`, `−sin r`, `−cos r` or
/// `sin r`.
pub open spec fn cos_of_reduction(red: Reduction, w: u32, y: BigFloat) -> bool {
    ||| red.quadrant == 0 && call_ensures(cos_taylor, (&red.r, w), y)
    ||| red.quadrant == 1 && exists|s: BigFloat| #[trigger] call_ensures(sin_taylor, (&red.r, w), s) && negation_of(y, s)
    ||| red.quadrant == 2 && exists|s: BigFloat| #[trigger] call_ensures(cos_taylor, (&red.r, w), s) && negation_of(y, s)
    ||| red.quadrant == 3 && call_ensures(sin_taylor, (&red.r, w), y)
}

/// `cos(x)` at working precision `w`: a quiet NaN where the reduction
/// refuses.
pub fn cos_at_w(x: &BigFloat, w: u32) -> (y: BigFloat)
    requires
        x.wf(),
        prec_ok(w as nat),
    ensures
        y.wf(),
        exists|rr: Option<Reduction>| #[trigger] call_ensures(reduce, (x, w), rr) && match rr {
            Some(red) => cos_of_reduction(red, w, y),
            None => y.class is Nan,
        },
{
    let rr = reduce(x, w);
    proof {
        assert(call_ensures(reduce, (x, w), rr));
    }
    match rr {
        Some(red) => {
            let q = red.quadrant;
            if q == 0 {
                let y = cos_taylor(&red.r, w);
                proof {
                    assert(call_ensures(cos_taylor, (&red.r, w), y));
                }
                y
            } else if q == 1 {
                let s = sin_taylor(&red.r, w);
                let y = s.negated();
                proof {
                    assert(call_ensures(sin_taylor, (&red.r, w), s));
                    assert(negation_of(y, s));
                }
                y
            } else if q == 2 {
                let s = cos_taylor(&red.r, w);
                let y = s.negated();
                proof {
                    assert(call_ensures(cos_taylor, (&red.r, w), s));
                    assert(negation_of(y, s));
                }
                y
            } else {
                let y = sin_taylor(&red.r, w);
                proof {
                    assert(call_ensures(sin_taylor, (&red.r, w), y));
                }
                y
            }
        },
        None => qnan_at(w),
    }
}

/// What `cos` gives at a normal argument: a quiet NaN with INVALID
/// where the argument reduction fails, otherwise the value [`cos_at_w`]
/// computes at a working precision of the Ziv schedule, rounded to `p`
/// bits under `mode`.
pub open spec fn cos_value(x: BigFloat, r: BigFloat, st: Status, p: nat, mode: RoundingMode) -> bool {
    x.class is Normal
        ==> (r.class is Nan && st.bits == crate::types::FLAG_INVALID) || exists|w: u32, y: BigFloat, s0: Status| #![trigger call_ensures(cos_at_w, (&x, w), y), rounds_to(y, p, mode, r, s0)]
            call_ensures(cos_at_w, (&x, w), y) && ziv_on_schedule(w as int, p as int) && rounds_to(y, p, mode, r, s0)
}

fn cos_kernel(x: &BigFloat, target: u32, mode: RoundingMode) -> (r: (BigFloat, Status))
    requires
        x.wf(),
        prec_ok(target as nat),
    ensures
        r.0.wf(),
        r.0.precision == target,
        cos_special(*x, r.0, r.1, target as nat),
        cos_value(*x, r.0, r.1, target as nat, mode),
{
    match &x.class {
        Class::Nan { .. } => return nan_in(x, target),
        Class::Zero { .. } => return (one_at(target), Status { bits: 0 }),
        Class::Infinity { .. } => return (qnan_at(target), Status { bits: FLAG_INVALID }),
        Class::Normal { .. } => {},
    }
    let first = wadd(target, ZIV_BASE_GUARD as u64);
    if reduce(x, first).is_none() {
        proof {
            crate::types::lemma_or_inexact(0);
        }
        return (qnan_at(target), Status { bits: FLAG_INVALID });
    }
    let eval = |w: u32| -> (y: BigFloat)
        requires
            prec_ok(w as nat),
        ensures
            y.wf(),
            call_ensures(cos_at_w, (x, w), y),
    {
        cos_at_w(x, w)
    };
    let (result, status) = ziv_round(eval, target, mode, COS_ERROR_GUARD);
    proof {
        let t = choose|t: ZivTrace| t.0 == result && t.1 == status && #[trigger] is_trace_of(eval, target as nat, mode, t)
            && ziv_on_schedule(t.2 as int, target as int);
        assert(call_ensures(cos_at_w, (x, t.2), t.3));
        assert(rounds_to(t.3, target as nat, mode, result, status));
    }
    let st = flag_nan_invalid(&result, status);
    (result, st)
}

impl BigFloat {
    /// `cos(self)` rounded under `mode` to the precision of
    /// `self`.
    pub fn cos(&self, mode: RoundingMode) -> (r: (BigFloat, Status))
        requires
            self.wf(),
        ensures
            r.0.wf(),
            r.0.precision == self.precision,
            cos_special(*self, r.0, r.1, self.precision as nat),
            cos_value(*self, r.0, r.1, self.precision as nat, mode),
    {
        cos_kernel(self, self.precision, mode)
    }

    /// `cos(self)` rounded under `mode` to
    /// `target_precision` bits.
    pub fn cos_round(&self, target_precision: u32, mode: RoundingMode) -> (r: Result<(BigFloat, Status), BuildError>)
        requires
            self.wf(),
        ensures
            r is Ok <==> prec_ok(target_precision as nat),
            target_precision == 0 ==> r == Err::<(BigFloat, Status), BuildError>(BuildError::PrecisionZero),
            r matches Ok(v) ==> v.0.wf() && v.0.precision == target_precision
                && cos_special(*self, v.0, v.1, target_precision as nat)
                && cos_value(*self, v.0, v.1, target_precision as nat, mode),
    {
        BigFloat::check_precision(target_precision)?;
        Ok(cos_kernel(self, target_precision, mode))
    }
}

impl<const PREC: u32> FixedFloat<PREC> {
    /// `cos(self)` at the fixed precision.
    pub fn cos(&self, mode: RoundingMode) -> (r: (FixedFloat<PREC>, Status))
        requires
            self.wf(),
        ensures
            r.0.wf(),
            cos_special(self.value(), r.0.value(), r.1, PREC as nat),
            cos_value(self.value(), r.0.value(), r.1, PREC as nat, mode),
            call_ensures(BigFloat::cos, (&self.value(), mode), (r.0.value(), r.1)),
    {
        let (big, st) = self.big_ref().cos(mode);
        (FixedFloat::wrap(big), st)
    }
}

} // verus!

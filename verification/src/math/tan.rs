//! `tan(x)`: argument reduction to a quadrant and `|r| ≤ π/4`, then
//! `sin r / cos r` or `−cos r / sin r`, rounded through the
//! Ziv driver.

use vstd::prelude::*;
use crate::types::{BigFloat, BuildError, Class, Sign, RoundingMode, Status, FLAG_INVALID, prec_ok};
use crate::float::nan_result;
use crate::fixed::FixedFloat;
use super::{wadd, zero_at, qnan_at, nan_in, force_inexact};
use super::exp::has_inexact;
use super::sin::{sin_taylor, cos_taylor, has_invalid, flag_nan_invalid};
use super::trig_reduce::{reduce, past_reduction, Reduction};
use super::{rounds_to, divided};
use crate::arith::negation_of;
use super::ziv::{ziv_round, DEFAULT_ERROR_GUARD, ZIV_BASE_GUARD, ZivTrace, is_trace_of, ziv_on_schedule};

verus! {

/// Guard bits charged to one evaluation of the tan kernel.
pub const TAN_ERROR_GUARD: u32 = DEFAULT_ERROR_GUARD;

/// The outcome `tan` promises: NaNs propagate, signed zeros are kept,
/// infinities and arguments past the reduction's reach give a quiet
/// NaN with INVALID, and a normal result is INEXACT.
pub open spec fn tan_special(x: BigFloat, r: BigFloat, st: Status, p: nat) -> bool {
    &&& (x.class is Nan ==> nan_result(r, st, x, p))
    &&& (x.class is Zero ==> r.class == x.class && st.bits == 0)
    &&& (x.class is Infinity ==> r.class is Nan && r.class->Nan_quiet && !r.spec_neg() && st.bits == FLAG_INVALID)
    &&& (past_reduction(x, p) ==> r.class is Nan && r.class->Nan_quiet && !r.spec_neg() && st.bits == FLAG_INVALID)
    &&& (x.class is Normal && r.class is Nan ==> has_invalid(st))
    &&& (x.class is Normal && r.class is Normal ==> has_inexact(st))
}

/// `tan(x)` at working precision `w`: a quiet NaN where the reduction
/// refuses.
pub fn tan_at_w(x: &BigFloat, w: u32) -> (y: BigFloat)
    requires
        x.wf(),
        prec_ok(w as nat),
    ensures
        y.wf(),
        exists|rr: Option<Reduction>| #[trigger] call_ensures(reduce, (x, w), rr) && match rr {
            Some(red) => exists|s: BigFloat, c: BigFloat|
                #![trigger call_ensures(sin_taylor, (&red.r, w), s), call_ensures(cos_taylor, (&red.r, w), c)]
                call_ensures(sin_taylor, (&red.r, w), s) && call_ensures(cos_taylor, (&red.r, w), c)
                    && ((red.quadrant == 0 || red.quadrant == 2) ==> divided(s, c, y))
                    && (!(red.quadrant == 0 || red.quadrant == 2) ==> exists|nc: BigFloat| #[trigger] negation_of(nc, c) && divided(nc, s, y)),
            None => y.class is Nan,
        },
{
    let rr = reduce(x, w);
    proof {
        assert(call_ensures(reduce, (x, w), rr));
    }
    match rr {
        Some(red) => {
            let s = sin_taylor(&red.r, w);
            let c = cos_taylor(&red.r, w);
            proof {
                assert(call_ensures(sin_taylor, (&red.r, w), s));
                assert(call_ensures(cos_taylor, (&red.r, w), c));
            }
            if red.quadrant == 0 || red.quadrant == 2 {
                let y = s.div(&c, RoundingMode::NearestEven).0;
                proof {
                    assert(divided(s, c, y));
                }
                y
            } else {
                let nc = c.negated();
                let y = nc.div(&s, RoundingMode::NearestEven).0;
                proof {
                    assert(negation_of(nc, c));
                    assert(divided(nc, s, y));
                }
                y
            }
        },
        None => qnan_at(w),
    }
}

/// What `tan` gives at a normal argument: a quiet NaN with INVALID
/// where the argument reduction fails, otherwise the value [`tan_at_w`]
/// computes at a working precision of the Ziv schedule, rounded to `p`
/// bits under `mode`.
pub open spec fn tan_value(x: BigFloat, r: BigFloat, st: Status, p: nat, mode: RoundingMode) -> bool {
    x.class is Normal
        ==> (r.class is Nan && st.bits == crate::types::FLAG_INVALID) || exists|w: u32, y: BigFloat, s0: Status| #![trigger call_ensures(tan_at_w, (&x, w), y), rounds_to(y, p, mode, r, s0)]
            call_ensures(tan_at_w, (&x, w), y) && ziv_on_schedule(w as int, p as int) && rounds_to(y, p, mode, r, s0)
}

fn tan_kernel(x: &BigFloat, target: u32, mode: RoundingMode) -> (r: (BigFloat, Status))
    requires
        x.wf(),
        prec_ok(target as nat),
    ensures
        r.0.wf(),
        r.0.precision == target,
        tan_special(*x, r.0, r.1, target as nat),
        tan_value(*x, r.0, r.1, target as nat, mode),
{
    match &x.class {
        Class::Nan { .. } => return nan_in(x, target),
        Class::Zero { sign } => return (zero_at(*sign, target), Status { bits: 0 }),
        Class::Infinity { .. } => return (qnan_at(target), Status { bits: FLAG_INVALID }),
        Class::Normal { .. } => {},
    }
    let first = wadd(target, ZIV_BASE_GUARD as u64);
    if reduce(x, first).is_none() {
        proof {
            crate::types::lemma_or_inexact(0);
        }
        return (qnan_at(target), Status { bits: FLAG_INVALID });
    }
    let eval = |w: u32| -> (y: BigFloat)
        requires
            prec_ok(w as nat),
        ensures
            y.wf(),
            call_ensures(tan_at_w, (x, w), y),
    {
        tan_at_w(x, w)
    };
    let (result, status) = ziv_round(eval, target, mode, TAN_ERROR_GUARD);
    proof {
        let t = choose|t: ZivTrace| t.0 == result && t.1 == status && #[trigger] is_trace_of(eval, target as nat, mode, t)
            && ziv_on_schedule(t.2 as int, target as int);
        assert(call_ensures(tan_at_w, (x, t.2), t.3));
        assert(rounds_to(t.3, target as nat, mode, result, status));
    }
    let st1 = flag_nan_invalid(&result, status);
    let st = force_inexact(&result, st1);
    proof {
        crate::types::lemma_or_inexact(st1.bits);
    }
    (result, st)
}

impl BigFloat {
    /// `tan(self)` rounded under `mode` to the precision of
    /// `self`.
    pub fn tan(&self, mode: RoundingMode) -> (r: (BigFloat, Status))
        requires
            self.wf(),
        ensures
            r.0.wf(),
            r.0.precision == self.precision,
            tan_special(*self, r.0, r.1, self.precision as nat),
            tan_value(*self, r.0, r.1, self.precision as nat, mode),
    {
        tan_kernel(self, self.precision, mode)
    }

    /// `tan(self)` rounded under `mode` to
    /// `target_precision` bits.
    pub fn tan_round(&self, target_precision: u32, mode: RoundingMode) -> (r: Result<(BigFloat, Status), BuildError>)
        requires
            self.wf(),
        ensures
            r is Ok <==> prec_ok(target_precision as nat),
            target_precision == 0 ==> r == Err::<(BigFloat, Status), BuildError>(BuildError::PrecisionZero),
            r matches Ok(v) ==> v.0.wf() && v.0.precision == target_precision
                && tan_special(*self, v.0, v.1, target_precision as nat)
                && tan_value(*self, v.0, v.1, target_precision as nat, mode),
    {
        BigFloat::check_precision(target_precision)?;
        Ok(tan_kernel(self, target_precision, mode))
    }
}

impl<const PREC: u32> FixedFloat<PREC> {
    /// `tan(self)` at the fixed precision.
    pub fn tan(&self, mode: RoundingMode) -> (r: (FixedFloat<PREC>, Status))
        requires
            self.wf(),
        ensures
            r.0.wf(),
            tan_special(self.value(), r.0.value(), r.1, PREC as nat),
            tan_value(self.value(), r.0.value(), r.1, PREC as nat, mode),
            call_ensures(BigFloat::tan, (&self.value(), mode), (r.0.value(), r.1)),
    {
        let (big, st) = self.big_ref().tan(mode);
        (FixedFloat::wrap(big), st)
    }
}

} // verus!

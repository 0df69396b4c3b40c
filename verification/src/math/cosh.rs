//! `cosh(x) = (e^x + e^−x) / 2`, a sum of positive terms with no
//! cancellation, rounded through the Ziv driver.

use vstd::prelude::*;
use crate::types::{BigFloat, BuildError, Class, Sign, RoundingMode, Status, prec_ok};
use crate::float::{finite_value_is, nan_result};
use crate::fixed::FixedFloat;
use super::{int_at, one_at, rne, inf_at, nan_in};
use super::{rounds_to, added, divided, rounded_near};
use crate::arith::negation_of;
use super::ziv::{ziv_round, DEFAULT_ERROR_GUARD, ZivTrace, is_trace_of, ziv_on_schedule};

verus! {

/// Guard bits charged to one evaluation of the cosh kernel.
pub const COSH_ERROR_GUARD: u32 = DEFAULT_ERROR_GUARD;

/// The outcome `cosh` promises at the special inputs.
pub open spec fn cosh_special(x: BigFloat, r: BigFloat, st: Status, p: nat) -> bool {
    &&& (x.class is Nan ==> nan_result(r, st, x, p))
    &&& (x.class is Zero ==> finite_value_is(r, 1, 0) && !r.spec_neg() && st.bits == 0)
    &&& (x.class is Infinity ==> r.class == (Class::Infinity { sign: Sign::Positive }) && st.bits == 0)
}

/// `cosh(x)` at working precision `w`.
pub fn cosh_at_w(x: &BigFloat, w: u32) -> (y: BigFloat)
    requires
        x.wf(),
        prec_ok(w as nat),
    ensures
        y.wf(),
        exists|xw: BigFloat, nx: BigFloat, ep: BigFloat, eps: Status, en: BigFloat, ens: Status, s: BigFloat, two: BigFloat|
            #![trigger rounded_near(*x, w as nat, xw), negation_of(nx, xw), call_ensures(BigFloat::exp, (&xw, RoundingMode::NearestEven), (ep, eps)), call_ensures(BigFloat::exp, (&nx, RoundingMode::NearestEven), (en, ens)), added(ep, en, s), call_ensures(int_at, (2i64, w), two)]
            rounded_near(*x, w as nat, xw) && negation_of(nx, xw)
                && call_ensures(BigFloat::exp, (&xw, RoundingMode::NearestEven), (ep, eps))
                && call_ensures(BigFloat::exp, (&nx, RoundingMode::NearestEven), (en, ens)) && added(ep, en, s)
                && call_ensures(int_at, (2i64, w), two) && divided(s, two, y),
{
    let x_w = rne(x, w);
    let neg_x = x_w.negated();
    let (e_pos, eps) = x_w.exp(RoundingMode::NearestEven);
    let (e_neg, ens) = neg_x.exp(RoundingMode::NearestEven);
    let (sum, _) = e_pos.add(&e_neg, RoundingMode::NearestEven);
    let two = int_at(2, w);
    let y = sum.div(&two, RoundingMode::NearestEven).0;
    proof {
        assert(rounded_near(*x, w as nat, x_w));
        assert(negation_of(neg_x, x_w));
        assert(call_ensures(BigFloat::exp, (&x_w, RoundingMode::NearestEven), (e_pos, eps)));
        assert(call_ensures(BigFloat::exp, (&neg_x, RoundingMode::NearestEven), (e_neg, ens)));
        assert(added(e_pos, e_neg, sum));
        assert(call_ensures(int_at, (2i64, w), two));
        assert(divided(sum, two, y));
    }
    y
}

/// What `cosh` gives at a normal argument: the value [`cosh_at_w`]
/// computes at a working precision of the Ziv schedule, rounded to `p`
/// bits under `mode`.
pub open spec fn cosh_value(x: BigFloat, r: BigFloat, st: Status, p: nat, mode: RoundingMode) -> bool {
    x.class is Normal
        ==> exists|w: u32, y: BigFloat, s0: Status| #![trigger call_ensures(cosh_at_w, (&x, w), y), rounds_to(y, p, mode, r, s0)]
            call_ensures(cosh_at_w, (&x, w), y) && ziv_on_schedule(w as int, p as int) && rounds_to(y, p, mode, r, s0)
}

fn cosh_kernel(x: &BigFloat, target: u32, mode: RoundingMode) -> (r: (BigFloat, Status))
    requires
        x.wf(),
        prec_ok(target as nat),
    ensures
        r.0.wf(),
        r.0.precision == target,
        cosh_special(*x, r.0, r.1, target as nat),
        cosh_value(*x, r.0, r.1, target as nat, mode),
{
    match &x.class {
        Class::Nan { .. } => return nan_in(x, target),
        Class::Zero { .. } => return (one_at(target), Status { bits: 0 }),
        Class::Infinity { .. } => return (inf_at(Sign::Positive, target), Status { bits: 0 }),
        Class::Normal { .. } => {},
    }
    let eval = |w: u32| -> (y: BigFloat)
        requires
            prec_ok(w as nat),
        ensures
            y.wf(),
            call_ensures(cosh_at_w, (x, w), y),
    {
        cosh_at_w(x, w)
    };
    let (result, status) = ziv_round(eval, target, mode, COSH_ERROR_GUARD);
    proof {
        let t = choose|t: ZivTrace| t.0 == result && t.1 == status && #[trigger] is_trace_of(eval, target as nat, mode, t)
            && ziv_on_schedule(t.2 as int, target as int);
        assert(call_ensures(cosh_at_w, (x, t.2), t.3));
        assert(rounds_to(t.3, target as nat, mode, result, status));
    }
    (result, status)
}

impl BigFloat {
    /// `cosh(self)` rounded under `mode` to the precision of
    /// `self`.
    pub fn cosh(&self, mode: RoundingMode) -> (r: (BigFloat, Status))
        requires
            self.wf(),
        ensures
            r.0.wf(),
            r.0.precision == self.precision,
            cosh_special(*self, r.0, r.1, self.precision as nat),
            cosh_value(*self, r.0, r.1, self.precision as nat, mode),
    {
        cosh_kernel(self, self.precision, mode)
    }

    /// `cosh(self)` rounded under `mode` to
    /// `target_precision` bits.
    pub fn cosh_round(&self, target_precision: u32, mode: RoundingMode) -> (r: Result<(BigFloat, Status), BuildError>)
        requires
            self.wf(),
        ensures
            r is Ok <==> prec_ok(target_precision as nat),
            target_precision == 0 ==> r == Err::<(BigFloat, Status), BuildError>(BuildError::PrecisionZero),
            r matches Ok(v) ==> v.0.wf() && v.0.precision == target_precision
                && cosh_special(*self, v.0, v.1, target_precision as nat)
                && cosh_value(*self, v.0, v.1, target_precision as nat, mode),
    {
        BigFloat::check_precision(target_precision)?;
        Ok(cosh_kernel(self, target_precision, mode))
    }
}

impl<const PREC: u32> FixedFloat<PREC> {
    /// `cosh(self)` at the fixed precision.
    pub fn cosh(&self, mode: RoundingMode) -> (r: (FixedFloat<PREC>, Status))
        requires
            self.wf(),
        ensures
            r.0.wf(),
            cosh_special(self.value(), r.0.value(), r.1, PREC as nat),
            cosh_value(self.value(), r.0.value(), r.1, PREC as nat, mode),
            call_ensures(BigFloat::cosh, (&self.value(), mode), (r.0.value(), r.1)),
    {
        let (big, st) = self.big_ref().cosh(mode);
        (FixedFloat::wrap(big), st)
    }
}

} // verus!

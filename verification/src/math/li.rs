//! `li(x) = Ei(ln x)`, the logarithmic integral, with the working
//! precision raised by the cancellation near its root; correctly
//! rounded through the Ziv driver.

use vstd::prelude::*;
use crate::types::{BigFloat, BuildError, Class, Sign, RoundingMode, Status, FLAG_INVALID, FLAG_DIV_BY_ZERO, prec_ok};
use crate::float::nan_result;
use crate::fixed::FixedFloat;
use super::{rne, zero_at, inf_at, qnan_at, nan_in, is_unit, is_unit_exec};
use super::rounds_to;
use super::ziv::{ziv_round, cancellation_boosted, DEFAULT_ERROR_GUARD, ZivTrace, is_trace_of, ziv_on_schedule};

verus! {

/// Guard bits charged to one evaluation of the li kernel.
pub const LI_ERROR_GUARD: u32 = DEFAULT_ERROR_GUARD;

/// The outcome `li` promises at the special inputs: `li(±0) = +0`,
/// `li(1) = −∞` with DIV_BY_ZERO, `li(+∞) = +∞`, and negative
/// arguments give a quiet NaN with INVALID.
pub open spec fn li_special(x: BigFloat, r: BigFloat, st: Status, p: nat) -> bool {
    &&& (x.class is Nan ==> nan_result(r, st, x, p))
    &&& (x.class is Zero ==> r.class == (Class::Zero { sign: Sign::Positive }) && st.bits == 0)
    &&& (x.class == (Class::Infinity { sign: Sign::Positive }) ==> r.class == x.class && st.bits == 0)
    &&& ((x.class == (Class::Infinity { sign: Sign::Negative }) || (x.class is Normal && x.spec_neg()))
        ==> r.class is Nan && r.class->Nan_quiet && !r.spec_neg() && st.bits == FLAG_INVALID)
    &&& (is_unit(x, false) ==> r.class == (Class::Infinity { sign: Sign::Negative }) && st.bits == FLAG_DIV_BY_ZERO)
}

/// `li(x) = Ei(ln x)` at working precision `w`, re-evaluated wider
/// while the composition cancels.
pub fn li_at_w(x: &BigFloat, w: u32) -> (y: BigFloat)
    requires
        x.wf(),
        prec_ok(w as nat),
    ensures
        y.wf(),
        exists|ww: u32| #[trigger] li_composition(*x, ww, y),
{
    let inner = |ww: u32| -> (v: (BigFloat, i64))
        requires
            prec_ok(ww as nat),
        ensures
            v.0.wf(),
            li_composition(*x, ww, v.0),
    {
        li_compose_at(x, ww)
    };
    cancellation_boosted(w, inner)
}

/// `li(x) = Ei(ln x)` at `ww` bits: what `Ei` gives at what `ln` gives
/// at `x` rounded to nearest at `ww` bits.
pub open spec fn li_composition(x: BigFloat, ww: u32, y: BigFloat) -> bool {
    exists|xw: BigFloat, t: BigFloat, ts: Status, es: Status|
        #![trigger super::rounded_near(x, ww as nat, xw), call_ensures(BigFloat::ln, (&xw, RoundingMode::NearestEven), (t, ts)), call_ensures(BigFloat::ei, (&t, RoundingMode::NearestEven), (y, es))]
        super::rounded_near(x, ww as nat, xw) && call_ensures(BigFloat::ln, (&xw, RoundingMode::NearestEven), (t, ts))
            && call_ensures(BigFloat::ei, (&t, RoundingMode::NearestEven), (y, es))
}

/// One evaluation of `li(x) = Ei(ln x)` at `ww` bits, with the exponent
/// charged to its cancellation.
pub fn li_compose_at(x: &BigFloat, ww: u32) -> (v: (BigFloat, i64))
    requires
        x.wf(),
        prec_ok(ww as nat),
    ensures
        v.0.wf(),
        li_composition(*x, ww, v.0),
{
    let x_w = rne(x, ww);
    let (t, ts) = x_w.ln(RoundingMode::NearestEven);
    let (e, es) = t.ei(RoundingMode::NearestEven);
    proof {
        assert(super::rounded_near(*x, ww as nat, x_w));
        assert(call_ensures(BigFloat::ln, (&x_w, RoundingMode::NearestEven), (t, ts)));
        assert(call_ensures(BigFloat::ei, (&t, RoundingMode::NearestEven), (e, es)));
    }
    (e, 4)
}

/// What `li` gives at a positive normal argument other than one: the
/// value [`li_at_w`] computes at a working precision of the Ziv
/// schedule, rounded to `p` bits under `mode`.
pub open spec fn li_value(x: BigFloat, r: BigFloat, st: Status, p: nat, mode: RoundingMode) -> bool {
    x.class is Normal && !x.spec_neg() && !is_unit(x, false)
        ==> exists|w: u32, y: BigFloat, s0: Status| #![trigger call_ensures(li_at_w, (&x, w), y), rounds_to(y, p, mode, r, s0)]
            call_ensures(li_at_w, (&x, w), y) && ziv_on_schedule(w as int, p as int) && rounds_to(y, p, mode, r, s0)
}

fn li_kernel(x: &BigFloat, target: u32, mode: RoundingMode) -> (r: (BigFloat, Status))
    requires
        x.wf(),
        prec_ok(target as nat),
    ensures
        r.0.wf(),
        r.0.precision == target,
        li_special(*x, r.0, r.1, target as nat),
        li_value(*x, r.0, r.1, target as nat, mode),
{
    match &x.class {
        Class::Nan { .. } => return nan_in(x, target),
        Class::Zero { .. } => return (zero_at(Sign::Positive, target), Status { bits: 0 }),
        Class::Infinity { sign: Sign::Negative } => return (qnan_at(target), Status { bits: FLAG_INVALID }),
        Class::Infinity { sign: Sign::Positive } => return (inf_at(Sign::Positive, target), Status { bits: 0 }),
        Class::Normal { sign: Sign::Negative, .. } => return (qnan_at(target), Status { bits: FLAG_INVALID }),
        Class::Normal { .. } => {},
    }
    if is_unit_exec(x, false) {
        return (inf_at(Sign::Negative, target), Status { bits: FLAG_DIV_BY_ZERO });
    }
    let eval = |w: u32| -> (y: BigFloat)
        requires
            prec_ok(w as nat),
        ensures
            y.wf(),
            call_ensures(li_at_w, (x, w), y),
    {
        li_at_w(x, w)
    };
    let (result, status) = ziv_round(eval, target, mode, LI_ERROR_GUARD);
    proof {
        let t = choose|t: ZivTrace| t.0 == result && t.1 == status && #[trigger] is_trace_of(eval, target as nat, mode, t)
            && ziv_on_schedule(t.2 as int, target as int);
        assert(call_ensures(li_at_w, (x, t.2), t.3));
        assert(rounds_to(t.3, target as nat, mode, result, status));
    }
    (result, status)
}

impl BigFloat {
    /// `li(self)` rounded under `mode` to the precision of
    /// `self`.
    pub fn li(&self, mode: RoundingMode) -> (r: (BigFloat, Status))
        requires
            self.wf(),
        ensures
            r.0.wf(),
            r.0.precision == self.precision,
            li_special(*self, r.0, r.1, self.precision as nat),
            li_value(*self, r.0, r.1, self.precision as nat, mode),
    {
        li_kernel(self, self.precision, mode)
    }

    /// `li(self)` rounded under `mode` to `target_precision`
    /// bits.
    pub fn li_round(&self, target_precision: u32, mode: RoundingMode) -> (r: Result<(BigFloat, Status), BuildError>)
        requires
            self.wf(),
        ensures
            r is Ok <==> prec_ok(target_precision as nat),
            target_precision == 0 ==> r == Err::<(BigFloat, Status), BuildError>(BuildError::PrecisionZero),
            r matches Ok(v) ==> v.0.wf() && v.0.precision == target_precision
                && li_special(*self, v.0, v.1, target_precision as nat)
                && li_value(*self, v.0, v.1, target_precision as nat, mode),
    {
        BigFloat::check_precision(target_precision)?;
        Ok(li_kernel(self, target_precision, mode))
    }
}

impl<const PREC: u32> FixedFloat<PREC> {
    /// `li(self)` at the fixed precision.
    pub fn li(&self, mode: RoundingMode) -> (r: (FixedFloat<PREC>, Status))
        requires
            self.wf(),
        ensures
            r.0.wf(),
            li_special(self.value(), r.0.value(), r.1, PREC as nat),
            li_value(self.value(), r.0.value(), r.1, PREC as nat, mode),
            call_ensures(BigFloat::li, (&self.value(), mode), (r.0.value(), r.1)),
    {
        let (big, st) = self.big_ref().li(mode);
        (FixedFloat::wrap(big), st)
    }
}

} // verus!

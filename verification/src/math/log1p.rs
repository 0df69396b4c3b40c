//! `log1p(x) = ln(1 + x)`, with the working precision raised by the
//! cancellation in `1 + x` near zero, rounded through the
//! Ziv driver.

use vstd::prelude::*;
use crate::types::{BigFloat, BuildError, Class, Sign, RoundingMode, Status, FLAG_INVALID, FLAG_DIV_BY_ZERO, prec_ok};
use crate::float::nan_result;
use crate::fixed::FixedFloat;
use super::{wadd, one_at, rne, zero_at, inf_at, qnan_at, exponent_of, nan_in, is_unit, is_unit_exec, round_with_infinitesimal};
use super::pow::{mag_gt_one, mag_gt_one_exec};
use super::ziv::{ziv_round, DEFAULT_ERROR_GUARD, ZivTrace, is_trace_of, ziv_on_schedule};
use super::{rounds_to, added, rounded_near};

verus! {

/// Guard bits charged to one evaluation of the log1p kernel.
pub const LOG1P_ERROR_GUARD: u32 = DEFAULT_ERROR_GUARD;

/// What `log1p` gives at a tiny argument: `x` moved by an
/// infinitesimal toward zero for `x > 0` and away from zero for
/// `x < 0` (`log1p x = x − x²/2 + …`), rounded under `mode`.
pub open spec fn log1p_tiny(x: BigFloat, r: BigFloat, st: Status, p: nat, mode: RoundingMode) -> bool {
    x.class is Normal && x.class->Normal_exponent <= -(p + 8) && x.class->Normal_exponent <= -(x.precision + 3)
        ==> super::nudged(x, !x.spec_neg(), p, mode, r, st)
}

/// The outcome `log1p` promises at the special inputs: signed zeros
/// are kept, `−1` gives `−∞` with DIV_BY_ZERO, and arguments below
/// `−1` give a quiet NaN with INVALID.
pub open spec fn log1p_special(x: BigFloat, r: BigFloat, st: Status, p: nat) -> bool {
    &&& (x.class is Nan ==> nan_result(r, st, x, p))
    &&& (x.class is Zero ==> r.class == x.class && st.bits == 0)
    &&& (x.class == (Class::Infinity { sign: Sign::Positive }) ==> r.class == (Class::Infinity { sign: Sign::Positive }) && st.bits == 0)
    &&& (is_unit(x, true) ==> r.class == (Class::Infinity { sign: Sign::Negative }) && st.bits == FLAG_DIV_BY_ZERO)
    &&& ((x.class == (Class::Infinity { sign: Sign::Negative }) || (x.class is Normal && x.spec_neg() && mag_gt_one(x)))
        ==> r.class is Nan && r.class->Nan_quiet && !r.spec_neg() && st.bits == FLAG_INVALID)
}

/// Every finite argument other than `−1` and those below it raises
/// neither INVALID nor DIV_BY_ZERO: only the flags of a rounding.
pub open spec fn log1p_ordinary(x: BigFloat, st: Status) -> bool {
    x.class is Normal && !is_unit(x, true) && !(x.spec_neg() && mag_gt_one(x)) ==> super::rounding_flags(st)
}

/// Bits added to the working precision for the cancellation in `1 + x`
/// at a binary exponent `e`: `−e` for `e < 0`, at most `2^20`.
pub open spec fn log1p_boost(e: i64) -> u64 {
    if e < 0 { if e < -0x10_0000 { 0x10_0000 } else { (-e) as u64 } } else { 0 }
}

/// What `log1p` gives at the normal arguments above `−1` that are not
/// tiny: the value [`log1p_at_w`] computes at a working precision of
/// the Ziv schedule, rounded to `p` bits under `mode`.
pub open spec fn log1p_value(x: BigFloat, r: BigFloat, p: nat, mode: RoundingMode) -> bool {
    let e = x.class->Normal_exponent;
    x.class is Normal && !is_unit(x, true) && !(x.spec_neg() && mag_gt_one(x))
        && !(e <= -(p + 8) && e <= -(x.precision + 3))
        ==> exists|w: u32, y: BigFloat, st: Status| #![trigger call_ensures(log1p_at_w, (&x, log1p_boost(e), w), y), rounds_to(y, p, mode, r, st)]
            call_ensures(log1p_at_w, (&x, log1p_boost(e), w), y) && ziv_on_schedule(w as int, p as int)
                && rounds_to(y, p, mode, r, st)
}

/// `ln(1 + x)` at working precision `w`, with `1 + x` formed `boost`
/// bits wider (and at least at `x`'s own precision).
pub fn log1p_at_w(x: &BigFloat, boost: u64, w: u32) -> (y: BigFloat)
    requires
        x.wf(),
        prec_ok(w as nat),
    ensures
        y.wf(),
        exists|b: u32, iw: u32, xw: BigFloat, one: BigFloat, opx: BigFloat, lv: BigFloat, ls: Status|
            #![trigger call_ensures(wadd, (w, boost), b), rounded_near(*x, iw as nat, xw), call_ensures(one_at, (iw,), one), added(one, xw, opx), call_ensures(BigFloat::ln, (&opx, RoundingMode::NearestEven), (lv, ls))]
            call_ensures(wadd, (w, boost), b) && iw == (if b >= x.precision { b } else { x.precision })
                && rounded_near(*x, iw as nat, xw) && call_ensures(one_at, (iw,), one) && added(one, xw, opx)
                && call_ensures(BigFloat::ln, (&opx, RoundingMode::NearestEven), (lv, ls)) && rounded_near(lv, w as nat, y),
{
    let boosted = wadd(w, boost);
    let inner_w = if boosted >= x.precision { boosted } else { x.precision };
    let x_w = rne(x, inner_w);
    let one = one_at(inner_w);
    let (one_plus_x, _) = one.add(&x_w, RoundingMode::NearestEven);
    let (ln_val, ls) = one_plus_x.ln(RoundingMode::NearestEven);
    let y = rne(&ln_val, w);
    proof {
        assert(call_ensures(wadd, (w, boost), boosted));
        assert(rounded_near(*x, inner_w as nat, x_w));
        assert(call_ensures(one_at, (inner_w,), one));
        assert(added(one, x_w, one_plus_x));
        assert(call_ensures(BigFloat::ln, (&one_plus_x, RoundingMode::NearestEven), (ln_val, ls)));
        assert(rounded_near(ln_val, w as nat, y));
    }
    y
}

fn log1p_kernel(x: &BigFloat, target: u32, mode: RoundingMode) -> (r: (BigFloat, Status))
    requires
        x.wf(),
        prec_ok(target as nat),
    ensures
        r.0.wf(),
        r.0.precision == target,
        log1p_special(*x, r.0, r.1, target as nat),
        log1p_tiny(*x, r.0, r.1, target as nat, mode),
        log1p_ordinary(*x, r.1),
        log1p_value(*x, r.0, target as nat, mode),
{
    match &x.class {
        Class::Nan { .. } => return nan_in(x, target),
        Class::Zero { sign } => return (zero_at(*sign, target), Status { bits: 0 }),
        Class::Infinity { sign: Sign::Positive } => return (inf_at(Sign::Positive, target), Status { bits: 0 }),
        Class::Infinity { sign: Sign::Negative } => return (qnan_at(target), Status { bits: FLAG_INVALID }),
        Class::Normal { .. } => {},
    }
    if is_unit_exec(x, true) {
        return (inf_at(Sign::Negative, target), Status { bits: FLAG_DIV_BY_ZERO });
    }
    if x.is_sign_negative() && mag_gt_one_exec(x) {
        return (qnan_at(target), Status { bits: FLAG_INVALID });
    }
    let e = exponent_of(x);
    if e <= -(target as i64 + 8) && e <= -(x.precision as i64 + 3) {
        let (v, st) = round_with_infinitesimal(x, !x.is_sign_negative(), target, mode);
        proof {
            super::lemma_round_result_flags(v, st, (x.sig() * vstd::arithmetic::power2::pow2(target as nat + 3) - (if !x.spec_neg() { 1int } else { 0 })) as nat,
                true, x.lsb_exp() - (target as nat + 3), target as nat, x.spec_neg(), mode);
        }
        return (v, st);
    }
    let boost: u64 = if e < 0 { if e < -0x10_0000 { 0x10_0000 } else { (-e) as u64 } } else { 0 };
    proof {
        assert(boost == log1p_boost(e));
    }
    let eval = |w: u32| -> (y: BigFloat)
        requires
            prec_ok(w as nat),
        ensures
            y.wf(),
            call_ensures(log1p_at_w, (x, boost, w), y),
    {
        log1p_at_w(x, boost, w)
    };
    let (result, status) = ziv_round(eval, target, mode, LOG1P_ERROR_GUARD);
    proof {
        let t = choose|t: ZivTrace| t.0 == result && t.1 == status && #[trigger] is_trace_of(eval, target as nat, mode, t)
            && ziv_on_schedule(t.2 as int, target as int);
        assert(call_ensures(log1p_at_w, (x, boost, t.2), t.3));
        assert(rounds_to(t.3, target as nat, mode, result, status));
    }
    (result, status)
}

impl BigFloat {
    /// `ln(1 + self)` rounded under `mode` to the precision
    /// of `self`.
    pub fn log1p(&self, mode: RoundingMode) -> (r: (BigFloat, Status))
        requires
            self.wf(),
        ensures
            r.0.wf(),
            r.0.precision == self.precision,
            log1p_special(*self, r.0, r.1, self.precision as nat),
            log1p_tiny(*self, r.0, r.1, self.precision as nat, mode),
            log1p_ordinary(*self, r.1),
            log1p_value(*self, r.0, self.precision as nat, mode),
    {
        log1p_kernel(self, self.precision, mode)
    }

    /// `ln(1 + self)` rounded under `mode` to
    /// `target_precision` bits.
    pub fn log1p_round(&self, target_precision: u32, mode: RoundingMode) -> (r: Result<(BigFloat, Status), BuildError>)
        requires
            self.wf(),
        ensures
            r is Ok <==> prec_ok(target_precision as nat),
            target_precision == 0 ==> r == Err::<(BigFloat, Status), BuildError>(BuildError::PrecisionZero),
            r matches Ok(v) ==> v.0.wf() && v.0.precision == target_precision
                && log1p_special(*self, v.0, v.1, target_precision as nat)
                && log1p_tiny(*self, v.0, v.1, target_precision as nat, mode)
                && log1p_ordinary(*self, v.1)
                && log1p_value(*self, v.0, target_precision as nat, mode),
    {
        BigFloat::check_precision(target_precision)?;
        Ok(log1p_kernel(self, target_precision, mode))
    }
}

impl<const PREC: u32> FixedFloat<PREC> {
    /// `ln(1 + self)` at the fixed precision.
    pub fn log1p(&self, mode: RoundingMode) -> (r: (FixedFloat<PREC>, Status))
        requires
            self.wf(),
        ensures
            r.0.wf(),
            log1p_special(self.value(), r.0.value(), r.1, PREC as nat),
            log1p_tiny(self.value(), r.0.value(), r.1, PREC as nat, mode),
            log1p_ordinary(self.value(), r.1),
            log1p_value(self.value(), r.0.value(), PREC as nat, mode),
            call_ensures(BigFloat::log1p, (&self.value(), mode), (r.0.value(), r.1)),
    {
        let (big, st) = self.big_ref().log1p(mode);
        (FixedFloat::wrap(big), st)
    }
}

} // verus!

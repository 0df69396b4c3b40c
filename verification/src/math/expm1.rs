//! `expm1(x) = e^x − 1`, evaluated with the working precision raised
//! by the cancellation near zero, rounded through the Ziv
//! driver.

use vstd::prelude::*;
use crate::types::{BigFloat, BuildError, Class, Sign, RoundingMode, Status, FLAG_INEXACT, FLAG_INVALID, FLAG_DIV_BY_ZERO, prec_ok, MAX_PRECISION};
use crate::float::{finite_value_is, nan_result};
use crate::fixed::FixedFloat;
use super::{wp, wadd, int_at, one_at, rnd, rne, zero_at, inf_at, qnan_at, exponent_of, nan_in, ln_2_at, ln_10_at, is_unit, is_unit_exec, round_with_infinitesimal, force_inexact};
use super::exp::{has_inexact, exp_certain_overflow, exp_deep_underflow};
use super::ziv::{ziv_round, ziv_round_with_depth, DEFAULT_ERROR_GUARD, ZivTrace, is_trace_of, ziv_on_schedule};
use super::{rounds_to, subtracted, rounded_near};

verus! {

/// Guard bits charged to one evaluation of the expm1 kernel.
pub const EXPM1_ERROR_GUARD: u32 = DEFAULT_ERROR_GUARD;

/// What `expm1` gives at a tiny argument: `x` itself, moved by an
/// infinitesimal away from zero for `x > 0` and toward zero for
/// `x < 0` (`expm1(x) = x + x²/2 + …`), rounded under `mode`.
pub open spec fn expm1_tiny(x: BigFloat, r: BigFloat, st: Status, p: nat, mode: RoundingMode) -> bool {
    x.class is Normal && x.class->Normal_exponent <= -(p + 2) && x.class->Normal_exponent <= -(x.precision + 3)
        ==> super::nudged(x, x.spec_neg(), p, mode, r, st)
}

/// The outcome `expm1` promises at the special inputs.
pub open spec fn expm1_special(x: BigFloat, r: BigFloat, st: Status, p: nat) -> bool {
    &&& (x.class is Nan ==> nan_result(r, st, x, p))
    &&& (x.class is Zero ==> r.class == x.class && st.bits == 0)
    &&& (x.class == (Class::Infinity { sign: Sign::Positive }) ==> r.class == (Class::Infinity { sign: Sign::Positive }) && st.bits == 0)
    &&& (x.class == (Class::Infinity { sign: Sign::Negative }) ==> finite_value_is(r, -1, 0) && st.bits == 0)
}

/// Smallest exponent at which `e^x` for `x ≤ −2^e` lies below the last
/// bit of `−1` at precision `p`.
pub fn saturation_threshold_exponent(p: u32) -> (e: i64)
    ensures
        2 <= e <= 66,
        e == crate::round::bits(p as nat) + 2,
{
    let b = crate::limbs::bit_len_u64(p as u64);
    proof {
        if p > 0 {
            crate::round::lemma_bits_unique(p as nat, b as nat);
        }
    }
    b as i64 + 2
}

/// What `expm1` gives from `x ≤ −2^(bits(p)+2)` on, where `e^x` lies
/// below the last bit of `−1`: `−1` moved by an infinitesimal toward
/// zero, rounded under `mode`.
pub open spec fn expm1_saturated(x: BigFloat, r: BigFloat, st: Status, p: nat, mode: RoundingMode) -> bool {
    x.class is Normal && x.spec_neg() && x.class->Normal_exponent >= crate::round::bits(p) + 2
        && !(x.class->Normal_exponent <= -(p + 2) && x.class->Normal_exponent <= -(x.precision + 3))
        ==> exists|m: BigFloat| #[trigger] finite_value_is(m, -1, 0) && m.precision == p && super::nudged(m, true, p, mode, r, st)
}

/// What `expm1` gives from `x ≥ 2^61` on: what `exp` gives at `x`.
pub open spec fn expm1_large(x: BigFloat, r: BigFloat, st: Status, p: nat, mode: RoundingMode) -> bool {
    x.class is Normal && !x.spec_neg() && x.class->Normal_exponent >= 61
        ==> call_ensures(BigFloat::exp_round, (&x, p as u32, mode), (r, st))
}

/// What `expm1` gives at the remaining normal arguments: the value
/// [`expm1_at_w`] computes at a working precision of the Ziv schedule,
/// rounded to `p` bits under `mode`.
pub open spec fn expm1_ordinary(x: BigFloat, r: BigFloat, p: nat, mode: RoundingMode) -> bool {
    let e = x.class->Normal_exponent;
    x.class is Normal && !(e <= -(p + 2) && e <= -(x.precision + 3))
        && !(x.spec_neg() && e >= crate::round::bits(p) + 2) && !(!x.spec_neg() && e >= 61)
        ==> exists|w: u32, y: BigFloat, st: Status| #![trigger call_ensures(expm1_at_w, (&x, expm1_cancellation(e), w), y), rounds_to(y, p, mode, r, st)]
            call_ensures(expm1_at_w, (&x, expm1_cancellation(e), w), y) && ziv_on_schedule(w as int, p as int)
                && rounds_to(y, p, mode, r, st)
}

/// Bits added to the working precision for the cancellation in
/// `e^x − 1` at a binary exponent `e`: `−e` for `e < 0`, at most `2^20`.
pub open spec fn expm1_cancellation(e: i64) -> u64 {
    if e < 0 { if e < -0x10_0000 { 0x10_0000 } else { (-e) as u64 } } else { 0 }
}

/// `e^x − 1` at working precision `w`, with `e^x` taken `cancellation`
/// bits wider.
pub fn expm1_at_w(x: &BigFloat, cancellation: u64, w: u32) -> (y: BigFloat)
    requires
        x.wf(),
        prec_ok(w as nat),
    ensures
        y.wf(),
        exists|iw: u32, xw: BigFloat, ex: BigFloat, es: Status, one: BigFloat, d: BigFloat|
            #![trigger call_ensures(wadd, (w, cancellation), iw), rounded_near(*x, iw as nat, xw), call_ensures(BigFloat::exp, (&xw, RoundingMode::NearestEven), (ex, es)), call_ensures(one_at, (iw,), one), subtracted(ex, one, d)]
            call_ensures(wadd, (w, cancellation), iw) && rounded_near(*x, iw as nat, xw)
                && call_ensures(BigFloat::exp, (&xw, RoundingMode::NearestEven), (ex, es))
                && call_ensures(one_at, (iw,), one) && subtracted(ex, one, d) && rounded_near(d, w as nat, y),
{
    let inner_w = wadd(w, cancellation);
    let x_w = rne(x, inner_w);
    let (e_x, es) = x_w.exp(RoundingMode::NearestEven);
    let one = one_at(inner_w);
    let (diff, _) = e_x.sub(&one, RoundingMode::NearestEven);
    let y = rne(&diff, w);
    proof {
        assert(call_ensures(wadd, (w, cancellation), inner_w));
        assert(rounded_near(*x, inner_w as nat, x_w));
        assert(call_ensures(BigFloat::exp, (&x_w, RoundingMode::NearestEven), (e_x, es)));
        assert(call_ensures(one_at, (inner_w,), one));
        assert(subtracted(e_x, one, diff));
        assert(rounded_near(diff, w as nat, y));
    }
    y
}

fn expm1_kernel(x: &BigFloat, target: u32, mode: RoundingMode) -> (r: (BigFloat, Status))
    requires
        x.wf(),
        prec_ok(target as nat),
    ensures
        r.0.wf(),
        r.0.precision == target,
        expm1_special(*x, r.0, r.1, target as nat),
        expm1_tiny(*x, r.0, r.1, target as nat, mode),
        expm1_saturated(*x, r.0, r.1, target as nat, mode),
        expm1_large(*x, r.0, r.1, target as nat, mode),
        expm1_ordinary(*x, r.0, target as nat, mode),
{
    match &x.class {
        Class::Nan { .. } => return nan_in(x, target),
        Class::Zero { sign } => return (zero_at(*sign, target), Status { bits: 0 }),
        Class::Infinity { sign: Sign::Positive } => return (inf_at(Sign::Positive, target), Status { bits: 0 }),
        Class::Infinity { sign: Sign::Negative } => return (minus_one_at(target), Status { bits: 0 }),
        Class::Normal { .. } => {},
    }
    let e = exponent_of(x);
    if e <= -(target as i64 + 2) && e <= -(x.precision as i64 + 3) {
        return round_with_infinitesimal(x, x.is_sign_negative(), target, mode);
    }
    if x.is_sign_negative() && e >= saturation_threshold_exponent(target) {
        let m1 = minus_one_at(target);
        let (v, st) = round_with_infinitesimal(&m1, true, target, mode);
        proof {
            assert(finite_value_is(m1, -1, 0) && m1.precision == target && super::nudged(m1, true, target as nat, mode, v, st));
        }
        return (v, st);
    }
    if !x.is_sign_negative() && e >= 61 {
        return x.exp_round(target, mode);
    }
    let cancellation: u64 = if e < 0 { if e < -0x10_0000 { 0x10_0000 } else { (-e) as u64 } } else { 0 };
    proof {
        assert(cancellation == expm1_cancellation(e));
    }
    let eval = |w: u32| -> (y: BigFloat)
        requires
            prec_ok(w as nat),
        ensures
            y.wf(),
            call_ensures(expm1_at_w, (x, cancellation, w), y),
    {
        expm1_at_w(x, cancellation, w)
    };
    let in_precision = x.precision;
    let depth_hint = || -> (d: u32) {
        if e < 0 {
            let d: u64 = if e < -0x4_0000 { 0xc_0000 } else { (3 * (-e)) as u64 };
            let d2: u64 = if d > in_precision as u64 { d } else { in_precision as u64 };
            (d2 + 64) as u32
        } else {
            0
        }
    };
    let (result, status) = ziv_round_with_depth(eval, target, mode, EXPM1_ERROR_GUARD, depth_hint);
    let st = force_inexact(&result, status);
    proof {
        let t = choose|t: ZivTrace| t.0 == result && t.1 == status && #[trigger] is_trace_of(eval, target as nat, mode, t)
            && ziv_on_schedule(t.2 as int, target as int);
        assert(call_ensures(expm1_at_w, (x, cancellation, t.2), t.3));
        assert(rounds_to(t.3, target as nat, mode, result, status));
    }
    (result, st)
}

/// `−1` at precision `p`, exactly.
pub fn minus_one_at(p: u32) -> (r: BigFloat)
    requires
        prec_ok(p as nat),
    ensures
        r.wf(),
        r.precision == p,
        r.class is Normal,
        r.spec_neg(),
        finite_value_is(r, -1, 0),
{
    let o = one_at(p);
    let m = o.negated();
    proof {
        if o.lsb_exp() >= 0 {
            let k = o.lsb_exp() as nat;
            assert((-(o.sig() as int)) * vstd::arithmetic::power2::pow2(k) == -((o.sig() as int) * vstd::arithmetic::power2::pow2(k))) by (nonlinear_arith);
        }
    }
    m
}

impl BigFloat {
    /// `e^self − 1` rounded under `mode` to the precision of
    /// `self`.
    pub fn expm1(&self, mode: RoundingMode) -> (r: (BigFloat, Status))
        requires
            self.wf(),
        ensures
            r.0.wf(),
            r.0.precision == self.precision,
            expm1_special(*self, r.0, r.1, self.precision as nat),
            expm1_tiny(*self, r.0, r.1, self.precision as nat, mode),
            expm1_saturated(*self, r.0, r.1, self.precision as nat, mode),
            expm1_large(*self, r.0, r.1, self.precision as nat, mode),
            expm1_ordinary(*self, r.0, self.precision as nat, mode),
    {
        expm1_kernel(self, self.precision, mode)
    }

    /// `e^self − 1` rounded under `mode` to `target_precision`
    /// bits.
    pub fn expm1_round(&self, target_precision: u32, mode: RoundingMode) -> (r: Result<(BigFloat, Status), BuildError>)
        requires
            self.wf(),
        ensures
            r is Ok <==> prec_ok(target_precision as nat),
            target_precision == 0 ==> r == Err::<(BigFloat, Status), BuildError>(BuildError::PrecisionZero),
            r matches Ok(v) ==> v.0.wf() && v.0.precision == target_precision
                && expm1_special(*self, v.0, v.1, target_precision as nat)
                && expm1_tiny(*self, v.0, v.1, target_precision as nat, mode)
                && expm1_saturated(*self, v.0, v.1, target_precision as nat, mode)
                && expm1_large(*self, v.0, v.1, target_precision as nat, mode)
                && expm1_ordinary(*self, v.0, target_precision as nat, mode),
    {
        BigFloat::check_precision(target_precision)?;
        Ok(expm1_kernel(self, target_precision, mode))
    }
}

impl<const PREC: u32> FixedFloat<PREC> {
    /// `e^self − 1` at the fixed precision.
    pub fn expm1(&self, mode: RoundingMode) -> (r: (FixedFloat<PREC>, Status))
        requires
            self.wf(),
        ensures
            r.0.wf(),
            expm1_special(self.value(), r.0.value(), r.1, PREC as nat),
            expm1_tiny(self.value(), r.0.value(), r.1, PREC as nat, mode),
            expm1_saturated(self.value(), r.0.value(), r.1, PREC as nat, mode),
            expm1_large(self.value(), r.0.value(), r.1, PREC as nat, mode),
            expm1_ordinary(self.value(), r.0.value(), PREC as nat, mode),
            call_ensures(BigFloat::expm1, (&self.value(), mode), (r.0.value(), r.1)),
    {
        let (big, st) = self.big_ref().expm1(mode);
        (FixedFloat::wrap(big), st)
    }
}

} // verus!

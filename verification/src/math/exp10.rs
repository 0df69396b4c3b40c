//! `exp10(x) = 10^x`: exact at small nonnegative integer arguments,
//! otherwise `exp(x·ln 10)` rounded through the Ziv driver.

use vstd::prelude::*;
use crate::types::{BigFloat, BuildError, Class, Sign, RoundingMode, Status, FLAG_INEXACT, FLAG_INVALID, FLAG_DIV_BY_ZERO, prec_ok, MAX_PRECISION};
use crate::float::{finite_value_is, nan_result};
use crate::fixed::FixedFloat;
use super::{wp, wadd, int_at, one_at, rnd, rne, zero_at, inf_at, qnan_at, exponent_of, nan_in, ln_2_at, ln_10_at, is_unit, is_unit_exec, round_with_infinitesimal, force_inexact};
use super::exp::{has_inexact, exp_certain_overflow, exp_deep_underflow};
use super::ziv::{ziv_round, ziv_round_with_depth, DEFAULT_ERROR_GUARD, ZivTrace, is_trace_of, ziv_on_schedule};
use super::{rounds_to, multiplied, rounded_near};
use super::exp::positive_rounding_outcome;
use super::pow::{integer_exponent, ten_pow_if_fits, small_int, lemma_int_magnitude};
use crate::round::rounding_inexact;
use vstd::arithmetic::power::pow;

verus! {

/// Guard bits charged to one evaluation of the exp10 kernel.
pub const EXP10_ERROR_GUARD: u32 = DEFAULT_ERROR_GUARD;

/// What `exp10` gives past `|x| ≥ 2^62`, where `|x|·log2(10)` exceeds
/// `2^63`: the overflow result for `x > 0`, the deep-underflow result
/// for `x < 0`.
pub open spec fn exp10_rim(x: BigFloat, r: BigFloat, st: Status, p: nat, mode: RoundingMode) -> bool {
    x.class is Normal && x.class->Normal_exponent >= 62 ==> if x.spec_neg() {
        super::exp::deep_underflow_result(r, st, p, mode)
    } else {
        super::exp::overflow_result(r, st, p, mode)
    }
}

/// The outcome `exp10` promises at the special inputs.
pub open spec fn exp10_special(x: BigFloat, r: BigFloat, st: Status, p: nat) -> bool {
    &&& (x.class is Nan ==> nan_result(r, st, x, p))
    &&& (x.class is Zero ==> finite_value_is(r, 1, 0) && st.bits == 0)
    &&& (x.class == (Class::Infinity { sign: Sign::Positive }) ==> r.class == (Class::Infinity { sign: Sign::Positive }) && st.bits == 0)
    &&& (x.class == (Class::Infinity { sign: Sign::Negative }) ==> r.class == (Class::Zero { sign: Sign::Positive }) && st.bits == 0)
    &&& (x.class is Normal && exact_power_of_ten(x, p) ==> finite_value_is(r, pow(10, small_int(x)->0 as nat), 0)
        && !r.spec_neg() && st.bits == 0)
    &&& (x.class is Normal && !exact_power_of_ten(x, p) ==> has_inexact(st))
}

/// `x` is an integer `k` with `0 ≤ k < p` and `10^k` is exact in `p`
/// bits.
pub open spec fn exact_power_of_ten(x: BigFloat, p: nat) -> bool {
    small_int(x) matches Some(k) && 0 <= k < p && !rounding_inexact(pow(10, k as nat) as nat, false, p)
}

/// What `exp10` gives at the normal arguments below `|x| < 2^62` other
/// than the exact powers: the value [`exp10_at_w`] computes at a
/// working precision of the Ziv schedule, rounded as
/// [`positive_rounding_outcome`] says.
pub open spec fn exp10_value(x: BigFloat, r: BigFloat, st: Status, p: nat, mode: RoundingMode) -> bool {
    x.class is Normal && !exact_power_of_ten(x, p) && x.class->Normal_exponent < 62
        ==> exists|w: u32, y: BigFloat| #[trigger] call_ensures(exp10_at_w, (&x, w), y)
            && ziv_on_schedule(w as int, p as int) && positive_rounding_outcome(y, p, mode, r, st)
}

/// `10^x` at working precision `w`, as `e^(x·ln 10)`.
pub fn exp10_at_w(x: &BigFloat, w: u32) -> (y: BigFloat)
    requires
        x.wf(),
        prec_ok(w as nat),
    ensures
        y.wf(),
        exists|xw: BigFloat, l10: BigFloat, pr: BigFloat, ev: BigFloat, es: Status|
            #![trigger rounded_near(*x, w as nat, xw), call_ensures(ln_10_at, (w,), l10), multiplied(xw, l10, pr), call_ensures(BigFloat::exp, (&pr, RoundingMode::NearestEven), (ev, es))]
            rounded_near(*x, w as nat, xw) && call_ensures(ln_10_at, (w,), l10) && multiplied(xw, l10, pr)
                && call_ensures(BigFloat::exp, (&pr, RoundingMode::NearestEven), (ev, es)) && rounded_near(ev, w as nat, y),
{
    let x_w = rne(x, w);
    let ln_10 = ln_10_at(w);
    let (product, _) = x_w.mul(&ln_10, RoundingMode::NearestEven);
    let (e_val, es) = product.exp(RoundingMode::NearestEven);
    let y = rne(&e_val, w);
    proof {
        assert(rounded_near(*x, w as nat, x_w));
        assert(call_ensures(ln_10_at, (w,), ln_10));
        assert(multiplied(x_w, ln_10, product));
        assert(call_ensures(BigFloat::exp, (&product, RoundingMode::NearestEven), (e_val, es)));
        assert(rounded_near(e_val, w as nat, y));
    }
    y
}

fn exp10_kernel(x: &BigFloat, target: u32, mode: RoundingMode) -> (r: (BigFloat, Status))
    requires
        x.wf(),
        prec_ok(target as nat),
    ensures
        r.0.wf(),
        r.0.precision == target,
        exp10_special(*x, r.0, r.1, target as nat),
        exp10_rim(*x, r.0, r.1, target as nat, mode),
        exp10_value(*x, r.0, r.1, target as nat, mode),
{
    match &x.class {
        Class::Nan { .. } => return nan_in(x, target),
        Class::Zero { .. } => return (one_at(target), Status { bits: 0 }),
        Class::Infinity { sign: Sign::Positive } => return (inf_at(Sign::Positive, target), Status { bits: 0 }),
        Class::Infinity { sign: Sign::Negative } => return (zero_at(Sign::Positive, target), Status { bits: 0 }),
        Class::Normal { .. } => {},
    }
    proof {
        lemma_int_magnitude(*x);
        vstd::arithmetic::power2::lemma2_to64_rest();
        if x.class->Normal_exponent >= 62 {
            super::pow::lemma_pow2_le(62, x.class->Normal_exponent as nat);
        }
    }
    match integer_exponent(x) {
        Some(k) => {
            if k >= 0 {
                proof {
                    assert((k as u64) as nat == k as nat);
                }
                match ten_pow_if_fits(k as u64, target) {
                    Some(v) => return (v, Status { bits: 0 }),
                    None => {},
                }
            }
        },
        None => {},
    }
    let e_x = exponent_of(x);
    if e_x >= 62 {
        let (v, st) = if x.is_sign_negative() { exp_deep_underflow(target, mode) } else { exp_certain_overflow(target, mode) };
        proof {
            crate::types::lemma_or_inexact(st.bits);
        }
        return (v, st);
    }
    let eval = |w: u32| -> (y: BigFloat)
        requires
            prec_ok(w as nat),
        ensures
            y.wf(),
            call_ensures(exp10_at_w, (x, w), y),
    {
        exp10_at_w(x, w)
    };
    let (result, status) = ziv_round(eval, target, mode, EXP10_ERROR_GUARD);
    let ghost t = choose|t: ZivTrace| t.0 == result && t.1 == status && #[trigger] is_trace_of(eval, target as nat, mode, t)
        && ziv_on_schedule(t.2 as int, target as int);
    proof {
        assert(call_ensures(exp10_at_w, (x, t.2), t.3));
        assert(rounds_to(t.3, target as nat, mode, result, status));
    }
    if result.is_infinite() {
        let (v, st) = exp_certain_overflow(target, mode);
        proof {
            crate::types::lemma_or_inexact(st.bits);
        }
        return (v, st);
    }
    if result.is_zero() {
        let (v, st) = exp_deep_underflow(target, mode);
        proof {
            crate::types::lemma_or_inexact(st.bits);
        }
        return (v, st);
    }
    proof {
        crate::types::lemma_or_inexact(status.bits);
    }
    (result, status.merge(Status { bits: FLAG_INEXACT }))
}

impl BigFloat {
    /// `10^self` rounded under `mode` to the precision of
    /// `self`.
    pub fn exp10(&self, mode: RoundingMode) -> (r: (BigFloat, Status))
        requires
            self.wf(),
        ensures
            r.0.wf(),
            r.0.precision == self.precision,
            exp10_special(*self, r.0, r.1, self.precision as nat),
            exp10_rim(*self, r.0, r.1, self.precision as nat, mode),
            exp10_value(*self, r.0, r.1, self.precision as nat, mode),
    {
        exp10_kernel(self, self.precision, mode)
    }

    /// `10^self` rounded under `mode` to `target_precision`
    /// bits.
    pub fn exp10_round(&self, target_precision: u32, mode: RoundingMode) -> (r: Result<(BigFloat, Status), BuildError>)
        requires
            self.wf(),
        ensures
            r is Ok <==> prec_ok(target_precision as nat),
            target_precision == 0 ==> r == Err::<(BigFloat, Status), BuildError>(BuildError::PrecisionZero),
            r matches Ok(v) ==> v.0.wf() && v.0.precision == target_precision
                && exp10_special(*self, v.0, v.1, target_precision as nat)
                && exp10_rim(*self, v.0, v.1, target_precision as nat, mode)
                && exp10_value(*self, v.0, v.1, target_precision as nat, mode),
    {
        BigFloat::check_precision(target_precision)?;
        Ok(exp10_kernel(self, target_precision, mode))
    }
}

impl<const PREC: u32> FixedFloat<PREC> {
    /// `10^self` at the fixed precision.
    pub fn exp10(&self, mode: RoundingMode) -> (r: (FixedFloat<PREC>, Status))
        requires
            self.wf(),
        ensures
            r.0.wf(),
            exp10_special(self.value(), r.0.value(), r.1, PREC as nat),
            exp10_rim(self.value(), r.0.value(), r.1, PREC as nat, mode),
            exp10_value(self.value(), r.0.value(), r.1, PREC as nat, mode),
            call_ensures(BigFloat::exp10, (&self.value(), mode), (r.0.value(), r.1)),
    {
        let (big, st) = self.big_ref().exp10(mode);
        (FixedFloat::wrap(big), st)
    }
}

} // verus!

//! `exp2(x) = 2^x`: exact at integer arguments, otherwise
//! `exp(x·ln 2)` rounded through the Ziv driver.

use vstd::prelude::*;
use crate::types::{BigFloat, BuildError, Class, Sign, RoundingMode, Status, FLAG_INEXACT, FLAG_INVALID, FLAG_DIV_BY_ZERO, prec_ok, MAX_PRECISION};
use crate::float::{finite_value_is, nan_result};
use crate::fixed::FixedFloat;
use super::{wp, wadd, int_at, one_at, rnd, rne, zero_at, inf_at, qnan_at, exponent_of, nan_in, ln_2_at, ln_10_at, is_unit, is_unit_exec, round_with_infinitesimal, force_inexact};
use super::exp::{has_inexact, exp_certain_overflow, exp_deep_underflow, overflow_result, deep_underflow_result,
    exp_underflow_sliver, exp_underflow_tie, sliver_result, tie_result, abs_floor, abs_is_int, floor_abs_u64};
use super::ziv::{ziv_round, ziv_round_with_depth, DEFAULT_ERROR_GUARD, ZivTrace, is_trace_of, ziv_on_schedule};
use super::{rounds_to, multiplied, subtracted, rounded_near};
use super::exp::positive_rounding_outcome;
use super::pow::{integer_exponent, small_int, int_value};
use crate::types::{EXP_MIN, EXP_MAX};
use crate::round::is_normal_with;
use vstd::arithmetic::power2::pow2;

verus! {

/// Guard bits charged to one evaluation of the exp2 kernel.
pub const EXP2_ERROR_GUARD: u32 = DEFAULT_ERROR_GUARD;

/// The outcome `exp2` promises at the special inputs.
pub open spec fn exp2_special(x: BigFloat, r: BigFloat, st: Status, p: nat) -> bool {
    &&& (x.class is Nan ==> nan_result(r, st, x, p))
    &&& (x.class is Zero ==> finite_value_is(r, 1, 0) && st.bits == 0)
    &&& (x.class == (Class::Infinity { sign: Sign::Positive }) ==> r.class == (Class::Infinity { sign: Sign::Positive }) && st.bits == 0)
    &&& (x.class == (Class::Infinity { sign: Sign::Negative }) ==> r.class == (Class::Zero { sign: Sign::Positive }) && st.bits == 0)
    &&& (x.class is Normal ==> match small_int(x) {
        Some(k) => EXP_MIN <= k <= EXP_MAX ==> is_normal_with(r, false, pow2((p - 1) as nat), k as int) && st.bits == 0,
        None => int_value(x) != Some(i64::MIN as int) ==> has_inexact(st),
    })
}

/// What `exp2` gives at the normal non-integer arguments below
/// `|x| < 2^62`: the value [`exp2_at_w`] computes at a working precision
/// of the Ziv schedule, rounded as [`positive_rounding_outcome`] says.
pub open spec fn exp2_value(x: BigFloat, r: BigFloat, st: Status, p: nat, mode: RoundingMode) -> bool {
    x.class is Normal && small_int(x) is None && x.class->Normal_exponent < 62
        ==> exists|w: u32, y: BigFloat| #[trigger] call_ensures(exp2_at_w, (&x, w), y)
            && ziv_on_schedule(w as int, p as int) && positive_rounding_outcome(y, p, mode, r, st)
}

/// `2^x` at working precision `w`, as `e^(x·ln 2)`.
pub fn exp2_at_w(x: &BigFloat, w: u32) -> (y: BigFloat)
    requires
        x.wf(),
        prec_ok(w as nat),
    ensures
        y.wf(),
        exists|xw: BigFloat, l2: BigFloat, pr: BigFloat, ev: BigFloat, es: Status|
            #![trigger rounded_near(*x, w as nat, xw), call_ensures(ln_2_at, (w,), l2), multiplied(xw, l2, pr), call_ensures(BigFloat::exp, (&pr, RoundingMode::NearestEven), (ev, es))]
            rounded_near(*x, w as nat, xw) && call_ensures(ln_2_at, (w,), l2) && multiplied(xw, l2, pr)
                && call_ensures(BigFloat::exp, (&pr, RoundingMode::NearestEven), (ev, es)) && rounded_near(ev, w as nat, y),
{
    let x_w = rne(x, w);
    let ln_2 = ln_2_at(w);
    let (product, _) = x_w.mul(&ln_2, RoundingMode::NearestEven);
    let (e_val, es) = product.exp(RoundingMode::NearestEven);
    let y = rne(&e_val, w);
    proof {
        assert(rounded_near(*x, w as nat, x_w));
        assert(call_ensures(ln_2_at, (w,), ln_2));
        assert(multiplied(x_w, ln_2, product));
        assert(call_ensures(BigFloat::exp, (&product, RoundingMode::NearestEven), (e_val, es)));
        assert(rounded_near(e_val, w as nat, y));
    }
    y
}

/// `2^k` at precision `p`: exact unless `k` leaves the exponent range.
pub fn two_pow_at(k: i64, p: u32) -> (r: (BigFloat, Status))
    requires
        prec_ok(p as nat),
    ensures
        r.0.wf(),
        r.0.precision == p,
        EXP_MIN <= k <= EXP_MAX ==> is_normal_with(r.0, false, pow2((p - 1) as nat), k as int) && r.1.bits == 0,
        k > EXP_MAX ==> r.0.class is Infinity,
        k < EXP_MIN ==> r.0.class is Zero,
{
    let one = one_at(p);
    one.scale_by_pow2(k)
}

/// What `exp2` gives for `|x| ≥ 2^62`, where `⌊x⌋` reaches the exponent
/// rims; `m = ⌊|x|⌋`:
/// - `x ≥ 2^63`: the overflow result; `x ≤ −2^64`: the deep underflow;
/// - an integer `x` inside the range: `2^x` exactly, with no flag
///   (`x = −2^63` gives the smallest positive value);
/// - `x = −2^63 − 1`: `2^x` is exactly half the smallest positive value,
///   the tie;
/// - `−2^63 − 1 < x < −2^63`: the sliver;
/// - below `−2^63 − 1`: the deep underflow.
pub open spec fn exp2_rim(x: BigFloat, r: BigFloat, st: Status, p: nat, mode: RoundingMode) -> bool {
    x.class is Normal && x.class->Normal_exponent >= 62 ==> {
        let e = x.class->Normal_exponent;
        let m = abs_floor(x);
        let neg = x.spec_neg();
        &&& (!neg && e >= 63 ==> overflow_result(r, st, p, mode))
        &&& (neg && e >= 64 ==> deep_underflow_result(r, st, p, mode))
        &&& ((neg || e == 62) && e <= 63 && abs_is_int(x) && m <= 0x8000_0000_0000_0000
            ==> is_normal_with(r, false, pow2((p - 1) as nat), if neg { -(m as int) } else { m as int }) && st.bits == 0)
        &&& (neg && e <= 63 && abs_is_int(x) && m == 0x8000_0000_0000_0001 ==> tie_result(r, st, p, mode))
        &&& (neg && e <= 63 && abs_is_int(x) && m > 0x8000_0000_0000_0001 ==> deep_underflow_result(r, st, p, mode))
        &&& (neg && e <= 63 && !abs_is_int(x) && m == 0x8000_0000_0000_0000 ==> sliver_result(r, st, p, mode))
        &&& (neg && e <= 63 && !abs_is_int(x) && m > 0x8000_0000_0000_0000 ==> deep_underflow_result(r, st, p, mode))
    }
}

/// The scale `k` of the window of [`exp2_rim`]: `⌊x⌋`, held one step
/// inside the exponent range.
pub open spec fn exp2_window_shift(x: BigFloat) -> int {
    let n: int = if x.spec_neg() { -(abs_floor(x) as int) - 1 } else { abs_floor(x) as int };
    if n == i64::MIN as int { i64::MIN + 1 } else if n == i64::MAX as int { i64::MAX - 1 } else { n }
}

/// What `exp2` gives for a non-integer `x` with `2^62 ≤ |x|` whose
/// `⌊x⌋` lies inside the exponent range: `2^(x−k)` from
/// [`exp2_frac_at_w`] at a working precision of the Ziv schedule,
/// rounded to `p` bits under `mode` and scaled by `2^k` exactly
/// (`k` = [`exp2_window_shift`]); a carry past the top gives the
/// overflow result.
pub open spec fn exp2_window(x: BigFloat, r: BigFloat, st: Status, p: nat, mode: RoundingMode) -> bool {
    x.class is Normal && x.class->Normal_exponent >= 62 && !abs_is_int(x)
        && (if x.spec_neg() { x.class->Normal_exponent <= 63 && abs_floor(x) < 0x8000_0000_0000_0000 } else { x.class->Normal_exponent == 62 })
        ==> overflow_result(r, st, p, mode) || exists|w: u32, y: BigFloat, s: BigFloat, s0: Status, sst: Status|
            #![trigger call_ensures(exp2_frac_at_w, (&x, exp2_window_shift(x) as i64, w), y), rounds_to(y, p, mode, s, s0), call_ensures(BigFloat::scale_by_pow2, (&s, exp2_window_shift(x) as i64), (r, sst))]
            call_ensures(exp2_frac_at_w, (&x, exp2_window_shift(x) as i64, w), y) && ziv_on_schedule(w as int, p as int)
                && rounds_to(y, p, mode, s, s0)
                && call_ensures(BigFloat::scale_by_pow2, (&s, exp2_window_shift(x) as i64), (r, sst))
}

/// `2^(x − k)` at working precision `w`, as `e^((x − k)·ln 2)` with
/// `x − k` formed exactly.
pub fn exp2_frac_at_w(x: &BigFloat, k: i64, w: u32) -> (y: BigFloat)
    requires
        x.wf(),
        prec_ok(w as nat),
    ensures
        y.wf(),
        exists|kb: BigFloat, xw: BigFloat, fr: BigFloat, l2: BigFloat, pr: BigFloat, es: Status|
            #![trigger call_ensures(int_at, (k, 66u32), kb), rounded_near(*x, w as nat, xw), subtracted(xw, kb, fr), call_ensures(ln_2_at, (w,), l2), multiplied(fr, l2, pr), call_ensures(BigFloat::exp, (&pr, RoundingMode::NearestEven), (y, es))]
            call_ensures(int_at, (k, 66u32), kb) && rounded_near(*x, w as nat, xw) && subtracted(xw, kb, fr)
                && call_ensures(ln_2_at, (w,), l2) && multiplied(fr, l2, pr)
                && call_ensures(BigFloat::exp, (&pr, RoundingMode::NearestEven), (y, es)),
{
    let k_big = int_at(k, 66);
    let x_w = rne(x, w);
    let (frac, _) = x_w.sub(&k_big, RoundingMode::NearestEven);
    let ln_2 = ln_2_at(w);
    let (product, _) = frac.mul(&ln_2, RoundingMode::NearestEven);
    let (y, es) = product.exp(RoundingMode::NearestEven);
    proof {
        assert(call_ensures(int_at, (k, 66u32), k_big));
        assert(rounded_near(*x, w as nat, x_w));
        assert(subtracted(x_w, k_big, frac));
        assert(call_ensures(ln_2_at, (w,), ln_2));
        assert(multiplied(frac, ln_2, product));
        assert(call_ensures(BigFloat::exp, (&product, RoundingMode::NearestEven), (y, es)));
    }
    y
}

/// `2^x` for `|x| ≥ 2^62`: the result's binary exponent is `⌊x⌋`,
/// read exactly off `x`'s own significand and classified against the
/// exponent rims (see [`exp2_rim`]).  Inside the range a non-integer
/// `x` gives `2^frac` rounded by the Ziv driver (`frac = x − k`, exact)
/// and scaled by `2^k` exactly, `k` held one step inside the rims; a
/// rounding carry past the top binade gives the overflow result.
fn exp2_extreme(x: &BigFloat, e_x: i64, target: u32, mode: RoundingMode) -> (r: (BigFloat, Status))
    requires
        x.wf(),
        x.class is Normal,
        e_x == x.class->Normal_exponent,
        e_x >= 62,
        prec_ok(target as nat),
    ensures
        r.0.wf(),
        r.0.precision == target,
        exp2_rim(*x, r.0, r.1, target as nat, mode),
        small_int(*x) is None && int_value(*x) != Some(i64::MIN as int) ==> has_inexact(r.1),
        exp2_window(*x, r.0, r.1, target as nat, mode),
{
    proof {
        crate::types::lemma_or_inexact(0);
        super::pow::lemma_int_magnitude(*x);
    }
    let negative = x.is_sign_negative();
    if !negative && e_x >= 63 {
        return exp_certain_overflow(target, mode);
    }
    if negative && e_x >= 64 {
        return exp_deep_underflow(target, mode);
    }
    let (m, exact) = floor_abs_u64(x);
    if exact {
        proof {
            assert(int_value(*x) == Some(if negative { -(m as int) } else { m as int }));
        }
        if !negative || m <= 0x8000_0000_0000_0000 {
            let k: i64 = if !negative {
                proof {
                    vstd::arithmetic::power2::lemma2_to64_rest();
                    assert(m < 0x8000_0000_0000_0000);
                }
                m as i64
            } else if m == 0x8000_0000_0000_0000 {
                i64::MIN
            } else {
                -(m as i64)
            };
            let one = one_at(target);
            let (v, _) = one.scale_by_pow2(k);
            return (v, Status { bits: 0 });
        }
        if m == 0x8000_0000_0000_0001 {
            return exp_underflow_tie(target, mode);
        }
        return exp_deep_underflow(target, mode);
    }
    if negative && m >= 0x8000_0000_0000_0000 {
        if m == 0x8000_0000_0000_0000 {
            return exp_underflow_sliver(target, mode);
        }
        return exp_deep_underflow(target, mode);
    }
    proof {
        vstd::arithmetic::power2::lemma2_to64_rest();
        if !negative {
            assert(m < 0x8000_0000_0000_0000);
        }
    }
    let n: i64 = if negative { -(m as i64) - 1 } else { m as i64 };
    let k: i64 = if n == i64::MIN { i64::MIN + 1 } else if n == i64::MAX { i64::MAX - 1 } else { n };
    proof {
        assert(k as int == exp2_window_shift(*x));
    }
    let eval = |w: u32| -> (y: BigFloat)
        requires
            prec_ok(w as nat),
        ensures
            y.wf(),
            call_ensures(exp2_frac_at_w, (x, k, w), y),
    {
        exp2_frac_at_w(x, k, w)
    };
    let (s, zst) = ziv_round(eval, target, mode, EXP2_ERROR_GUARD);
    let ghost t = choose|t: ZivTrace| t.0 == s && t.1 == zst && #[trigger] is_trace_of(eval, target as nat, mode, t)
        && ziv_on_schedule(t.2 as int, target as int);
    proof {
        assert(call_ensures(exp2_frac_at_w, (x, k, t.2), t.3));
        assert(rounds_to(t.3, target as nat, mode, s, zst));
    }
    let (result, sst) = s.scale_by_pow2(k);
    if sst.overflow() {
        return exp_certain_overflow(target, mode);
    }
    proof {
        crate::types::lemma_or_inexact(zst.bits | sst.bits);
        assert(call_ensures(BigFloat::scale_by_pow2, (&s, k), (result, sst)));
    }
    (result, zst.merge(sst).merge(Status { bits: FLAG_INEXACT }))
}

fn exp2_kernel(x: &BigFloat, target: u32, mode: RoundingMode) -> (r: (BigFloat, Status))
    requires
        x.wf(),
        prec_ok(target as nat),
    ensures
        r.0.wf(),
        r.0.precision == target,
        exp2_special(*x, r.0, r.1, target as nat),
        exp2_rim(*x, r.0, r.1, target as nat, mode),
        exp2_value(*x, r.0, r.1, target as nat, mode),
        exp2_window(*x, r.0, r.1, target as nat, mode),
{
    match &x.class {
        Class::Nan { .. } => return nan_in(x, target),
        Class::Zero { .. } => return (one_at(target), Status { bits: 0 }),
        Class::Infinity { sign: Sign::Positive } => return (inf_at(Sign::Positive, target), Status { bits: 0 }),
        Class::Infinity { sign: Sign::Negative } => return (zero_at(Sign::Positive, target), Status { bits: 0 }),
        Class::Normal { .. } => {},
    }
    let e_x = exponent_of(x);
    match integer_exponent(x) {
        Some(k) => {
            let (v, st) = two_pow_at(k, target);
            if v.is_infinite() {
                return exp_certain_overflow(target, mode);
            }
            if v.is_zero() {
                return exp_deep_underflow(target, mode);
            }
            proof {
                super::pow::lemma_int_magnitude(*x);
                vstd::arithmetic::power2::lemma2_to64_rest();
                if x.class->Normal_exponent >= 63 {
                    super::pow::lemma_pow2_le(63, x.class->Normal_exponent as nat);
                }
            }
            return (v, st);
        },
        None => {},
    }
    if e_x >= 62 {
        return exp2_extreme(x, e_x, target, mode);
    }
    let eval = |w: u32| -> (y: BigFloat)
        requires
            prec_ok(w as nat),
        ensures
            y.wf(),
            call_ensures(exp2_at_w, (x, w), y),
    {
        exp2_at_w(x, w)
    };
    let (result, status) = ziv_round(eval, target, mode, EXP2_ERROR_GUARD);
    let ghost t = choose|t: ZivTrace| t.0 == result && t.1 == status && #[trigger] is_trace_of(eval, target as nat, mode, t)
        && ziv_on_schedule(t.2 as int, target as int);
    proof {
        assert(call_ensures(exp2_at_w, (x, t.2), t.3));
        assert(rounds_to(t.3, target as nat, mode, result, status));
    }
    if result.is_infinite() {
        let (v, st) = exp_certain_overflow(target, mode);
        proof {
            crate::types::lemma_or_inexact(st.bits);
        }
        return (v, st);
    }
    if result.is_zero() {
        let (v, st) = exp_deep_underflow(target, mode);
        proof {
            crate::types::lemma_or_inexact(st.bits);
        }
        return (v, st);
    }
    proof {
        crate::types::lemma_or_inexact(status.bits);
    }
    (result, status.merge(Status { bits: FLAG_INEXACT }))
}

impl BigFloat {
    /// `2^self` rounded under `mode` to the precision of
    /// `self`.
    pub fn exp2(&self, mode: RoundingMode) -> (r: (BigFloat, Status))
        requires
            self.wf(),
        ensures
            r.0.wf(),
            r.0.precision == self.precision,
            exp2_special(*self, r.0, r.1, self.precision as nat),
            exp2_rim(*self, r.0, r.1, self.precision as nat, mode),
            exp2_value(*self, r.0, r.1, self.precision as nat, mode),
            exp2_window(*self, r.0, r.1, self.precision as nat, mode),
    {
        exp2_kernel(self, self.precision, mode)
    }

    /// `2^self` rounded under `mode` to `target_precision`
    /// bits.
    pub fn exp2_round(&self, target_precision: u32, mode: RoundingMode) -> (r: Result<(BigFloat, Status), BuildError>)
        requires
            self.wf(),
        ensures
            r is Ok <==> prec_ok(target_precision as nat),
            target_precision == 0 ==> r == Err::<(BigFloat, Status), BuildError>(BuildError::PrecisionZero),
            r matches Ok(v) ==> v.0.wf() && v.0.precision == target_precision
                && exp2_special(*self, v.0, v.1, target_precision as nat)
                && exp2_rim(*self, v.0, v.1, target_precision as nat, mode)
                && exp2_value(*self, v.0, v.1, target_precision as nat, mode)
                && exp2_window(*self, v.0, v.1, target_precision as nat, mode),
    {
        BigFloat::check_precision(target_precision)?;
        Ok(exp2_kernel(self, target_precision, mode))
    }
}

impl<const PREC: u32> FixedFloat<PREC> {
    /// `2^self` at the fixed precision.
    pub fn exp2(&self, mode: RoundingMode) -> (r: (FixedFloat<PREC>, Status))
        requires
            self.wf(),
        ensures
            r.0.wf(),
            exp2_special(self.value(), r.0.value(), r.1, PREC as nat),
            exp2_rim(self.value(), r.0.value(), r.1, PREC as nat, mode),
            exp2_value(self.value(), r.0.value(), r.1, PREC as nat, mode),
            exp2_window(self.value(), r.0.value(), r.1, PREC as nat, mode),
            call_ensures(BigFloat::exp2, (&self.value(), mode), (r.0.value(), r.1)),
    {
        let (big, st) = self.big_ref().exp2(mode);
        (FixedFloat::wrap(big), st)
    }
}

} // verus!

//! The Ziv rounding driver.
//!
//! The caller supplies a closure evaluating a function at a working
//! precision.  The driver rounds the value to the target under the
//! caller's mode and asks whether both ends of the evaluation-error
//! interval `y ± |y|·2^-(working − error_guard)` round to the same
//! value; if so the driver takes that value, otherwise the
//! guard doubles and the evaluation is repeated, a bounded number of
//! times, with one deeper evaluation where the caller's depth hint
//! reaches past the schedule.

use vstd::prelude::*;
use crate::types::{BigFloat, Class, Sign, RoundingMode, Status, EXP_MIN, prec_ok};
use super::{wadd, rnd, rounds_to};

verus! {

/// Guard bits of the first evaluation.
pub const ZIV_BASE_GUARD: u32 = 64;

/// Largest guard of the doubling schedule.
pub const ZIV_GUARD_CAP: u32 = 1024;

/// Evaluations of the doubling schedule.
pub const ZIV_MAX_ITERS: u32 = 5;

/// Largest guard a depth hint may request.
pub const ZIV_DEEP_GUARD_CEILING: u32 = 0x100_0000;

/// Bits below the working precision charged to an evaluation's
/// accumulated rounding error.
pub const DEFAULT_ERROR_GUARD: u32 = 24;

/// A driver run: the rounded result, its status, the working precision
/// of the deciding evaluation, and that evaluation.
pub type ZivTrace = (BigFloat, Status, u32, BigFloat);

/// The trace of the last instrumented driver run.  Runs are not
/// instrumented in this build, so there is never one to take.
pub fn take_last_trace() -> (r: Option<ZivTrace>)
    ensures
        r is None,
{
    None
}

/// `t` is a trace of `eval`: its result is the rounding at `target`
/// under `mode` of what `eval` returned at the trace's working
/// precision.
pub open spec fn is_trace_of<F: Fn(u32) -> BigFloat>(eval: F, target: nat, mode: RoundingMode, t: ZivTrace) -> bool {
    &&& prec_ok(t.2 as nat)
    &&& eval.ensures((t.2,), t.3)
    &&& rounds_to(t.3, target, mode, t.0, t.1)
}

/// `d` is the half-width the driver charges to `y` at `shift`:
/// `|y|·2^-shift` for a normal `y` (`|y|` itself where the scaled
/// exponent would leave the range), `+0` otherwise.
pub open spec fn ziv_half_width(y: BigFloat, shift: int, d: BigFloat) -> bool {
    &&& d.precision == y.precision
    &&& if y.class is Normal {
        let e = y.class->Normal_exponent;
        &&& d.class is Normal
        &&& !d.spec_neg()
        &&& d.sig() == y.sig()
        &&& d.class->Normal_exponent == (if e - shift < EXP_MIN { e as int } else { e - shift })
    } else {
        d.class == (Class::Zero { sign: Sign::Positive })
    }
}

/// The shift of the error interval at working precision `w`.
pub open spec fn ziv_shift(w: int, error_guard: int) -> int {
    if w > error_guard { w - error_guard } else { 0 }
}

/// The trace passed the interval test: both ends of
/// `y ± |y|·2^-(w − error_guard)` round to one value at `target`.
pub open spec fn ziv_certified(t: ZivTrace, target: nat, mode: RoundingMode, error_guard: nat) -> bool {
    exists|d: BigFloat| #[trigger] ziv_half_width(t.3, ziv_shift(t.2 as int, error_guard as int), d)
        && interval_certified(t.3, d, target, mode, true)
}

/// The trace comes from an evaluation at or past the last guard of
/// the doubling schedule.
pub open spec fn ziv_exhausted(t: ZivTrace, target: nat) -> bool {
    t.2 as int >= super::prec_clamp(target + ZIV_GUARD_CAP)
}

/// `w` is a working precision the driver evaluates at: `target` plus a
/// guard of 64, 128, 256, 512 or 1024 bits from the doubling schedule,
/// or plus the one deeper guard past 1024 (up to
/// [`ZIV_DEEP_GUARD_CEILING`]) that a depth hint requests.
pub open spec fn ziv_on_schedule(w: int, target: int) -> bool {
    ||| w == super::prec_clamp(target + 64int)
    ||| w == super::prec_clamp(target + 128int)
    ||| w == super::prec_clamp(target + 256int)
    ||| w == super::prec_clamp(target + 512int)
    ||| w == super::prec_clamp(target + 1024int)
    ||| exists|g: int| ZIV_GUARD_CAP < g <= ZIV_DEEP_GUARD_CEILING && w == #[trigger] super::prec_clamp(target + g)
}

/// `|y| · 2^-shift` for a normal `y`; zero for other classes.  Where
/// the scaled exponent would leave the range, `|y|` itself stands in:
/// an overstated width only refuses certification.
fn half_width(y: &BigFloat, shift: i64) -> (d: BigFloat)
    requires
        y.wf(),
        0 <= shift <= 0x1_0000_0000,
    ensures
        d.wf(),
        d.precision == y.precision,
        ziv_half_width(*y, shift as int, d),
{
    match &y.class {
        Class::Normal { exponent, mantissa, .. } => {
            let e: i128 = *exponent as i128 - shift as i128;
            BigFloat {
                class: Class::Normal {
                    sign: Sign::Positive,
                    exponent: if e < EXP_MIN as i128 { *exponent } else { e as i64 },
                    mantissa: mantissa.clone(),
                },
                precision: y.precision,
            }
        },
        _ => BigFloat { class: Class::Zero { sign: Sign::Positive }, precision: y.precision },
    }
}

/// The interval test: `y − d` and `y + d`, each rounded to nearest at
/// the operands' precision, then rounded to `target` under `mode`,
/// compare equal exactly when `v`.
pub open spec fn interval_certified(y: BigFloat, d: BigFloat, target: nat, mode: RoundingMode, v: bool) -> bool {
    exists|lo: BigFloat, hi: BigFloat, lr: BigFloat, hr: BigFloat, s2: Status, s3: Status, s4: Status|
        #![trigger crate::arith::add_spec(y, d, hi, s2, crate::arith::op_precision(y, d) as nat, RoundingMode::NearestEven), rounds_to(lo, target, mode, lr, s3), rounds_to(hi, target, mode, hr, s4)]
        crate::arith::diff_spec(y, d, lo, crate::arith::op_precision(y, d) as nat, RoundingMode::NearestEven)
        && crate::arith::add_spec(y, d, hi, s2, crate::arith::op_precision(y, d) as nat, RoundingMode::NearestEven)
        && rounds_to(lo, target, mode, lr, s3) && rounds_to(hi, target, mode, hr, s4)
        && ((crate::arith::order_of(lr, hr) == Some(0int)) == v)
}

/// Whether every point of `[y − d, y + d]` rounds to one value at
/// `target` under `mode`.
fn certified(y: &BigFloat, d: &BigFloat, target: u32, mode: RoundingMode) -> (r: bool)
    requires
        y.wf(),
        d.wf(),
        prec_ok(target as nat),
    ensures
        interval_certified(*y, *d, target as nat, mode, r),
{
    let (lo, s1) = y.sub(d, RoundingMode::NearestEven);
    let (hi, s2) = y.add(d, RoundingMode::NearestEven);
    let (lo_r, s3) = rnd(&lo, target, mode);
    let (hi_r, s4) = rnd(&hi, target, mode);
    let r = match lo_r.compare(&hi_r) {
        Some(v) => v == 0,
        None => false,
    };
    proof {
        assert(rounds_to(lo, target as nat, mode, lo_r, s3) && rounds_to(hi, target as nat, mode, hi_r, s4));
        assert(crate::arith::add_spec(*y, *d, hi, s2, crate::arith::op_precision(*y, *d) as nat, RoundingMode::NearestEven));
        assert(crate::arith::diff_spec(*y, *d, lo, crate::arith::op_precision(*y, *d) as nat, RoundingMode::NearestEven));
    }
    r
}

/// One evaluation at `target + guard` bits: its trace, and whether
/// the interval test certified it.
fn ziv_attempt<F: Fn(u32) -> BigFloat>(eval: &F, target: u32, mode: RoundingMode, error_guard: u32, guard: u32) -> (r: (ZivTrace, bool))
    requires
        prec_ok(target as nat),
        error_guard <= 64,
        guard >= 64,
        forall|w: u32| prec_ok(w as nat) ==> #[trigger] eval.requires((w,)),
        forall|w: u32, y: BigFloat| prec_ok(w as nat) && #[trigger] eval.ensures((w,), y) ==> y.wf(),
    ensures
        is_trace_of(*eval, target as nat, mode, r.0),
        r.0.2 as int == super::prec_clamp(target + guard),
        r.1 ==> ziv_certified(r.0, target as nat, mode, error_guard as nat),
{
    let working = wadd(target, guard as u64);
    let y = eval(working);
    let (cand, status) = rnd(&y, target, mode);
    let shift: i64 = if working > error_guard { (working - error_guard) as i64 } else { 0 };
    let d = half_width(&y, shift);
    let ok = certified(&y, &d, target, mode);
    proof {
        assert(shift as int == ziv_shift(working as int, error_guard as int));
        if ok {
            let t: ZivTrace = (cand, status, working, y);
            assert(ziv_half_width(t.3, ziv_shift(t.2 as int, error_guard as int), d));
            assert(interval_certified(t.3, d, target as nat, mode, true));
            assert(ziv_certified(t, target as nat, mode, error_guard as nat));
        }
    }
    ((cand, status, working, y), ok)
}

/// Round `eval`'s value to `target` bits under `mode` by the
/// Ziv interval test.  The result is the rounding at `target` of one
/// evaluation; on inputs where the schedule exhausts without
/// certifying, it is that of the last evaluation.
pub fn ziv_round<F: Fn(u32) -> BigFloat>(eval: F, target: u32, mode: RoundingMode, error_guard: u32) -> (r: (BigFloat, Status))
    requires
        prec_ok(target as nat),
        error_guard <= 64,
        forall|w: u32| prec_ok(w as nat) ==> #[trigger] eval.requires((w,)),
        forall|w: u32, y: BigFloat| prec_ok(w as nat) && #[trigger] eval.ensures((w,), y) ==> y.wf(),
    ensures
        r.0.wf(),
        r.0.precision == target,
        exists|w: u32, y: BigFloat| #[trigger] eval.ensures((w,), y) && rounds_to(y, target as nat, mode, r.0, r.1),
        exists|t: ZivTrace| t.0 == r.0 && t.1 == r.1 && #[trigger] is_trace_of(eval, target as nat, mode, t)
            && (ziv_certified(t, target as nat, mode, error_guard as nat) || ziv_exhausted(t, target as nat))
            && ziv_on_schedule(t.2 as int, target as int),
        super::rounding_flags(r.1),
{
    let t = ziv_round_capturing(eval, target, mode, error_guard);
    proof {
        super::lemma_rounds_to_flags(t.3, target as nat, mode, t.0, t.1);
    }
    (t.0, t.1)
}

/// [`ziv_round`] with one further evaluation at
/// `target + depth_hint() + 64` bits when the doubling schedule
/// exhausts and the hint reaches past its cap.
pub fn ziv_round_with_depth<F: Fn(u32) -> BigFloat, G: Fn() -> u32>(eval: F, target: u32, mode: RoundingMode, error_guard: u32, depth_hint: G) -> (r: (BigFloat, Status))
    requires
        prec_ok(target as nat),
        error_guard <= 64,
        depth_hint.requires(()),
        forall|w: u32| prec_ok(w as nat) ==> #[trigger] eval.requires((w,)),
        forall|w: u32, y: BigFloat| prec_ok(w as nat) && #[trigger] eval.ensures((w,), y) ==> y.wf(),
    ensures
        r.0.wf(),
        r.0.precision == target,
        exists|w: u32, y: BigFloat| #[trigger] eval.ensures((w,), y) && rounds_to(y, target as nat, mode, r.0, r.1),
        exists|t: ZivTrace| t.0 == r.0 && t.1 == r.1 && #[trigger] is_trace_of(eval, target as nat, mode, t)
            && (ziv_certified(t, target as nat, mode, error_guard as nat) || ziv_exhausted(t, target as nat))
            && ziv_on_schedule(t.2 as int, target as int),
        super::rounding_flags(r.1),
{
    let t = ziv_round_capturing_with_depth(eval, target, mode, error_guard, depth_hint);
    proof {
        super::lemma_rounds_to_flags(t.3, target as nat, mode, t.0, t.1);
    }
    (t.0, t.1)
}

/// [`ziv_round`], returning the whole trace.
pub fn ziv_round_capturing<F: Fn(u32) -> BigFloat>(eval: F, target: u32, mode: RoundingMode, error_guard: u32) -> (t: ZivTrace)
    requires
        prec_ok(target as nat),
        error_guard <= 64,
        forall|w: u32| prec_ok(w as nat) ==> #[trigger] eval.requires((w,)),
        forall|w: u32, y: BigFloat| prec_ok(w as nat) && #[trigger] eval.ensures((w,), y) ==> y.wf(),
    ensures
        t.0.wf(),
        t.0.precision == target,
        is_trace_of(eval, target as nat, mode, t),
        ziv_certified(t, target as nat, mode, error_guard as nat) || ziv_exhausted(t, target as nat),
        ziv_on_schedule(t.2 as int, target as int),
{
    let no_depth = || -> (d: u32) { 0 };
    ziv_round_capturing_with_depth(eval, target, mode, error_guard, no_depth)
}

/// The driver: the doubling schedule, then, only on exhaustion and
/// only where the lazily computed hint passes the schedule's cap, one
/// further evaluation under the same interval test.  An uncertified
/// deep evaluation stands unless it degenerated to a NaN, in which
/// case the last evaluation of the schedule does.
pub fn ziv_round_capturing_with_depth<F: Fn(u32) -> BigFloat, G: Fn() -> u32>(eval: F, target: u32, mode: RoundingMode, error_guard: u32, depth_hint: G) -> (t: ZivTrace)
    requires
        prec_ok(target as nat),
        error_guard <= 64,
        depth_hint.requires(()),
        forall|w: u32| prec_ok(w as nat) ==> #[trigger] eval.requires((w,)),
        forall|w: u32, y: BigFloat| prec_ok(w as nat) && #[trigger] eval.ensures((w,), y) ==> y.wf(),
    ensures
        t.0.wf(),
        t.0.precision == target,
        is_trace_of(eval, target as nat, mode, t),
        ziv_certified(t, target as nat, mode, error_guard as nat) || ziv_exhausted(t, target as nat),
        ziv_on_schedule(t.2 as int, target as int),
{
    let mut guard: u32 = ZIV_BASE_GUARD;
    let (first, ok) = ziv_attempt(&eval, target, mode, error_guard, guard);
    if ok {
        return first;
    }
    let mut legacy: ZivTrace = first;
    let mut iter: u32 = 1;
    while iter < ZIV_MAX_ITERS
        invariant
            prec_ok(target as nat),
            error_guard <= 64,
            64 <= guard <= ZIV_GUARD_CAP,
            forall|w: u32| prec_ok(w as nat) ==> #[trigger] eval.requires((w,)),
            forall|w: u32, y: BigFloat| prec_ok(w as nat) && #[trigger] eval.ensures((w,), y) ==> y.wf(),
            is_trace_of(eval, target as nat, mode, legacy),
            1 <= iter <= ZIV_MAX_ITERS,
            legacy.2 as int == super::prec_clamp(target + guard),
            (iter == 1 && guard == 64) || (iter == 2 && guard == 128) || (iter == 3 && guard == 256)
                || (iter == 4 && guard == 512) || (iter == 5 && guard == 1024),
        decreases ZIV_MAX_ITERS - iter,
    {
        guard = if guard >= ZIV_GUARD_CAP / 2 { ZIV_GUARD_CAP } else { guard * 2 };
        let (attempt, ok) = ziv_attempt(&eval, target, mode, error_guard, guard);
        if ok {
            return attempt;
        }
        legacy = attempt;
        iter = iter + 1;
    }
    proof {
        assert(guard == ZIV_GUARD_CAP);
        assert(ziv_exhausted(legacy, target as nat));
    }
    let hint = depth_hint();
    let deep_guard: u32 = if hint > ZIV_DEEP_GUARD_CEILING - 64 { ZIV_DEEP_GUARD_CEILING } else { hint + 64 };
    if deep_guard <= ZIV_GUARD_CAP {
        return legacy;
    }
    let (deep, ok) = ziv_attempt(&eval, target, mode, error_guard, deep_guard);
    proof {
        assert(ZIV_GUARD_CAP < deep_guard <= ZIV_DEEP_GUARD_CEILING);
        assert(deep.2 as int == super::prec_clamp(target + deep_guard as int));
        assert(ziv_on_schedule(deep.2 as int, target as int));
    }
    if ok {
        return deep;
    }
    proof {
        assert(ziv_exhausted(deep, target as nat));
    }
    if deep.0.is_nan() {
        legacy
    } else {
        deep
    }
}

/// Binary exponent of a normal value; `i64::MIN` for any other class,
/// so it sorts below every operand scale.
pub fn value_exponent(v: &BigFloat) -> (r: i64)
    ensures
        v.class is Normal ==> r == v.class->Normal_exponent,
        !(v.class is Normal) ==> r == i64::MIN,
{
    match &v.class {
        Class::Normal { exponent, .. } => *exponent,
        _ => i64::MIN,
    }
}

/// Re-evaluate a cancellation-prone composition at a working precision
/// raised by the cancellation it shows: `eval(w)` returns the value and
/// the exponent of the largest operand that cancelled to form it.
/// While the value lies more bits below that scale than `w` exceeds
/// `working`, the precision rises to cover the loss (doubling where
/// the value collapsed), at most twelve times.
pub fn cancellation_boosted<F: Fn(u32) -> (BigFloat, i64)>(working: u32, eval: F) -> (r: BigFloat)
    requires
        prec_ok(working as nat),
        forall|w: u32| prec_ok(w as nat) ==> #[trigger] eval.requires((w,)),
        forall|w: u32, y: (BigFloat, i64)| prec_ok(w as nat) && #[trigger] eval.ensures((w,), y) ==> y.0.wf(),
    ensures
        r.wf(),
        exists|w: u32, y: (BigFloat, i64)| #[trigger] eval.ensures((w,), y) && y.0 == r,
{
    let mut w: u32 = working;
    let mut last: Option<BigFloat> = None;
    let mut round: u32 = 0;
    while round < 12
        invariant
            prec_ok(working as nat),
            prec_ok(w as nat),
            forall|w: u32| prec_ok(w as nat) ==> #[trigger] eval.requires((w,)),
            forall|w: u32, y: (BigFloat, i64)| prec_ok(w as nat) && #[trigger] eval.ensures((w,), y) ==> y.0.wf(),
            last matches Some(v) ==> v.wf() && exists|w: u32, y: (BigFloat, i64)| #[trigger] eval.ensures((w,), y) && y.0 == v,
        decreases 12 - round,
    {
        round = round + 1;
        let (value, operand_scale) = eval(w);
        if !value.is_normal() {
            last = Some(value);
            w = wadd(w, w as u64);
            continue;
        }
        let result_exp = value_exponent(&value);
        let cancel: i128 = if operand_scale as i128 > result_exp as i128 { operand_scale as i128 - result_exp as i128 } else { 0 };
        let boost: u64 = if cancel > 0x1_0000_0000 { 0x1_0000_0000 } else { cancel as u64 };
        let needed = wadd(working, boost + 8);
        if w >= needed {
            return value;
        }
        last = Some(value);
        w = needed;
    }
    match last {
        Some(v) => v,
        None => eval(w).0,
    }
}

} // verus!

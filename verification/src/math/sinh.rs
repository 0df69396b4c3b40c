//! `sinh(x) = (expm1(x) − expm1(−x)) / 2`, with a tiny-argument
//! shortcut and `±e^(|x| − ln 2)` past the exponent rim, correctly
//! rounded through the Ziv driver.

use vstd::prelude::*;
use crate::types::{BigFloat, BuildError, Class, Sign, RoundingMode, Status, prec_ok};
use crate::float::nan_result;
use crate::fixed::FixedFloat;
use super::{wadd, int_at, rne, zero_at, inf_at, exponent_of, nan_in, ln_2_at, mirror_mode_for_negation, round_with_infinitesimal, force_inexact};
use super::exp::has_inexact;
use super::ziv::{ziv_round_with_depth, DEFAULT_ERROR_GUARD, ZivTrace, is_trace_of, ziv_on_schedule};
use super::{rounds_to, subtracted, divided, rounded_near};
use crate::arith::negation_of;

verus! {

/// Guard bits charged to one evaluation of the sinh kernel.
pub const SINH_ERROR_GUARD: u32 = DEFAULT_ERROR_GUARD;

/// What `sinh` gives at a tiny argument: `x` moved by an infinitesimal
/// away from zero (`sinh x = x + x³/6 + …`), rounded under `mode`.
pub open spec fn sinh_tiny(x: BigFloat, r: BigFloat, st: Status, p: nat, mode: RoundingMode) -> bool {
    x.class is Normal && x.class->Normal_exponent <= -(p + 2) && -2 * x.class->Normal_exponent >= x.precision + 6
        ==> exists|st0: Status| super::nudged(x, false, p, mode, r, st0)
}

/// The outcome `sinh` promises: NaNs propagate, zeros and infinities
/// are kept, and a normal result is INEXACT.
pub open spec fn sinh_special(x: BigFloat, r: BigFloat, st: Status, p: nat) -> bool {
    &&& (x.class is Nan ==> nan_result(r, st, x, p))
    &&& (x.class is Zero ==> r.class == x.class && st.bits == 0)
    &&& (x.class is Infinity ==> r.class == x.class && st.bits == 0)
    &&& (x.class is Normal && r.class is Normal ==> has_inexact(st))
}

/// What `sinh` gives at the arguments between the tiny ones and
/// `|x| ≥ 2^61`: the value [`sinh_at_w`] computes at a working
/// precision of the Ziv schedule, rounded to `p` bits under `mode`.
pub open spec fn sinh_ordinary(x: BigFloat, r: BigFloat, p: nat, mode: RoundingMode) -> bool {
    x.class is Normal && x.class->Normal_exponent < 61
        && !(x.class->Normal_exponent <= -(p + 2) && -2 * x.class->Normal_exponent >= x.precision + 6)
        ==> exists|w: u32, y: BigFloat, st: Status| #![trigger call_ensures(sinh_at_w, (&x, w), y), rounds_to(y, p, mode, r, st)]
            call_ensures(sinh_at_w, (&x, w), y) && ziv_on_schedule(w as int, p as int) && rounds_to(y, p, mode, r, st)
}

/// `|x| − ln 2` at `max(x's precision, p) + 128` bits, rounded to
/// nearest: `sinh|x| = e^(|x| − ln 2)` to far below an ulp once
/// `|x| ≥ 2^61`.
pub fn sinh_large_arg(x: &BigFloat, p: u32) -> (a: BigFloat)
    requires
        x.wf(),
    ensures
        a.wf(),
{
    let base: u32 = if x.precision >= p { x.precision } else { p };
    let prod_prec = wadd(base, 128);
    let abs_w = rne(&x.abs(), prod_prec);
    let ln_2 = ln_2_at(prod_prec);
    abs_w.sub(&ln_2, RoundingMode::NearestEven).0
}

/// The mode under which a magnitude is rounded for a result of the
/// given sign: mirrored for a negative one.
pub open spec fn sign_mode(negative: bool, mode: RoundingMode) -> RoundingMode {
    if negative { super::mirrored_mode(mode) } else { mode }
}

/// What `sinh` gives from `|x| ≥ 2^61` on: what `exp` gives at
/// [`sinh_large_arg`], under `mode` for `x > 0`, and negated under the
/// mirrored mode for `x < 0`.
pub open spec fn sinh_large(x: BigFloat, r: BigFloat, p: nat, mode: RoundingMode) -> bool {
    x.class is Normal && x.class->Normal_exponent >= 61
        ==> exists|a: BigFloat, m: BigFloat, s0: Status|
            #![trigger call_ensures(sinh_large_arg, (&x, p as u32), a), call_ensures(BigFloat::exp_round, (&a, p as u32, sign_mode(x.spec_neg(), mode)), (m, s0))]
            call_ensures(sinh_large_arg, (&x, p as u32), a)
                && call_ensures(BigFloat::exp_round, (&a, p as u32, sign_mode(x.spec_neg(), mode)), (m, s0))
                && (if x.spec_neg() { crate::arith::negation_of(r, m) } else { r == m })
}

/// `sinh(x)` at working precision `w`.
pub fn sinh_at_w(x: &BigFloat, w: u32) -> (y: BigFloat)
    requires
        x.wf(),
        prec_ok(w as nat),
    ensures
        y.wf(),
        exists|xw: BigFloat, nx: BigFloat, ep: BigFloat, eps: Status, en: BigFloat, ens: Status, d: BigFloat, two: BigFloat|
            #![trigger rounded_near(*x, w as nat, xw), negation_of(nx, xw), call_ensures(BigFloat::expm1, (&xw, RoundingMode::NearestEven), (ep, eps)), call_ensures(BigFloat::expm1, (&nx, RoundingMode::NearestEven), (en, ens)), subtracted(ep, en, d), call_ensures(int_at, (2i64, w), two)]
            rounded_near(*x, w as nat, xw) && negation_of(nx, xw)
                && call_ensures(BigFloat::expm1, (&xw, RoundingMode::NearestEven), (ep, eps))
                && call_ensures(BigFloat::expm1, (&nx, RoundingMode::NearestEven), (en, ens)) && subtracted(ep, en, d)
                && call_ensures(int_at, (2i64, w), two) && divided(d, two, y),
{
    let x_w = rne(x, w);
    let neg_x = x_w.negated();
    let (em1_pos, eps) = x_w.expm1(RoundingMode::NearestEven);
    let (em1_neg, ens) = neg_x.expm1(RoundingMode::NearestEven);
    let (diff, _) = em1_pos.sub(&em1_neg, RoundingMode::NearestEven);
    let two = int_at(2, w);
    let y = diff.div(&two, RoundingMode::NearestEven).0;
    proof {
        assert(rounded_near(*x, w as nat, x_w));
        assert(negation_of(neg_x, x_w));
        assert(call_ensures(BigFloat::expm1, (&x_w, RoundingMode::NearestEven), (em1_pos, eps)));
        assert(call_ensures(BigFloat::expm1, (&neg_x, RoundingMode::NearestEven), (em1_neg, ens)));
        assert(subtracted(em1_pos, em1_neg, diff));
        assert(call_ensures(int_at, (2i64, w), two));
        assert(divided(diff, two, y));
    }
    y
}

fn sinh_kernel(x: &BigFloat, target: u32, mode: RoundingMode) -> (r: (BigFloat, Status))
    requires
        x.wf(),
        prec_ok(target as nat),
    ensures
        r.0.wf(),
        r.0.precision == target,
        sinh_special(*x, r.0, r.1, target as nat),
        sinh_tiny(*x, r.0, r.1, target as nat, mode),
        sinh_ordinary(*x, r.0, target as nat, mode),
        sinh_large(*x, r.0, target as nat, mode),
{
    match &x.class {
        Class::Nan { .. } => return nan_in(x, target),
        Class::Zero { sign } => return (zero_at(*sign, target), Status { bits: 0 }),
        Class::Infinity { sign } => return (inf_at(*sign, target), Status { bits: 0 }),
        Class::Normal { .. } => {},
    }
    let e = exponent_of(x);
    if e >= 61 {
        let negative = x.is_sign_negative();
        let arg = sinh_large_arg(x, target);
        if negative {
            let inner = mirror_mode_for_negation(mode);
            let (mag, status) = arg.exp_round(target, inner);
            let v = mag.negated();
            let st = force_inexact(&v, status);
            proof {
                crate::types::lemma_or_inexact(status.bits);
                assert(call_ensures(BigFloat::exp_round, (&arg, target, inner), (mag, status)));
                assert(crate::arith::negation_of(v, mag));
            }
            return (v, st);
        }
        let (v, status) = arg.exp_round(target, mode);
        proof {
            assert(call_ensures(BigFloat::exp_round, (&arg, target, mode), (v, status)));
        }
        let st = force_inexact(&v, status);
        proof {
            crate::types::lemma_or_inexact(status.bits);
        }
        return (v, st);
    }
    if e <= -(target as i64 + 2) && -2 * (e as i128) >= x.precision as i128 + 6 {
        let (v, status) = round_with_infinitesimal(x, false, target, mode);
        let st = force_inexact(&v, status);
        proof {
            crate::types::lemma_or_inexact(status.bits);
        }
        return (v, st);
    }
    let eval = |w: u32| -> (y: BigFloat)
        requires
            prec_ok(w as nat),
        ensures
            y.wf(),
            call_ensures(sinh_at_w, (x, w), y),
    {
        sinh_at_w(x, w)
    };
    let in_precision = x.precision;
    let depth_hint = || -> (d: u32) {
        if e < 0 {
            let d: u64 = if e < -0x4_0000 { 0x14_0000 } else { (5 * (-e)) as u64 };
            let d2: u64 = if d > in_precision as u64 { d } else { in_precision as u64 };
            (d2 + 64) as u32
        } else {
            0
        }
    };
    let (result, status) = ziv_round_with_depth(eval, target, mode, SINH_ERROR_GUARD, depth_hint);
    let st = force_inexact(&result, status);
    proof {
        crate::types::lemma_or_inexact(status.bits);
        let t = choose|t: ZivTrace| t.0 == result && t.1 == status && #[trigger] is_trace_of(eval, target as nat, mode, t)
            && ziv_on_schedule(t.2 as int, target as int);
        assert(call_ensures(sinh_at_w, (x, t.2), t.3));
        assert(rounds_to(t.3, target as nat, mode, result, status));
    }
    (result, st)
}

impl BigFloat {
    /// `sinh(self)` rounded under `mode` to the precision of
    /// `self`.
    pub fn sinh(&self, mode: RoundingMode) -> (r: (BigFloat, Status))
        requires
            self.wf(),
        ensures
            r.0.wf(),
            r.0.precision == self.precision,
            sinh_special(*self, r.0, r.1, self.precision as nat),
            sinh_tiny(*self, r.0, r.1, self.precision as nat, mode),
            sinh_ordinary(*self, r.0, self.precision as nat, mode),
            sinh_large(*self, r.0, self.precision as nat, mode),
    {
        sinh_kernel(self, self.precision, mode)
    }

    /// `sinh(self)` rounded under `mode` to
    /// `target_precision` bits.
    pub fn sinh_round(&self, target_precision: u32, mode: RoundingMode) -> (r: Result<(BigFloat, Status), BuildError>)
        requires
            self.wf(),
        ensures
            r is Ok <==> prec_ok(target_precision as nat),
            target_precision == 0 ==> r == Err::<(BigFloat, Status), BuildError>(BuildError::PrecisionZero),
            r matches Ok(v) ==> v.0.wf() && v.0.precision == target_precision
                && sinh_special(*self, v.0, v.1, target_precision as nat)
                && sinh_tiny(*self, v.0, v.1, target_precision as nat, mode)
                && sinh_ordinary(*self, v.0, target_precision as nat, mode)
                && sinh_large(*self, v.0, target_precision as nat, mode),
    {
        BigFloat::check_precision(target_precision)?;
        Ok(sinh_kernel(self, target_precision, mode))
    }
}

impl<const PREC: u32> FixedFloat<PREC> {
    /// `sinh(self)` at the fixed precision.
    pub fn sinh(&self, mode: RoundingMode) -> (r: (FixedFloat<PREC>, Status))
        requires
            self.wf(),
        ensures
            r.0.wf(),
            sinh_special(self.value(), r.0.value(), r.1, PREC as nat),
            sinh_tiny(self.value(), r.0.value(), r.1, PREC as nat, mode),
            sinh_ordinary(self.value(), r.0.value(), PREC as nat, mode),
            sinh_large(self.value(), r.0.value(), PREC as nat, mode),
            call_ensures(BigFloat::sinh, (&self.value(), mode), (r.0.value(), r.1)),
    {
        let (big, st) = self.big_ref().sinh(mode);
        (FixedFloat::wrap(big), st)
    }
}

} // verus!

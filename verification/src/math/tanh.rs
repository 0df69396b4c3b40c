//! `tanh(x)`: for `|x|`, `−expm1(−2|x|) / (2 + expm1(−2|x|))`, which
//! neither cancels nor meets `∞/∞`, with the sign of `x` restored;
//! rounded through the Ziv driver.

use vstd::prelude::*;
use crate::types::{BigFloat, BuildError, Class, Sign, RoundingMode, Status, prec_ok};
use crate::float::{finite_value_is, nan_result};
use crate::fixed::FixedFloat;
use super::{int_at, one_at, rne, zero_at, exponent_of, nan_in, round_with_infinitesimal};
use super::expm1::minus_one_at;
use super::{rounds_to, added, multiplied, divided, rounded_near};
use crate::arith::negation_of;
use super::ziv::{ziv_round, DEFAULT_ERROR_GUARD, ZivTrace, is_trace_of, ziv_on_schedule};

verus! {

/// Guard bits charged to one evaluation of the tanh kernel.
pub const TANH_ERROR_GUARD: u32 = DEFAULT_ERROR_GUARD;

/// What `tanh` gives at a tiny argument: `x` moved by an infinitesimal
/// toward zero (`tanh x = x − x³/3 + …`), rounded under `mode`.
pub open spec fn tanh_tiny(x: BigFloat, r: BigFloat, st: Status, p: nat, mode: RoundingMode) -> bool {
    x.class is Normal && x.class->Normal_exponent <= -(p + 2)
        ==> super::nudged(x, true, p, mode, r, st)
}

/// The outcome `tanh` promises at the special inputs.
pub open spec fn tanh_special(x: BigFloat, r: BigFloat, st: Status, p: nat) -> bool {
    &&& (x.class is Nan ==> nan_result(r, st, x, p))
    &&& (x.class is Zero ==> r.class == x.class && st.bits == 0)
    &&& (x.class == (Class::Infinity { sign: Sign::Positive }) ==> finite_value_is(r, 1, 0) && st.bits == 0)
    &&& (x.class == (Class::Infinity { sign: Sign::Negative }) ==> finite_value_is(r, -1, 0) && st.bits == 0)
}

/// `tanh(x)` at working precision `w`: `tanh(|x|)` with the sign of `x`.
pub fn tanh_signed_at_w(x: &BigFloat, w: u32) -> (y: BigFloat)
    requires
        x.wf(),
        prec_ok(w as nat),
    ensures
        y.wf(),
        exists|ax: BigFloat| #[trigger] call_ensures(BigFloat::abs, (x,), ax)
            && call_ensures(tanh_at_w, (&ax, x.spec_neg(), w), y),
{
    let abs_x = x.abs();
    let y = tanh_at_w(&abs_x, x.is_sign_negative(), w);
    proof {
        assert(call_ensures(BigFloat::abs, (x,), abs_x));
        assert(call_ensures(tanh_at_w, (&abs_x, x.spec_neg(), w), y));
    }
    y
}

/// `tanh(|x|)` at working precision `w`, negated when `negative`.
pub fn tanh_at_w(abs_x: &BigFloat, negative: bool, w: u32) -> (y: BigFloat)
    requires
        abs_x.wf(),
        prec_ok(w as nat),
    ensures
        y.wf(),
        exists|xw: BigFloat, two: BigFloat, tx: BigFloat, ntx: BigFloat, em: BigFloat, ems: Status, nm: BigFloat, dn: BigFloat,
            q: BigFloat|
            #![trigger rounded_near(*abs_x, w as nat, xw), call_ensures(int_at, (2i64, w), two), multiplied(xw, two, tx), negation_of(ntx, tx), call_ensures(BigFloat::expm1, (&ntx, RoundingMode::NearestEven), (em, ems)), negation_of(nm, em), added(two, em, dn), divided(nm, dn, q)]
            rounded_near(*abs_x, w as nat, xw) && call_ensures(int_at, (2i64, w), two) && multiplied(xw, two, tx)
                && negation_of(ntx, tx) && call_ensures(BigFloat::expm1, (&ntx, RoundingMode::NearestEven), (em, ems))
                && negation_of(nm, em) && added(two, em, dn) && divided(nm, dn, q)
                && (if negative { negation_of(y, q) } else { y == q }),
{
    let abs_x_w = rne(abs_x, w);
    let two = int_at(2, w);
    let (two_x, _) = abs_x_w.mul(&two, RoundingMode::NearestEven);
    let neg_two_x = two_x.negated();
    let (em1, ems) = neg_two_x.expm1(RoundingMode::NearestEven);
    let numer = em1.negated();
    let (denom, _) = two.add(&em1, RoundingMode::NearestEven);
    let (result_abs, _) = numer.div(&denom, RoundingMode::NearestEven);
    proof {
        assert(rounded_near(*abs_x, w as nat, abs_x_w));
        assert(call_ensures(int_at, (2i64, w), two));
        assert(multiplied(abs_x_w, two, two_x));
        assert(negation_of(neg_two_x, two_x));
        assert(call_ensures(BigFloat::expm1, (&neg_two_x, RoundingMode::NearestEven), (em1, ems)));
        assert(negation_of(numer, em1));
        assert(added(two, em1, denom));
        assert(divided(numer, denom, result_abs));
    }
    if negative {
        let y = result_abs.negated();
        proof {
            assert(negation_of(y, result_abs));
        }
        y
    } else {
        result_abs
    }
}

/// What `tanh` gives at the normal arguments that are not tiny: the
/// value [`tanh_signed_at_w`] computes at a working precision of the
/// Ziv schedule, rounded to `p` bits under `mode`.
pub open spec fn tanh_value(x: BigFloat, r: BigFloat, st: Status, p: nat, mode: RoundingMode) -> bool {
    x.class is Normal && !(x.class->Normal_exponent <= -(p + 2))
        ==> exists|w: u32, y: BigFloat, s0: Status| #![trigger call_ensures(tanh_signed_at_w, (&x, w), y), rounds_to(y, p, mode, r, s0)]
            call_ensures(tanh_signed_at_w, (&x, w), y) && ziv_on_schedule(w as int, p as int) && rounds_to(y, p, mode, r, s0)
}

fn tanh_kernel(x: &BigFloat, target: u32, mode: RoundingMode) -> (r: (BigFloat, Status))
    requires
        x.wf(),
        prec_ok(target as nat),
    ensures
        r.0.wf(),
        r.0.precision == target,
        tanh_special(*x, r.0, r.1, target as nat),
        tanh_tiny(*x, r.0, r.1, target as nat, mode),
        tanh_value(*x, r.0, r.1, target as nat, mode),
{
    match &x.class {
        Class::Nan { .. } => return nan_in(x, target),
        Class::Zero { sign } => return (zero_at(*sign, target), Status { bits: 0 }),
        Class::Infinity { sign: Sign::Positive } => return (one_at(target), Status { bits: 0 }),
        Class::Infinity { sign: Sign::Negative } => return (minus_one_at(target), Status { bits: 0 }),
        Class::Normal { .. } => {},
    }
    let e = exponent_of(x);
    if e <= -(target as i64 + 2) {
        return round_with_infinitesimal(x, true, target, mode);
    }
    let eval = |w: u32| -> (y: BigFloat)
        requires
            prec_ok(w as nat),
        ensures
            y.wf(),
            call_ensures(tanh_signed_at_w, (x, w), y),
    {
        tanh_signed_at_w(x, w)
    };
    let (result, status) = ziv_round(eval, target, mode, TANH_ERROR_GUARD);
    proof {
        let t = choose|t: ZivTrace| t.0 == result && t.1 == status && #[trigger] is_trace_of(eval, target as nat, mode, t)
            && ziv_on_schedule(t.2 as int, target as int);
        assert(call_ensures(tanh_signed_at_w, (x, t.2), t.3));
        assert(rounds_to(t.3, target as nat, mode, result, status));
    }
    (result, status)
}

impl BigFloat {
    /// `tanh(self)` rounded under `mode` to the precision of
    /// `self`.
    pub fn tanh(&self, mode: RoundingMode) -> (r: (BigFloat, Status))
        requires
            self.wf(),
        ensures
            r.0.wf(),
            r.0.precision == self.precision,
            tanh_special(*self, r.0, r.1, self.precision as nat),
            tanh_value(*self, r.0, r.1, self.precision as nat, mode),
            tanh_tiny(*self, r.0, r.1, self.precision as nat, mode),
    {
        tanh_kernel(self, self.precision, mode)
    }

    /// `tanh(self)` rounded under `mode` to
    /// `target_precision` bits.
    pub fn tanh_round(&self, target_precision: u32, mode: RoundingMode) -> (r: Result<(BigFloat, Status), BuildError>)
        requires
            self.wf(),
        ensures
            r is Ok <==> prec_ok(target_precision as nat),
            target_precision == 0 ==> r == Err::<(BigFloat, Status), BuildError>(BuildError::PrecisionZero),
            r matches Ok(v) ==> v.0.wf() && v.0.precision == target_precision
                && tanh_special(*self, v.0, v.1, target_precision as nat)
                && tanh_tiny(*self, v.0, v.1, target_precision as nat, mode)
                && tanh_value(*self, v.0, v.1, target_precision as nat, mode),
    {
        BigFloat::check_precision(target_precision)?;
        Ok(tanh_kernel(self, target_precision, mode))
    }
}

impl<const PREC: u32> FixedFloat<PREC> {
    /// `tanh(self)` at the fixed precision.
    pub fn tanh(&self, mode: RoundingMode) -> (r: (FixedFloat<PREC>, Status))
        requires
            self.wf(),
        ensures
            r.0.wf(),
            tanh_special(self.value(), r.0.value(), r.1, PREC as nat),
            tanh_value(self.value(), r.0.value(), r.1, PREC as nat, mode),
            tanh_tiny(self.value(), r.0.value(), r.1, PREC as nat, mode),
            call_ensures(BigFloat::tanh, (&self.value(), mode), (r.0.value(), r.1)),
    {
        let (big, st) = self.big_ref().tanh(mode);
        (FixedFloat::wrap(big), st)
    }
}

} // verus!

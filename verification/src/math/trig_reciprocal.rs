//! `cot(x)`, `sec(x)` and `csc(x)` as kernels of their own: the
//! argument is reduced to a quadrant and `|r| ≤ π/4`, `sin r` and
//! `cos r` are taken at one working precision, the reciprocal or ratio
//! is formed there, and the Ziv driver rounds once to the target.
//!
//! | q | sin(x) | cos(x) | cot     | sec   | csc   |
//! |---|--------|--------|---------|-------|-------|
//! | 0 | +s     | +c     | c/s     | 1/c   | 1/s   |
//! | 1 | +c     | −s     | −s/c    | −1/s  | 1/c   |
//! | 2 | −s     | −c     | c/s     | −1/c  | −1/s  |
//! | 3 | −c     | +s     | −s/c    | 1/s   | −1/c  |

use vstd::prelude::*;
use crate::types::{BigFloat, BuildError, Class, RoundingMode, Status, FLAG_INVALID, FLAG_DIV_BY_ZERO, prec_ok};
use crate::float::{nan_result, finite_value_is};
use crate::fixed::FixedFloat;
use super::{wadd, one_at, inf_at, qnan_at, nan_in, force_inexact};
use super::exp::has_inexact;
use super::sin::{sin_taylor, cos_taylor, has_invalid, flag_nan_invalid};
use super::trig_reduce::{reduce, past_reduction, Reduction};
use super::ziv::{ziv_round, DEFAULT_ERROR_GUARD, ZIV_BASE_GUARD, ZivTrace, is_trace_of, ziv_on_schedule};
use super::{rounds_to, divided};
use crate::arith::negation_of;

verus! {

/// Guard bits charged to one evaluation of the cot kernel.
pub const COT_ERROR_GUARD: u32 = DEFAULT_ERROR_GUARD;

/// Guard bits charged to one evaluation of the sec kernel.
pub const SEC_ERROR_GUARD: u32 = DEFAULT_ERROR_GUARD;

/// Guard bits charged to one evaluation of the csc kernel.
pub const CSC_ERROR_GUARD: u32 = DEFAULT_ERROR_GUARD;

/// The three reciprocal circular functions.
#[derive(Clone, Copy, Debug, PartialEq, Eq, Structural)]
pub enum Reciprocal {
    Cot,
    Sec,
    Csc,
}

/// What a finite nonzero argument gets: past the reduction a quiet NaN
/// with INVALID; a NaN result always carries INVALID, a normal one
/// INEXACT.
pub open spec fn reciprocal_normal(x: BigFloat, r: BigFloat, st: Status, p: nat) -> bool {
    &&& (past_reduction(x, p) ==> r.class is Nan && r.class->Nan_quiet && !r.spec_neg() && st.bits == FLAG_INVALID)
    &&& (x.class is Normal && r.class is Nan ==> has_invalid(st))
    &&& (x.class is Normal && r.class is Normal ==> has_inexact(st))
}

/// The outcome each reciprocal promises: NaNs propagate, infinities give
/// a quiet NaN with INVALID, `cot(±0)` and `csc(±0)` are the poles `±∞`
/// with DIV_BY_ZERO, and `sec(±0) = 1` exactly.
pub open spec fn reciprocal_special(kind: Reciprocal, x: BigFloat, r: BigFloat, st: Status, p: nat) -> bool {
    &&& (x.class is Nan ==> nan_result(r, st, x, p))
    &&& (x.class is Infinity ==> r.class is Nan && r.class->Nan_quiet && !r.spec_neg() && st.bits == FLAG_INVALID)
    &&& (x.class matches Class::Zero { sign } ==> if kind == Reciprocal::Sec {
        finite_value_is(r, 1, 0) && st.bits == 0
    } else {
        r.class == (Class::Infinity { sign }) && st.bits == FLAG_DIV_BY_ZERO
    })
    &&& reciprocal_normal(x, r, st, p)
}

/// `v` is `cos x` in quadrant `q` from the series values `s = sin r`
/// and `c = cos r`: `c`, `−s`, `−c`, `s`.
pub open spec fn cos_in_quadrant(q: u8, s: BigFloat, c: BigFloat, v: BigFloat) -> bool {
    ||| q == 0 && v == c
    ||| q == 1 && negation_of(v, s)
    ||| q == 2 && negation_of(v, c)
    ||| q == 3 && v == s
}

/// `v` is `sin x` in quadrant `q` from the series values `s = sin r`
/// and `c = cos r`: `s`, `c`, `−s`, `−c`.
pub open spec fn sin_in_quadrant(q: u8, s: BigFloat, c: BigFloat, v: BigFloat) -> bool {
    ||| q == 0 && v == s
    ||| q == 1 && v == c
    ||| q == 2 && negation_of(v, s)
    ||| q == 3 && negation_of(v, c)
}

/// How [`compose_reciprocal`] forms the value from `s` and `c`, what
/// [`sin_taylor`] and [`cos_taylor`] give at `r`, as the table above
/// says: `cot` is `c/s` in quadrants 0 and 2 and `−s/c` otherwise;
/// `sec` is one over [`cos_in_quadrant`], `csc` one over
/// [`sin_in_quadrant`]; each division rounded to nearest.
pub open spec fn reciprocal_form(kind: Reciprocal, q: u8, r: BigFloat, w: u32, y: BigFloat) -> bool {
    exists|s: BigFloat, c: BigFloat|
        #![trigger call_ensures(sin_taylor, (&r, w), s), call_ensures(cos_taylor, (&r, w), c)]
        call_ensures(sin_taylor, (&r, w), s) && call_ensures(cos_taylor, (&r, w), c) && match kind {
            Reciprocal::Cot => if q == 0 || q == 2 {
                divided(c, s, y)
            } else {
                exists|ns: BigFloat| #[trigger] negation_of(ns, s) && divided(ns, c, y)
            },
            Reciprocal::Sec => exists|one: BigFloat, d: BigFloat|
                #![trigger call_ensures(one_at, (w,), one), divided(one, d, y)]
                call_ensures(one_at, (w,), one) && cos_in_quadrant(q, s, c, d) && divided(one, d, y),
            Reciprocal::Csc => exists|one: BigFloat, d: BigFloat|
                #![trigger call_ensures(one_at, (w,), one), divided(one, d, y)]
                call_ensures(one_at, (w,), one) && sin_in_quadrant(q, s, c, d) && divided(one, d, y),
        }
}

/// The reciprocal at working precision `w` from a quadrant and the
/// reduced argument.
pub fn compose_reciprocal(kind: Reciprocal, quadrant: u8, r: &BigFloat, w: u32) -> (y: BigFloat)
    requires
        r.wf(),
        prec_ok(w as nat),
    ensures
        y.wf(),
        quadrant < 4 ==> reciprocal_form(kind, quadrant, *r, w, y),
{
    let s = sin_taylor(r, w);
    let c = cos_taylor(r, w);
    let ghost sv = s;
    let ghost cv = c;
    proof {
        assert(call_ensures(sin_taylor, (r, w), sv));
        assert(call_ensures(cos_taylor, (r, w), cv));
    }
    match kind {
        Reciprocal::Cot => {
            if quadrant == 0 || quadrant == 2 {
                let y = c.div(&s, RoundingMode::NearestEven).0;
                proof {
                    assert(divided(cv, sv, y));
                }
                y
            } else {
                let ns = s.negated();
                let y = ns.div(&c, RoundingMode::NearestEven).0;
                proof {
                    assert(negation_of(ns, sv));
                    assert(divided(ns, cv, y));
                }
                y
            }
        },
        Reciprocal::Sec => {
            let cos_x = if quadrant == 0 {
                c
            } else if quadrant == 1 {
                s.negated()
            } else if quadrant == 2 {
                c.negated()
            } else {
                s
            };
            let one = one_at(w);
            let y = one.div(&cos_x, RoundingMode::NearestEven).0;
            proof {
                assert(call_ensures(one_at, (w,), one));
                assert(quadrant < 4 ==> cos_in_quadrant(quadrant, sv, cv, cos_x));
                assert(divided(one, cos_x, y));
            }
            y
        },
        Reciprocal::Csc => {
            let sin_x = if quadrant == 0 {
                s
            } else if quadrant == 1 {
                c
            } else if quadrant == 2 {
                s.negated()
            } else {
                c.negated()
            };
            let one = one_at(w);
            let y = one.div(&sin_x, RoundingMode::NearestEven).0;
            proof {
                assert(call_ensures(one_at, (w,), one));
                assert(quadrant < 4 ==> sin_in_quadrant(quadrant, sv, cv, sin_x));
                assert(divided(one, sin_x, y));
            }
            y
        },
    }
}

/// The reciprocal of `x` at working precision `w`: a quiet NaN where the
/// reduction refuses.
pub fn reciprocal_at_w(kind: Reciprocal, x: &BigFloat, w: u32) -> (y: BigFloat)
    requires
        x.wf(),
        prec_ok(w as nat),
    ensures
        y.wf(),
        exists|rr: Option<Reduction>| #[trigger] call_ensures(reduce, (x, w), rr) && match rr {
            Some(red) => reciprocal_form(kind, red.quadrant, red.r, w, y),
            None => y.class is Nan,
        },
{
    let rr = reduce(x, w);
    proof {
        assert(call_ensures(reduce, (x, w), rr));
    }
    match rr {
        Some(red) => compose_reciprocal(kind, red.quadrant, &red.r, w),
        None => qnan_at(w),
    }
}

/// What `cot`, `sec` and `csc` give at a normal argument: a quiet NaN
/// with INVALID where the argument reduction fails, otherwise the value
/// [`reciprocal_at_w`] computes at a working precision of the Ziv
/// schedule, rounded to `p` bits under `mode`.
pub open spec fn reciprocal_value(kind: Reciprocal, x: BigFloat, r: BigFloat, st: Status, p: nat, mode: RoundingMode) -> bool {
    x.class is Normal
        ==> (r.class is Nan && st.bits == FLAG_INVALID) || exists|w: u32, y: BigFloat, s0: Status|
            #![trigger call_ensures(reciprocal_at_w, (kind, &x, w), y), rounds_to(y, p, mode, r, s0)]
            call_ensures(reciprocal_at_w, (kind, &x, w), y) && ziv_on_schedule(w as int, p as int) && rounds_to(y, p, mode, r, s0)
}

fn reciprocal_kernel(kind: Reciprocal, x: &BigFloat, target: u32, mode: RoundingMode) -> (r: (BigFloat, Status))
    requires
        x.wf(),
        prec_ok(target as nat),
    ensures
        r.0.wf(),
        r.0.precision == target,
        reciprocal_special(kind, *x, r.0, r.1, target as nat),
        reciprocal_value(kind, *x, r.0, r.1, target as nat, mode),
{
    match &x.class {
        Class::Nan { .. } => return nan_in(x, target),
        Class::Infinity { .. } => return (qnan_at(target), Status { bits: FLAG_INVALID }),
        Class::Zero { sign } => {
            if kind == Reciprocal::Sec {
                return (one_at(target), Status { bits: 0 });
            } else {
                return (inf_at(*sign, target), Status { bits: FLAG_DIV_BY_ZERO });
            }
        },
        Class::Normal { .. } => {},
    }
    let first = wadd(target, ZIV_BASE_GUARD as u64);
    if reduce(x, first).is_none() {
        proof {
            crate::types::lemma_or_inexact(0);
        }
        return (qnan_at(target), Status { bits: FLAG_INVALID });
    }
    let guard = match kind {
        Reciprocal::Cot => COT_ERROR_GUARD,
        Reciprocal::Sec => SEC_ERROR_GUARD,
        Reciprocal::Csc => CSC_ERROR_GUARD,
    };
    let eval = |w: u32| -> (y: BigFloat)
        requires
            prec_ok(w as nat),
        ensures
            y.wf(),
            call_ensures(reciprocal_at_w, (kind, x, w), y),
    {
        reciprocal_at_w(kind, x, w)
    };
    let (result, status) = ziv_round(eval, target, mode, guard);
    proof {
        let t = choose|t: ZivTrace| t.0 == result && t.1 == status && #[trigger] is_trace_of(eval, target as nat, mode, t)
            && ziv_on_schedule(t.2 as int, target as int);
        assert(call_ensures(reciprocal_at_w, (kind, x, t.2), t.3));
        assert(rounds_to(t.3, target as nat, mode, result, status));
    }
    let st1 = flag_nan_invalid(&result, status);
    let st = force_inexact(&result, st1);
    proof {
        crate::types::lemma_or_inexact(st1.bits);
    }
    (result, st)
}

impl BigFloat {
    /// `cot(self)` rounded under `mode` to the precision of
    /// `self`.
    pub fn cot(&self, mode: RoundingMode) -> (r: (BigFloat, Status))
        requires
            self.wf(),
        ensures
            r.0.wf(),
            r.0.precision == self.precision,
            reciprocal_special(Reciprocal::Cot, *self, r.0, r.1, self.precision as nat),
            reciprocal_value(Reciprocal::Cot, *self, r.0, r.1, self.precision as nat, mode),
    {
        reciprocal_kernel(Reciprocal::Cot, self, self.precision, mode)
    }

    /// `cot(self)` rounded under `mode` to `target_precision`
    /// bits.
    pub fn cot_round(&self, target_precision: u32, mode: RoundingMode) -> (r: Result<(BigFloat, Status), BuildError>)
        requires
            self.wf(),
        ensures
            r is Ok <==> prec_ok(target_precision as nat),
            target_precision == 0 ==> r == Err::<(BigFloat, Status), BuildError>(BuildError::PrecisionZero),
            r matches Ok(v) ==> v.0.wf() && v.0.precision == target_precision
                && reciprocal_special(Reciprocal::Cot, *self, v.0, v.1, target_precision as nat)
                && reciprocal_value(Reciprocal::Cot, *self, v.0, v.1, target_precision as nat, mode),
    {
        BigFloat::check_precision(target_precision)?;
        Ok(reciprocal_kernel(Reciprocal::Cot, self, target_precision, mode))
    }

    /// [`BigFloat::cot`], its flags merged into `flags`.
    pub fn cot_with_flags(&self, mode: RoundingMode, flags: &mut Status) -> (r: BigFloat)
        requires
            self.wf(),
        ensures
            r.wf(),
            r.precision == self.precision,
            exists|st: Status| #![trigger reciprocal_special(Reciprocal::Cot, *self, r, st, self.precision as nat)]
                reciprocal_special(Reciprocal::Cot, *self, r, st, self.precision as nat)
                && reciprocal_value(Reciprocal::Cot, *self, r, st, self.precision as nat, mode)
                && final(flags).bits == old(flags).bits | st.bits,
    {
        let (value, status) = self.cot(mode);
        *flags = flags.merge(status);
        value
    }

    /// [`BigFloat::cot_round`], its flags merged into `flags`.
    pub fn cot_round_with_flags(&self, target_precision: u32, mode: RoundingMode, flags: &mut Status) -> (r: Result<BigFloat, BuildError>)
        requires
            self.wf(),
        ensures
            r is Ok <==> prec_ok(target_precision as nat),
            target_precision == 0 ==> r == Err::<BigFloat, BuildError>(BuildError::PrecisionZero),
            r is Err ==> *final(flags) == *old(flags),
            r matches Ok(v) ==> v.wf() && v.precision == target_precision && exists|st: Status|
                #![trigger reciprocal_special(Reciprocal::Cot, *self, v, st, target_precision as nat)]
                reciprocal_special(Reciprocal::Cot, *self, v, st, target_precision as nat)
                && reciprocal_value(Reciprocal::Cot, *self, v, st, target_precision as nat, mode)
                && final(flags).bits == old(flags).bits | st.bits,
    {
        let (value, status) = self.cot_round(target_precision, mode)?;
        *flags = flags.merge(status);
        Ok(value)
    }

    /// `sec(self)` rounded under `mode` to the precision of
    /// `self`.
    pub fn sec(&self, mode: RoundingMode) -> (r: (BigFloat, Status))
        requires
            self.wf(),
        ensures
            r.0.wf(),
            r.0.precision == self.precision,
            reciprocal_special(Reciprocal::Sec, *self, r.0, r.1, self.precision as nat),
            reciprocal_value(Reciprocal::Sec, *self, r.0, r.1, self.precision as nat, mode),
    {
        reciprocal_kernel(Reciprocal::Sec, self, self.precision, mode)
    }

    /// `sec(self)` rounded under `mode` to `target_precision`
    /// bits.
    pub fn sec_round(&self, target_precision: u32, mode: RoundingMode) -> (r: Result<(BigFloat, Status), BuildError>)
        requires
            self.wf(),
        ensures
            r is Ok <==> prec_ok(target_precision as nat),
            target_precision == 0 ==> r == Err::<(BigFloat, Status), BuildError>(BuildError::PrecisionZero),
            r matches Ok(v) ==> v.0.wf() && v.0.precision == target_precision
                && reciprocal_special(Reciprocal::Sec, *self, v.0, v.1, target_precision as nat)
                && reciprocal_value(Reciprocal::Sec, *self, v.0, v.1, target_precision as nat, mode),
    {
        BigFloat::check_precision(target_precision)?;
        Ok(reciprocal_kernel(Reciprocal::Sec, self, target_precision, mode))
    }

    /// [`BigFloat::sec`], its flags merged into `flags`.
    pub fn sec_with_flags(&self, mode: RoundingMode, flags: &mut Status) -> (r: BigFloat)
        requires
            self.wf(),
        ensures
            r.wf(),
            r.precision == self.precision,
            exists|st: Status| #![trigger reciprocal_special(Reciprocal::Sec, *self, r, st, self.precision as nat)]
                reciprocal_special(Reciprocal::Sec, *self, r, st, self.precision as nat)
                && reciprocal_value(Reciprocal::Sec, *self, r, st, self.precision as nat, mode)
                && final(flags).bits == old(flags).bits | st.bits,
    {
        let (value, status) = self.sec(mode);
        *flags = flags.merge(status);
        value
    }

    /// [`BigFloat::sec_round`], its flags merged into `flags`.
    pub fn sec_round_with_flags(&self, target_precision: u32, mode: RoundingMode, flags: &mut Status) -> (r: Result<BigFloat, BuildError>)
        requires
            self.wf(),
        ensures
            r is Ok <==> prec_ok(target_precision as nat),
            target_precision == 0 ==> r == Err::<BigFloat, BuildError>(BuildError::PrecisionZero),
            r is Err ==> *final(flags) == *old(flags),
            r matches Ok(v) ==> v.wf() && v.precision == target_precision && exists|st: Status|
                #![trigger reciprocal_special(Reciprocal::Sec, *self, v, st, target_precision as nat)]
                reciprocal_special(Reciprocal::Sec, *self, v, st, target_precision as nat)
                && reciprocal_value(Reciprocal::Sec, *self, v, st, target_precision as nat, mode)
                && final(flags).bits == old(flags).bits | st.bits,
    {
        let (value, status) = self.sec_round(target_precision, mode)?;
        *flags = flags.merge(status);
        Ok(value)
    }

    /// `csc(self)` rounded under `mode` to the precision of
    /// `self`.
    pub fn csc(&self, mode: RoundingMode) -> (r: (BigFloat, Status))
        requires
            self.wf(),
        ensures
            r.0.wf(),
            r.0.precision == self.precision,
            reciprocal_special(Reciprocal::Csc, *self, r.0, r.1, self.precision as nat),
            reciprocal_value(Reciprocal::Csc, *self, r.0, r.1, self.precision as nat, mode),
    {
        reciprocal_kernel(Reciprocal::Csc, self, self.precision, mode)
    }

    /// `csc(self)` rounded under `mode` to `target_precision`
    /// bits.
    pub fn csc_round(&self, target_precision: u32, mode: RoundingMode) -> (r: Result<(BigFloat, Status), BuildError>)
        requires
            self.wf(),
        ensures
            r is Ok <==> prec_ok(target_precision as nat),
            target_precision == 0 ==> r == Err::<(BigFloat, Status), BuildError>(BuildError::PrecisionZero),
            r matches Ok(v) ==> v.0.wf() && v.0.precision == target_precision
                && reciprocal_special(Reciprocal::Csc, *self, v.0, v.1, target_precision as nat)
                && reciprocal_value(Reciprocal::Csc, *self, v.0, v.1, target_precision as nat, mode),
    {
        BigFloat::check_precision(target_precision)?;
        Ok(reciprocal_kernel(Reciprocal::Csc, self, target_precision, mode))
    }

    /// [`BigFloat::csc`], its flags merged into `flags`.
    pub fn csc_with_flags(&self, mode: RoundingMode, flags: &mut Status) -> (r: BigFloat)
        requires
            self.wf(),
        ensures
            r.wf(),
            r.precision == self.precision,
            exists|st: Status| #![trigger reciprocal_special(Reciprocal::Csc, *self, r, st, self.precision as nat)]
                reciprocal_special(Reciprocal::Csc, *self, r, st, self.precision as nat)
                && reciprocal_value(Reciprocal::Csc, *self, r, st, self.precision as nat, mode)
                && final(flags).bits == old(flags).bits | st.bits,
    {
        let (value, status) = self.csc(mode);
        *flags = flags.merge(status);
        value
    }

    /// [`BigFloat::csc_round`], its flags merged into `flags`.
    pub fn csc_round_with_flags(&self, target_precision: u32, mode: RoundingMode, flags: &mut Status) -> (r: Result<BigFloat, BuildError>)
        requires
            self.wf(),
        ensures
            r is Ok <==> prec_ok(target_precision as nat),
            target_precision == 0 ==> r == Err::<BigFloat, BuildError>(BuildError::PrecisionZero),
            r is Err ==> *final(flags) == *old(flags),
            r matches Ok(v) ==> v.wf() && v.precision == target_precision && exists|st: Status|
                #![trigger reciprocal_special(Reciprocal::Csc, *self, v, st, target_precision as nat)]
                reciprocal_special(Reciprocal::Csc, *self, v, st, target_precision as nat)
                && reciprocal_value(Reciprocal::Csc, *self, v, st, target_precision as nat, mode)
                && final(flags).bits == old(flags).bits | st.bits,
    {
        let (value, status) = self.csc_round(target_precision, mode)?;
        *flags = flags.merge(status);
        Ok(value)
    }
}

impl<const PREC: u32> FixedFloat<PREC> {
    /// `cot(self)` at the fixed precision.
    pub fn cot(&self, mode: RoundingMode) -> (r: (FixedFloat<PREC>, Status))
        requires
            self.wf(),
        ensures
            r.0.wf(),
            reciprocal_special(Reciprocal::Cot, self.value(), r.0.value(), r.1, PREC as nat),
            reciprocal_value(Reciprocal::Cot, self.value(), r.0.value(), r.1, PREC as nat, mode),
            call_ensures(BigFloat::cot, (&self.value(), mode), (r.0.value(), r.1)),
    {
        let (big, st) = self.big_ref().cot(mode);
        (FixedFloat::wrap(big), st)
    }

    /// `sec(self)` at the fixed precision.
    pub fn sec(&self, mode: RoundingMode) -> (r: (FixedFloat<PREC>, Status))
        requires
            self.wf(),
        ensures
            r.0.wf(),
            reciprocal_special(Reciprocal::Sec, self.value(), r.0.value(), r.1, PREC as nat),
            reciprocal_value(Reciprocal::Sec, self.value(), r.0.value(), r.1, PREC as nat, mode),
            call_ensures(BigFloat::sec, (&self.value(), mode), (r.0.value(), r.1)),
    {
        let (big, st) = self.big_ref().sec(mode);
        (FixedFloat::wrap(big), st)
    }

    /// `csc(self)` at the fixed precision.
    pub fn csc(&self, mode: RoundingMode) -> (r: (FixedFloat<PREC>, Status))
        requires
            self.wf(),
        ensures
            r.0.wf(),
            reciprocal_special(Reciprocal::Csc, self.value(), r.0.value(), r.1, PREC as nat),
            reciprocal_value(Reciprocal::Csc, self.value(), r.0.value(), r.1, PREC as nat, mode),
            call_ensures(BigFloat::csc, (&self.value(), mode), (r.0.value(), r.1)),
    {
        let (big, st) = self.big_ref().csc(mode);
        (FixedFloat::wrap(big), st)
    }
}

} // verus!

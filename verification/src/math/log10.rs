//! `log10(x)`: the base-10 logarithm, `ln(x) / ln 10` at a working
//! precision 64 bits above the target, capped at 1024 bits.

use vstd::prelude::*;
use crate::types::{BigFloat, BuildError, Class, Sign, RoundingMode, Status, prec_ok};
use crate::fixed::FixedFloat;
use super::{wadd, rnd, ln_10_at, zero_at, is_unit, is_unit_exec};
use super::ln::{log_domain_special, log_domain_edge, ln_special, ln_value};
use super::rounds_to;

verus! {

/// The outcome `log10` promises: the logarithm's domain edges and an
/// exact `+0` at one.
pub open spec fn log10_special(x: BigFloat, r: BigFloat, st: Status, p: nat) -> bool {
    &&& log_domain_special(x, r, st, p)
    &&& (is_unit(x, false) ==> r.class == (Class::Zero { sign: Sign::Positive }) && st.bits == 0)
}

/// The working precision of `log10` at `p` target bits: `p + 64`,
/// capped at 1024.
pub open spec fn log10_working(p: nat) -> int {
    if super::prec_clamp(p as int + 64) > 1024 { 1024 } else { super::prec_clamp(p as int + 64) }
}

/// What `log10` gives at a positive normal argument other than one:
/// `ln x` at the working precision `w` (as `ln` gives it, rounded to
/// nearest), divided by [`ln_10_at`]`(w)` rounded to nearest, then
/// rounded to `p` bits under `mode`; the flags of the three roundings
/// together.
pub open spec fn log10_value(x: BigFloat, r: BigFloat, st: Status, p: nat, mode: RoundingMode) -> bool {
    x.class is Normal && !x.spec_neg() && !is_unit(x, false)
        ==> exists|l: BigFloat, ls: Status, c: BigFloat, q: BigFloat, qs: Status, s3: Status|
            #![trigger ln_value(x, l, ls, log10_working(p) as nat, RoundingMode::NearestEven), call_ensures(ln_10_at, (log10_working(p) as u32,), c), crate::arith::div_spec(l, c, q, qs, crate::arith::op_precision(l, c) as nat, RoundingMode::NearestEven), rounds_to(q, p, mode, r, s3)]
            l.wf() && l.precision == log10_working(p) && ln_special(x, l, ls, log10_working(p) as nat)
                && ln_value(x, l, ls, log10_working(p) as nat, RoundingMode::NearestEven)
                && call_ensures(ln_10_at, (log10_working(p) as u32,), c)
                && crate::arith::div_spec(l, c, q, qs, crate::arith::op_precision(l, c) as nat, RoundingMode::NearestEven)
                && rounds_to(q, p, mode, r, s3) && st.bits == (ls.bits | qs.bits | s3.bits)
}

fn log10_kernel(x: &BigFloat, target: u32, mode: RoundingMode) -> (r: (BigFloat, Status))
    requires
        x.wf(),
        prec_ok(target as nat),
    ensures
        r.0.wf(),
        r.0.precision == target,
        log10_special(*x, r.0, r.1, target as nat),
        log10_value(*x, r.0, r.1, target as nat, mode),
{
    match log_domain_edge(x, target) {
        Some(v) => return v,
        None => {},
    }
    if is_unit_exec(x, false) {
        return (zero_at(Sign::Positive, target), Status { bits: 0 });
    }
    let w = wadd(target, 64);
    let working: u32 = if w > 1024 { 1024 } else { w };
    let (ln_x, ln_status) = match x.ln_round(working, RoundingMode::NearestEven) {
        Ok(v) => v,
        Err(_) => {
            proof {
                assert(false);
            }
            return (super::qnan_at(target), Status { bits: 0 });
        },
    };
    let ln_10 = ln_10_at(working);
    let (ratio, div_status) = ln_x.div(&ln_10, RoundingMode::NearestEven);
    let (rounded, round_status) = rnd(&ratio, target, mode);
    let st = ln_status.merge(div_status).merge(round_status);
    proof {
        assert(working as int == log10_working(target as nat));
        assert(call_ensures(ln_10_at, (working,), ln_10));
        assert(ln_value(*x, ln_x, ln_status, working as nat, RoundingMode::NearestEven));
        assert(rounds_to(ratio, target as nat, mode, rounded, round_status));
        assert(log10_working(target as nat) as u32 == working);
        assert(log10_working(target as nat) as nat == working as nat);
        assert(call_ensures(ln_10_at, (log10_working(target as nat) as u32,), ln_10));
        assert(ln_value(*x, ln_x, ln_status, log10_working(target as nat) as nat, RoundingMode::NearestEven));
        assert(ln_special(*x, ln_x, ln_status, log10_working(target as nat) as nat));
    }
    (rounded, st)
}

impl BigFloat {
    /// `log10(self)` rounded under `mode` to the precision of `self`.
    pub fn log10(&self, mode: RoundingMode) -> (r: (BigFloat, Status))
        requires
            self.wf(),
        ensures
            r.0.wf(),
            r.0.precision == self.precision,
            log10_special(*self, r.0, r.1, self.precision as nat),
            log10_value(*self, r.0, r.1, self.precision as nat, mode),
    {
        log10_kernel(self, self.precision, mode)
    }

    /// `log10(self)` rounded under `mode` to `target_precision` bits.
    pub fn log10_round(&self, target_precision: u32, mode: RoundingMode) -> (r: Result<(BigFloat, Status), BuildError>)
        requires
            self.wf(),
        ensures
            r is Ok <==> prec_ok(target_precision as nat),
            target_precision == 0 ==> r == Err::<(BigFloat, Status), BuildError>(BuildError::PrecisionZero),
            r matches Ok(v) ==> v.0.wf() && v.0.precision == target_precision
                && log10_special(*self, v.0, v.1, target_precision as nat)
                && log10_value(*self, v.0, v.1, target_precision as nat, mode),
    {
        BigFloat::check_precision(target_precision)?;
        Ok(log10_kernel(self, target_precision, mode))
    }
}

impl<const PREC: u32> FixedFloat<PREC> {
    /// `log10(self)` at the fixed precision.
    pub fn log10(&self, mode: RoundingMode) -> (r: (FixedFloat<PREC>, Status))
        requires
            self.wf(),
        ensures
            r.0.wf(),
            log10_special(self.value(), r.0.value(), r.1, PREC as nat),
            log10_value(self.value(), r.0.value(), r.1, PREC as nat, mode),
            call_ensures(BigFloat::log10, (&self.value(), mode), (r.0.value(), r.1)),
    {
        let (big, st) = self.big_ref().log10(mode);
        (FixedFloat::wrap(big), st)
    }
}

} // verus!

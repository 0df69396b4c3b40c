//! `log2(x)`: the base-2 logarithm, `ln(x) / ln 2` at a working
//! precision 64 bits above the target, with exact powers of two
//! answered directly.

use vstd::prelude::*;
use vstd::arithmetic::power2::pow2;
use crate::types::{BigFloat, BuildError, Class, Sign, RoundingMode, Status, FLAG_INEXACT, prec_ok};
use crate::round::bits;
use crate::float::{finite_value_is, abs_i64};
use crate::fixed::FixedFloat;
use super::{wadd, rnd, ln_2_at};
use super::exp::has_inexact;
use super::ln::{log_domain_special, log_domain_edge, ln_special, ln_value};
use super::rounds_to;

verus! {

/// `x` is a positive power of two.
pub open spec fn is_pos_pow2(x: BigFloat) -> bool {
    &&& x.class is Normal
    &&& !x.spec_neg()
    &&& x.sig() == pow2((x.precision - 1) as nat)
}

/// The outcome `log2` promises: the logarithm's domain edges, exact
/// integers at powers of two whose exponent fits the target, and
/// INEXACT on every other normal result.
pub open spec fn log2_special(x: BigFloat, r: BigFloat, st: Status, p: nat) -> bool {
    let k = x.class->Normal_exponent;
    &&& log_domain_special(x, r, st, p)
    &&& (is_pos_pow2(x) && bits(abs_i64(k)) <= p ==> st.bits == 0
        && (k == 0 ==> r.class == (Class::Zero { sign: Sign::Positive }))
        && (k != 0 ==> finite_value_is(r, k as int, 0)))
    &&& (x.class is Normal && !x.spec_neg() && !is_pos_pow2(x) && r.class is Normal ==> has_inexact(st))
}

/// What `log2` gives at a positive normal argument that is not a power
/// of two whose exponent is exact at `p` bits: `ln x` at `p + 64` bits
/// (as `ln` gives it, rounded to nearest), divided by
/// [`ln_2_at`]`(p + 64)` rounded to nearest, then rounded to `p` bits
/// under `mode`; the flags of the three roundings together, with
/// INEXACT on a normal result.
pub open spec fn log2_value(x: BigFloat, r: BigFloat, st: Status, p: nat, mode: RoundingMode) -> bool {
    x.class is Normal && !x.spec_neg()
        && !(is_pos_pow2(x) && !crate::round::rounding_inexact(abs_i64(x.class->Normal_exponent), false, p))
        ==> exists|l: BigFloat, ls: Status, c: BigFloat, q: BigFloat, qs: Status, s3: Status|
            #![trigger ln_value(x, l, ls, super::prec_clamp(p as int + 64) as nat, RoundingMode::NearestEven), call_ensures(ln_2_at, (super::prec_clamp(p as int + 64) as u32,), c), crate::arith::div_spec(l, c, q, qs, crate::arith::op_precision(l, c) as nat, RoundingMode::NearestEven), rounds_to(q, p, mode, r, s3)]
            l.wf() && l.precision == super::prec_clamp(p as int + 64) && ln_special(x, l, ls, super::prec_clamp(p as int + 64) as nat)
                && ln_value(x, l, ls, super::prec_clamp(p as int + 64) as nat, RoundingMode::NearestEven)
                && call_ensures(ln_2_at, (super::prec_clamp(p as int + 64) as u32,), c)
                && crate::arith::div_spec(l, c, q, qs, crate::arith::op_precision(l, c) as nat, RoundingMode::NearestEven)
                && rounds_to(q, p, mode, r, s3)
                && st.bits == (if r.class is Normal { ls.bits | qs.bits | s3.bits | FLAG_INEXACT } else { ls.bits | qs.bits | s3.bits })
}

/// The exponent `k` when `x` is `+2^k`.
pub fn power_of_two_exponent(x: &BigFloat) -> (r: Option<i64>)
    requires
        x.wf(),
    ensures
        r is Some <==> is_pos_pow2(*x),
        r matches Some(k) ==> k == x.class->Normal_exponent,
{
    match &x.class {
        Class::Normal { sign: Sign::Positive, exponent, .. } => {
            if super::sig_is_pow2(x) {
                Some(*exponent)
            } else {
                None
            }
        },
        _ => None,
    }
}

fn log2_kernel(x: &BigFloat, target: u32, mode: RoundingMode) -> (r: (BigFloat, Status))
    requires
        x.wf(),
        prec_ok(target as nat),
    ensures
        r.0.wf(),
        r.0.precision == target,
        log2_special(*x, r.0, r.1, target as nat),
        log2_value(*x, r.0, r.1, target as nat, mode),
{
    match log_domain_edge(x, target) {
        Some(v) => return v,
        None => {},
    }
    match power_of_two_exponent(x) {
        Some(k) => {
            match BigFloat::try_from_i64_exact(k, target) {
                Ok(v) => return (v, Status { bits: 0 }),
                Err(_) => {},
            }
        },
        None => {},
    }
    let working = wadd(target, 64);
    let (ln_x, ln_status) = match x.ln_round(working, RoundingMode::NearestEven) {
        Ok(v) => v,
        Err(_) => {
            proof {
                assert(false);
            }
            return (super::qnan_at(target), Status { bits: 0 });
        },
    };
    let ln_2 = ln_2_at(working);
    let (ratio, div_status) = ln_x.div(&ln_2, RoundingMode::NearestEven);
    let (rounded, round_status) = rnd(&ratio, target, mode);
    let mut status = ln_status.merge(div_status).merge(round_status);
    if rounded.is_normal() {
        status = status.merge(Status { bits: FLAG_INEXACT });
        proof {
            crate::types::lemma_or_inexact(ln_status.bits | div_status.bits | round_status.bits);
        }
    }
    proof {
        assert(working as int == super::prec_clamp(target as int + 64));
        assert(super::prec_clamp(target as int + 64) as u32 == working);
        assert(super::prec_clamp(target as int + 64) as nat == working as nat);
        assert(call_ensures(ln_2_at, (super::prec_clamp(target as int + 64) as u32,), ln_2));
        assert(ln_value(*x, ln_x, ln_status, super::prec_clamp(target as int + 64) as nat, RoundingMode::NearestEven));
        assert(ln_special(*x, ln_x, ln_status, super::prec_clamp(target as int + 64) as nat));
        assert(rounds_to(ratio, target as nat, mode, rounded, round_status));
    }
    (rounded, status)
}

impl BigFloat {
    /// `log2(self)` rounded under `mode` to the precision of `self`.
    pub fn log2(&self, mode: RoundingMode) -> (r: (BigFloat, Status))
        requires
            self.wf(),
        ensures
            r.0.wf(),
            r.0.precision == self.precision,
            log2_special(*self, r.0, r.1, self.precision as nat),
            log2_value(*self, r.0, r.1, self.precision as nat, mode),
    {
        log2_kernel(self, self.precision, mode)
    }

    /// `log2(self)` rounded under `mode` to `target_precision` bits.
    pub fn log2_round(&self, target_precision: u32, mode: RoundingMode) -> (r: Result<(BigFloat, Status), BuildError>)
        requires
            self.wf(),
        ensures
            r is Ok <==> prec_ok(target_precision as nat),
            target_precision == 0 ==> r == Err::<(BigFloat, Status), BuildError>(BuildError::PrecisionZero),
            r matches Ok(v) ==> v.0.wf() && v.0.precision == target_precision
                && log2_special(*self, v.0, v.1, target_precision as nat)
                && log2_value(*self, v.0, v.1, target_precision as nat, mode),
    {
        BigFloat::check_precision(target_precision)?;
        Ok(log2_kernel(self, target_precision, mode))
    }
}

impl<const PREC: u32> FixedFloat<PREC> {
    /// `log2(self)` at the fixed precision.
    pub fn log2(&self, mode: RoundingMode) -> (r: (FixedFloat<PREC>, Status))
        requires
            self.wf(),
        ensures
            r.0.wf(),
            log2_special(self.value(), r.0.value(), r.1, PREC as nat),
            log2_value(self.value(), r.0.value(), r.1, PREC as nat, mode),
            call_ensures(BigFloat::log2, (&self.value(), mode), (r.0.value(), r.1)),
    {
        let (big, st) = self.big_ref().log2(mode);
        (FixedFloat::wrap(big), st)
    }
}

} // verus!

//! `ψ(x) = Γ'(x)/Γ(x)`: the derivative of Stirling's series after
//! shifting the argument up by `ψ(z+1) = ψ(z) + 1/z`, and the
//! reflection `ψ(1−x) − π·cot πx` for negative non-integers, with the
//! working precision raised by the cancellation near the roots;
//! rounded through the Ziv driver.

use vstd::prelude::*;
use crate::types::{BigFloat, BuildError, Class, Sign, RoundingMode, Status, FLAG_INVALID, FLAG_DIV_BY_ZERO, prec_ok};
use crate::float::nan_result;
use crate::fixed::FixedFloat;
use super::{at_least_ratio, at_most_ratio, wadd, int_at, one_at, rne, zero_at, inf_at, qnan_at, exponent_of, nan_in, pi_at, force_inexact};
use super::exp::has_inexact;
use super::pow::int_value;
use super::lgamma::{is_integer, pole_proximity_depth, z_min_for_target, STIRLING_REACH_THRESHOLD};
use super::gamma_stirling::{stirling_digamma, spouge_digamma_scaled, shift_magnitude, shift_magnitude_of};
use super::ziv::{ziv_round, cancellation_boosted, value_exponent, DEFAULT_ERROR_GUARD, ZivTrace, is_trace_of, ziv_on_schedule};
use super::{rounds_to, multiplied, divided, subtracted, added, rounded_near, sum_chain, lemma_sum_chain_push};

verus! {

/// Guard bits charged to one evaluation of the digamma kernel.
pub const DIGAMMA_ERROR_GUARD: u32 = DEFAULT_ERROR_GUARD;

/// The outcome `digamma` promises: NaNs propagate, the poles (zero and
/// the negative integers) give `−∞` with DIV_BY_ZERO, `ψ(+∞) = +∞`,
/// `ψ(−∞)` is a quiet NaN with INVALID, and a normal result at a
/// normal argument is INEXACT.
pub open spec fn digamma_special(x: BigFloat, r: BigFloat, st: Status, p: nat) -> bool {
    &&& (x.class is Nan ==> nan_result(r, st, x, p))
    &&& ((x.class is Zero || (x.class is Normal && x.spec_neg() && int_value(x) is Some))
        ==> r.class == (Class::Infinity { sign: Sign::Negative }) && st.bits == FLAG_DIV_BY_ZERO)
    &&& (x.class == (Class::Infinity { sign: Sign::Positive }) ==> r.class == x.class && st.bits == 0)
    &&& (x.class == (Class::Infinity { sign: Sign::Negative }) ==> r.class is Nan && r.class->Nan_quiet && !r.spec_neg() && st.bits == FLAG_INVALID)
    &&& (x.class is Normal && r.class is Normal ==> has_inexact(st))
}

/// Whether `5/4 ≤ x ≤ 7/4`, around the positive root of `ψ`.
fn in_positive_root_window(x: &BigFloat) -> (r: bool)
    requires
        x.wf(),
    ensures
        r == (at_least_ratio(*x, 5, 2) && at_most_ratio(*x, 7, 2)),
{
    let five = int_at(5, 3);
    let seven = int_at(7, 3);
    proof {
        vstd::arithmetic::power2::lemma2_to64();
        crate::round::lemma_bits_le(5, 3);
        crate::round::lemma_bits_le(7, 3);
    }
    let lo = five.scale_by_pow2(-2).0;
    let hi = seven.scale_by_pow2(-2).0;
    proof {
        super::lemma_order_vs_ratio(*x, lo, 5, 2);
        super::lemma_order_vs_ratio(*x, hi, 7, 2);
    }
    let a = match x.compare(&lo) {
        Some(v) => v >= 0,
        None => false,
    };
    let b = match x.compare(&hi) {
        Some(v) => v <= 0,
        None => false,
    };
    a && b
}

/// One reciprocal of the upward shift: `t = 1/(xw + k)`, the integer
/// `k` taken at `w` bits, each operation rounded to nearest.
pub open spec fn shift_reciprocal(xw: BigFloat, one: BigFloat, k: int, w: u32, t: BigFloat) -> bool {
    exists|kb: BigFloat, den: BigFloat|
        #![trigger call_ensures(int_at, (k as i64, w), kb), added(xw, kb, den)]
        call_ensures(int_at, (k as i64, w), kb) && added(xw, kb, den) && divided(one, den, t)
}

/// How [`digamma_positive_at_w`] lifts a small argument by
/// `ψ(x) = ψ(x + n) − Σ_{k<n} 1/(x + k)`: `z` is `xw + n`, `pz` what
/// [`stirling_digamma`] gives at `z`, the sum starts at `+0` and adds
/// `1/(xw + k)` for `k = 0, …, n − 1`, and `d` is `pz` minus the sum;
/// each operation rounded to nearest at `w` bits.
pub open spec fn digamma_shift_form(xw: BigFloat, n: u32, w: u32, d: BigFloat) -> bool {
    exists|nb: BigFloat, z: BigFloat, pz: BigFloat, one: BigFloat, zero: BigFloat, terms: Seq<BigFloat>, accs: Seq<BigFloat>|
        #![trigger call_ensures(int_at, (n as i64, w), nb), added(xw, nb, z), call_ensures(stirling_digamma, (&z, w), pz), call_ensures(one_at, (w,), one), call_ensures(zero_at, (Sign::Positive, w), zero), sum_chain(zero, terms, accs)]
        call_ensures(int_at, (n as i64, w), nb) && added(xw, nb, z) && call_ensures(stirling_digamma, (&z, w), pz)
            && call_ensures(one_at, (w,), one) && call_ensures(zero_at, (Sign::Positive, w), zero)
            && terms.len() == n && sum_chain(zero, terms, accs)
            && (forall|k: int| 0 <= k < n ==> shift_reciprocal(xw, one, k, w, #[trigger] terms[k]))
            && subtracted(pz, accs.last(), d)
}

/// What [`digamma_positive_at_w`] computes from `xw`, its argument
/// rounded to nearest at `w` bits: Spouge's formula past the series'
/// reach; Stirling's series at `xw` where the yardstick
/// [`shift_magnitude`] of `xw` reaches `z_min`; otherwise the series at
/// `xw + n`, `n` the shortfall, less the reciprocals of the shift.
pub open spec fn digamma_at_w_form(xw: BigFloat, z_min: u32, w: u32, r: (BigFloat, i64)) -> bool {
    if w > STIRLING_REACH_THRESHOLD {
        call_ensures(spouge_digamma_scaled, (&xw, w), r)
    } else if shift_magnitude(xw) >= z_min {
        call_ensures(stirling_digamma, (&xw, w), r.0)
    } else {
        digamma_shift_form(xw, (z_min - shift_magnitude(xw)) as u32, w, r.0)
    }
}

/// `ψ(x)` for positive `x` at working precision `w`, with the exponent
/// of the larger operand that cancelled to form it: Stirling's series
/// after an upward shift up to the series' reach, Spouge's formula
/// past it.
pub fn digamma_positive_at_w(x: &BigFloat, z_min: u32, w: u32) -> (r: (BigFloat, i64))
    requires
        x.wf(),
        prec_ok(w as nat),
    ensures
        r.0.wf(),
        exists|xw: BigFloat| #[trigger] rounded_near(*x, w as nat, xw) && digamma_at_w_form(xw, z_min, w, r),
{
    let x_w = rne(x, w);
    proof {
        assert(rounded_near(*x, w as nat, x_w));
    }
    if w > STIRLING_REACH_THRESHOLD {
        let r = spouge_digamma_scaled(&x_w, w);
        proof {
            assert(call_ensures(spouge_digamma_scaled, (&x_w, w), r));
        }
        return r;
    }
    let approx_x = shift_magnitude_of(&x_w);
    if approx_x >= z_min {
        let v = stirling_digamma(&x_w, w);
        proof {
            assert(call_ensures(stirling_digamma, (&x_w, w), v));
        }
        let scale = value_exponent(&v);
        (v, scale)
    } else {
        let shifts = z_min - approx_x;
        let nb = int_at(shifts as i64, w);
        let (shifted, _) = x_w.add(&nb, RoundingMode::NearestEven);
        let psi_z = stirling_digamma(&shifted, w);
        let one = one_at(w);
        let mut sum_recip = zero_at(Sign::Positive, w);
        let ghost zero = sum_recip;
        let ghost mut terms: Seq<BigFloat> = Seq::empty();
        let ghost mut accs: Seq<BigFloat> = seq![sum_recip];
        proof {
            assert(call_ensures(zero_at, (Sign::Positive, w), zero));
            assert(call_ensures(one_at, (w,), one));
        }
        let mut k: u32 = 0;
        while k < shifts
            invariant
                prec_ok(w as nat),
                x_w.wf(),
                one.wf(),
                sum_recip.wf(),
                k <= shifts,
                terms.len() == k,
                sum_chain(zero, terms, accs),
                accs.last() == sum_recip,
                forall|j: int| 0 <= j < k ==> shift_reciprocal(x_w, one, j, w, #[trigger] terms[j]),
            decreases shifts - k,
        {
            let kb = int_at(k as i64, w);
            let (denom, _) = x_w.add(&kb, RoundingMode::NearestEven);
            let (term, _) = one.div(&denom, RoundingMode::NearestEven);
            let (next_sum, _) = sum_recip.add(&term, RoundingMode::NearestEven);
            proof {
                assert(call_ensures(int_at, ((k as int) as i64, w), kb));
                assert(added(x_w, kb, denom));
                assert(divided(one, denom, term));
                assert(shift_reciprocal(x_w, one, k as int, w, term));
                assert(added(sum_recip, term, next_sum));
                lemma_sum_chain_push(zero, terms, accs, term, next_sum);
                let old_terms = terms;
                terms = terms.push(term);
                accs = accs.push(next_sum);
                assert forall|j: int| 0 <= j < k + 1 implies shift_reciprocal(x_w, one, j, w, #[trigger] terms[j]) by {
                    if j < k {
                        assert(terms[j] == old_terms[j]);
                    }
                }
            }
            sum_recip = next_sum;
            k = k + 1;
        }
        let (diff, _) = psi_z.sub(&sum_recip, RoundingMode::NearestEven);
        proof {
            assert(call_ensures(int_at, ((shifts as i64), w), nb));
            assert(added(x_w, nb, shifted));
            assert(call_ensures(stirling_digamma, (&shifted, w), psi_z));
            assert(subtracted(psi_z, sum_recip, diff));
            assert(shifts == (z_min - shift_magnitude(x_w)) as u32);
            assert(digamma_shift_form(x_w, shifts, w, diff));
        }
        let s1 = value_exponent(&psi_z);
        let s2 = value_exponent(&sum_recip);
        (diff, if s1 >= s2 { s1 } else { s2 })
    }
}

/// What `ψ` gives at a positive normal argument: the value
/// [`digamma_positive_value`] computes (with the shift bound
/// [`z_min_for_target`] gives at `p`) at a working precision of the Ziv
/// schedule, rounded to `p` bits under `mode`.
pub open spec fn digamma_pos_value(x: BigFloat, r: BigFloat, p: nat, mode: RoundingMode) -> bool {
    x.class is Normal && !x.spec_neg()
        ==> exists|w: u32, y: BigFloat, s0: Status, zm: u32|
            #![trigger call_ensures(digamma_positive_value, (&x, zm, w), y), rounds_to(y, p, mode, r, s0)]
            call_ensures(z_min_for_target, (p as u32,), zm) && call_ensures(digamma_positive_value, (&x, zm, w), y)
                && ziv_on_schedule(w as int, p as int) && rounds_to(y, p, mode, r, s0)
}

/// What `ψ` gives at a negative non-integer: the value
/// [`digamma_negative_value`] computes at a working precision of the
/// Ziv schedule, rounded to `p` bits under `mode`.
pub open spec fn digamma_neg_value(x: BigFloat, r: BigFloat, p: nat, mode: RoundingMode) -> bool {
    x.class is Normal && x.spec_neg() && int_value(x) is None
        ==> exists|w: u32, y: BigFloat, s0: Status|
            #![trigger call_ensures(digamma_negative_value, (&x, w), y), rounds_to(y, p, mode, r, s0)]
            call_ensures(digamma_negative_value, (&x, w), y) && ziv_on_schedule(w as int, p as int) && rounds_to(y, p, mode, r, s0)
}

/// `ψ(x)` at working precision `w` for an `x` off the negative axis.
pub fn digamma_positive_value(x: &BigFloat, z_min: u32, w: u32) -> (r: BigFloat)
    requires
        x.wf(),
        prec_ok(w as nat),
    ensures
        r.wf(),
        exists|w2: u32, zm: u32, v: (BigFloat, i64)|
            #[trigger] call_ensures(digamma_positive_at_w, (x, zm, w2), v) && v.0 == r,
{
    if in_positive_root_window(x) || w > STIRLING_REACH_THRESHOLD {
        let eval = |w2: u32| -> (v: (BigFloat, i64))
            requires
                prec_ok(w2 as nat),
            ensures
                v.0.wf(),
                exists|zm: u32| #[trigger] call_ensures(digamma_positive_at_w, (x, zm, w2), v),
        {
            let zm = z_min_for_target(w2);
            let v = digamma_positive_at_w(x, zm, w2);
            proof {
                assert(call_ensures(digamma_positive_at_w, (x, zm, w2), v));
            }
            v
        };
        return cancellation_boosted(w, eval);
    }
    let v = digamma_positive_at_w(x, z_min, w);
    proof {
        assert(call_ensures(digamma_positive_at_w, (x, z_min, w), v));
    }
    v.0
}

/// `ψ` of an argument off the negative axis, rounded to
/// `target` bits.
pub fn digamma_positive_kernel(x: &BigFloat, target: u32, mode: RoundingMode) -> (r: (BigFloat, Status))
    requires
        x.wf(),
        prec_ok(target as nat),
    ensures
        r.0.wf(),
        r.0.precision == target,
        r.0.class is Normal ==> has_inexact(r.1),
        digamma_pos_value(*x, r.0, target as nat, mode),
{
    let z_min = z_min_for_target(target);
    let eval = |w: u32| -> (v: BigFloat)
        requires
            prec_ok(w as nat),
        ensures
            v.wf(),
            call_ensures(digamma_positive_value, (x, z_min, w), v),
    {
        digamma_positive_value(x, z_min, w)
    };
    let (result, status) = ziv_round(eval, target, mode, DIGAMMA_ERROR_GUARD);
    let st = force_inexact(&result, status);
    proof {
        crate::types::lemma_or_inexact(status.bits);
        let t = choose|t: ZivTrace| t.0 == result && t.1 == status && #[trigger] is_trace_of(eval, target as nat, mode, t)
            && ziv_on_schedule(t.2 as int, target as int);
        assert(call_ensures(digamma_positive_value, (x, z_min, t.2), t.3));
        assert(rounds_to(t.3, target as nat, mode, result, status));
        assert(call_ensures(z_min_for_target, ((target as nat) as u32,), z_min));
    }
    (result, st)
}

/// The reflection `ψ(x) = ψ(1 − x) − π·cot(πx)` at `w2` bits: `y = 1 − x`,
/// `π` what [`pi_at`] gives, `cot(πx)` the quotient of what `cos` and
/// `sin` give at `π·x`, `ψ(y)` what [`digamma_positive_kernel`] gives,
/// each operation rounded to nearest.
pub open spec fn digamma_reflection(x: BigFloat, w2: u32, r: BigFloat) -> bool {
    exists|one: BigFloat, y: BigFloat, pi: BigFloat, pix: BigFloat, sv: BigFloat, ss: Status, cv: BigFloat, cs: Status,
        cot: BigFloat, pic: BigFloat, ps: BigFloat, pss: Status|
        #![trigger call_ensures(one_at, (w2,), one), subtracted(one, x, y), call_ensures(pi_at, (w2,), pi), multiplied(pi, x, pix), call_ensures(BigFloat::sin, (&pix, RoundingMode::NearestEven), (sv, ss)), call_ensures(BigFloat::cos, (&pix, RoundingMode::NearestEven), (cv, cs)), divided(cv, sv, cot), multiplied(pi, cot, pic), call_ensures(digamma_positive_kernel, (&y, w2, RoundingMode::NearestEven), (ps, pss))]
        call_ensures(one_at, (w2,), one) && subtracted(one, x, y) && call_ensures(pi_at, (w2,), pi)
            && multiplied(pi, x, pix) && call_ensures(BigFloat::sin, (&pix, RoundingMode::NearestEven), (sv, ss))
            && call_ensures(BigFloat::cos, (&pix, RoundingMode::NearestEven), (cv, cs)) && divided(cv, sv, cot)
            && multiplied(pi, cot, pic) && call_ensures(digamma_positive_kernel, (&y, w2, RoundingMode::NearestEven), (ps, pss))
            && subtracted(ps, pic, r)
}

/// One reflected evaluation of `ψ` at a negative non-integer `x` at
/// `w2` bits, with the larger exponent of its two parts.
pub fn digamma_reflect_at(x: &BigFloat, w2: u32) -> (v: (BigFloat, i64))
    requires
        x.wf(),
        prec_ok(w2 as nat),
    ensures
        v.0.wf(),
        digamma_reflection(*x, w2, v.0),
{
    let one = one_at(w2);
    let (y, _) = one.sub(x, RoundingMode::NearestEven);
    let pi = pi_at(w2);
    let (pi_x, _) = pi.mul(x, RoundingMode::NearestEven);
    let (sin_pi_x, ss) = pi_x.sin(RoundingMode::NearestEven);
    let (cos_pi_x, cs) = pi_x.cos(RoundingMode::NearestEven);
    let (cot_pi_x, _) = cos_pi_x.div(&sin_pi_x, RoundingMode::NearestEven);
    let (pi_cot, _) = pi.mul(&cot_pi_x, RoundingMode::NearestEven);
    let (psi_y, pss) = digamma_positive_kernel(&y, w2, RoundingMode::NearestEven);
    let (result, _) = psi_y.sub(&pi_cot, RoundingMode::NearestEven);
    proof {
        assert(call_ensures(one_at, (w2,), one));
        assert(subtracted(one, *x, y));
        assert(call_ensures(pi_at, (w2,), pi));
        assert(multiplied(pi, *x, pi_x));
        assert(call_ensures(BigFloat::sin, (&pi_x, RoundingMode::NearestEven), (sin_pi_x, ss)));
        assert(call_ensures(BigFloat::cos, (&pi_x, RoundingMode::NearestEven), (cos_pi_x, cs)));
        assert(divided(cos_pi_x, sin_pi_x, cot_pi_x));
        assert(multiplied(pi, cot_pi_x, pi_cot));
        assert(call_ensures(digamma_positive_kernel, (&y, w2, RoundingMode::NearestEven), (psi_y, pss)));
        assert(subtracted(psi_y, pi_cot, result));
    }
    let s1 = value_exponent(&psi_y);
    let s2 = value_exponent(&pi_cot);
    (result, if s1 >= s2 { s1 } else { s2 })
}

/// `ψ(x)` for a negative non-integer `x` at working precision `w` by
/// reflection.
pub fn digamma_negative_value(x: &BigFloat, w: u32) -> (r: BigFloat)
    requires
        x.wf(),
        prec_ok(w as nat),
    ensures
        r.wf(),
        exists|w2: u32| #[trigger] digamma_reflection(*x, w2, r),
{
    let pole_boost: u64 = pole_proximity_depth(x) as u64 + 8;
    let working = wadd(w, pole_boost);
    let eval = |w2: u32| -> (v: (BigFloat, i64))
        requires
            prec_ok(w2 as nat),
        ensures
            v.0.wf(),
            digamma_reflection(*x, w2, v.0),
    {
        digamma_reflect_at(x, w2)
    };
    cancellation_boosted(working, eval)
}

fn digamma_kernel(x: &BigFloat, target: u32, mode: RoundingMode) -> (r: (BigFloat, Status))
    requires
        x.wf(),
        prec_ok(target as nat),
    ensures
        r.0.wf(),
        r.0.precision == target,
        digamma_special(*x, r.0, r.1, target as nat),
        digamma_pos_value(*x, r.0, target as nat, mode),
        digamma_neg_value(*x, r.0, target as nat, mode),
{
    match &x.class {
        Class::Nan { .. } => return nan_in(x, target),
        Class::Zero { .. } => return (inf_at(Sign::Negative, target), Status { bits: FLAG_DIV_BY_ZERO }),
        Class::Infinity { sign: Sign::Positive } => return (inf_at(Sign::Positive, target), Status { bits: 0 }),
        Class::Infinity { sign: Sign::Negative } => return (qnan_at(target), Status { bits: FLAG_INVALID }),
        Class::Normal { .. } => {},
    }
    if !x.is_sign_negative() {
        return digamma_positive_kernel(x, target, mode);
    }
    if is_integer(x) {
        return (inf_at(Sign::Negative, target), Status { bits: FLAG_DIV_BY_ZERO });
    }
    let eval = |w: u32| -> (v: BigFloat)
        requires
            prec_ok(w as nat),
        ensures
            v.wf(),
            call_ensures(digamma_negative_value, (x, w), v),
    {
        digamma_negative_value(x, w)
    };
    let (result, status) = ziv_round(eval, target, mode, DIGAMMA_ERROR_GUARD);
    let st = force_inexact(&result, status);
    proof {
        crate::types::lemma_or_inexact(status.bits);
        let t = choose|t: ZivTrace| t.0 == result && t.1 == status && #[trigger] is_trace_of(eval, target as nat, mode, t)
            && ziv_on_schedule(t.2 as int, target as int);
        assert(call_ensures(digamma_negative_value, (x, t.2), t.3));
        assert(rounds_to(t.3, target as nat, mode, result, status));
    }
    (result, st)
}

impl BigFloat {
    /// `ψ(self)` rounded under `mode` to the precision of
    /// `self`.
    pub fn digamma(&self, mode: RoundingMode) -> (r: (BigFloat, Status))
        requires
            self.wf(),
        ensures
            r.0.wf(),
            r.0.precision == self.precision,
            digamma_special(*self, r.0, r.1, self.precision as nat),
            digamma_pos_value(*self, r.0, self.precision as nat, mode),
            digamma_neg_value(*self, r.0, self.precision as nat, mode),
    {
        digamma_kernel(self, self.precision, mode)
    }

    /// `ψ(self)` rounded under `mode` to `target_precision`
    /// bits.
    pub fn digamma_round(&self, target_precision: u32, mode: RoundingMode) -> (r: Result<(BigFloat, Status), BuildError>)
        requires
            self.wf(),
        ensures
            r is Ok <==> prec_ok(target_precision as nat),
            target_precision == 0 ==> r == Err::<(BigFloat, Status), BuildError>(BuildError::PrecisionZero),
            r matches Ok(v) ==> v.0.wf() && v.0.precision == target_precision
                && digamma_special(*self, v.0, v.1, target_precision as nat)
                && digamma_pos_value(*self, v.0, target_precision as nat, mode)
                && digamma_neg_value(*self, v.0, target_precision as nat, mode),
    {
        BigFloat::check_precision(target_precision)?;
        Ok(digamma_kernel(self, target_precision, mode))
    }
}

impl<const PREC: u32> FixedFloat<PREC> {
    /// `ψ(self)` at the fixed precision.
    pub fn digamma(&self, mode: RoundingMode) -> (r: (FixedFloat<PREC>, Status))
        requires
            self.wf(),
        ensures
            r.0.wf(),
            digamma_special(self.value(), r.0.value(), r.1, PREC as nat),
            digamma_pos_value(self.value(), r.0.value(), PREC as nat, mode),
            digamma_neg_value(self.value(), r.0.value(), PREC as nat, mode),
            call_ensures(BigFloat::digamma, (&self.value(), mode), (r.0.value(), r.1)),
    {
        let (big, st) = self.big_ref().digamma(mode);
        (FixedFloat::wrap(big), st)
    }
}

} // verus!

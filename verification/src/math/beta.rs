//! `B(a, b) = Γ(a)·Γ(b)/Γ(a+b)` over the real domain: the sign of the
//! three gammas times `exp(lgamma(a) + lgamma(b) − lgamma(a+b))`, with
//! the pole cases decided first; rounded through the Ziv
//! driver.
//!
//! With the gamma poles `{0, −1, −2, …}`: both operands at poles give
//! a NaN; one at a negative integer and the other a positive integer
//! whose sum is a pole cancels to `(−1)^m (m−1)!(n−m)!/n!`; otherwise
//! an operand at a pole gives `±∞` at zero and a NaN elsewhere; a sum
//! at a pole gives `+0`.

use vstd::prelude::*;
use crate::types::{BigFloat, BuildError, Class, Sign, RoundingMode, Status, FLAG_INVALID, FLAG_DIV_BY_ZERO, prec_ok};
use crate::fixed::FixedFloat;
use super::{one_at, rne, zero_at, inf_at, qnan_at};
use super::pow::{int_value, integer_parity, Parity, is_plain_nan};
use super::lgamma::is_integer;
use super::gamma::gamma_sign_of;
use super::ziv::{ziv_round, DEFAULT_ERROR_GUARD, ZivTrace, is_trace_of, ziv_on_schedule};
use super::{rounds_to, added, subtracted};
use super::gamma::gamma_negative_at;

verus! {

/// Guard bits charged to one evaluation of the beta kernel.
pub const BETA_ERROR_GUARD: u32 = DEFAULT_ERROR_GUARD;

/// `x` is zero or a negative integer: a pole of `Γ`.
pub open spec fn is_nonpos_int(x: BigFloat) -> bool {
    (x.class is Zero || (x.class is Normal && x.spec_neg())) && int_value(x) is Some
}

/// `x` is a positive integer.
pub open spec fn is_pos_int(x: BigFloat) -> bool {
    x.class is Normal && !x.spec_neg() && int_value(x) is Some
}

/// The outcome `beta` promises where the operands alone decide it.
pub open spec fn beta_special(a: BigFloat, b: BigFloat, r: BigFloat, st: Status) -> bool {
    if (a.class is Nan && !a.class->Nan_quiet) || (b.class is Nan && !b.class->Nan_quiet) {
        is_plain_nan(r, false) && st.bits == FLAG_INVALID
    } else if a.class is Nan {
        is_plain_nan(r, a.spec_neg()) && st.bits == 0
    } else if b.class is Nan {
        is_plain_nan(r, b.spec_neg()) && st.bits == 0
    } else if (a.class == (Class::Infinity { sign: Sign::Positive }) && b.class is Normal && !b.spec_neg())
        || (b.class == (Class::Infinity { sign: Sign::Positive }) && a.class is Normal && !a.spec_neg()) {
        r.class == (Class::Zero { sign: Sign::Positive }) && st.bits == 0
    } else if a.class is Infinity || b.class is Infinity {
        is_plain_nan(r, false) && st.bits == FLAG_INVALID
    } else if is_nonpos_int(a) && is_nonpos_int(b) {
        is_plain_nan(r, false) && st.bits == FLAG_INVALID
    } else if (is_nonpos_int(a) && (!is_pos_int(b) || a.class is Zero))
        || (is_nonpos_int(b) && (!is_pos_int(a) || b.class is Zero)) {
        let pole = if is_nonpos_int(a) { a } else { b };
        if pole.class is Zero {
            r.class == (Class::Infinity { sign: pole.class->Zero_sign }) && st.bits == FLAG_DIV_BY_ZERO
        } else {
            is_plain_nan(r, false) && st.bits == FLAG_INVALID
        }
    } else if !is_nonpos_int(a) && !is_nonpos_int(b) && (forall|s: BigFloat, sst: Status|
        #[trigger] crate::arith::add_spec(a, b, s, sst, crate::arith::op_precision(a, b) as nat, RoundingMode::NearestEven)
            ==> is_nonpos_int(s)) {
        r.class == (Class::Zero { sign: Sign::Positive }) && st.bits == 0
    } else {
        true
    }
}

/// The pole-cancellation value: [`beta_case4_at_w`] at a working
/// precision of the Ziv schedule, rounded to `p` bits under `mode`.
pub open spec fn beta_case4_value(neg: BigFloat, pos: BigFloat, r: BigFloat, p: nat, mode: RoundingMode) -> bool {
    exists|w: u32, y: BigFloat, st: Status| #![trigger call_ensures(beta_case4_at_w, (&neg, &pos, w), y), rounds_to(y, p, mode, r, st)]
        call_ensures(beta_case4_at_w, (&neg, &pos, w), y) && ziv_on_schedule(w as int, p as int) && rounds_to(y, p, mode, r, st)
}

/// What `beta` gives at the finite operands that are not poles:
/// with `s = a + b` rounded to nearest at the operands' precision,
/// `+0` where `s` is a pole (see [`beta_special`]), otherwise the value
/// [`beta_at_w`] computes at a working precision of the Ziv schedule,
/// rounded to `p` bits under `mode`; and where one operand is a
/// negative integer `−n` and the other a positive integer `m` with a
/// pole for a sum, the pole-cancellation value [`beta_case4_value`].
pub open spec fn beta_value(a: BigFloat, b: BigFloat, r: BigFloat, p: nat, mode: RoundingMode) -> bool {
    &&& (a.class is Normal && b.class is Normal && !is_nonpos_int(a) && !is_nonpos_int(b)
        ==> exists|s: BigFloat, sst: Status|
            #[trigger] crate::arith::add_spec(a, b, s, sst, crate::arith::op_precision(a, b) as nat, RoundingMode::NearestEven)
            && (is_nonpos_int(s) || exists|w: u32, y: BigFloat, st: Status|
                #![trigger call_ensures(beta_at_w, (&a, &b, &s, w), y), rounds_to(y, p, mode, r, st)]
                call_ensures(beta_at_w, (&a, &b, &s, w), y) && ziv_on_schedule(w as int, p as int) && rounds_to(y, p, mode, r, st)))
    &&& (is_nonpos_int(a) && is_pos_int(b) ==> exists|s: BigFloat, sst: Status|
            #[trigger] crate::arith::add_spec(a, b, s, sst, crate::arith::op_precision(a, b) as nat, RoundingMode::NearestEven)
            && (is_nonpos_int(s) ==> beta_case4_value(a, b, r, p, mode)))
    &&& (is_nonpos_int(b) && is_pos_int(a) ==> exists|s: BigFloat, sst: Status|
            #[trigger] crate::arith::add_spec(a, b, s, sst, crate::arith::op_precision(a, b) as nat, RoundingMode::NearestEven)
            && (is_nonpos_int(s) ==> beta_case4_value(b, a, r, p, mode)))
}

/// The non-NaN operands on which `beta_special` fixes the result:
/// an infinity, a pole, or a sum at a pole.
pub open spec fn beta_decided(a: BigFloat, b: BigFloat) -> bool {
    ||| a.class is Infinity
    ||| b.class is Infinity
    ||| is_nonpos_int(a) && is_nonpos_int(b)
    ||| (is_nonpos_int(a) && (!is_pos_int(b) || a.class is Zero))
    ||| (is_nonpos_int(b) && (!is_pos_int(a) || b.class is Zero))
    ||| (!is_nonpos_int(a) && !is_nonpos_int(b) && (forall|s: BigFloat, sst: Status|
        #[trigger] crate::arith::add_spec(a, b, s, sst, crate::arith::op_precision(a, b) as nat, RoundingMode::NearestEven)
            ==> is_nonpos_int(s)))
}

fn plain_nan_at(neg: bool, p: u32) -> (r: BigFloat)
    requires
        prec_ok(p as nat),
    ensures
        r.wf(),
        r.precision == p,
        is_plain_nan(r, neg),
{
    let sign = if neg { Sign::Negative } else { Sign::Positive };
    BigFloat { class: Class::Nan { quiet: true, sign, payload: Vec::new() }, precision: p }
}

fn is_nonpos_integer(x: &BigFloat) -> (r: bool)
    requires
        x.wf(),
    ensures
        r == is_nonpos_int(*x),
{
    (x.is_zero() || (x.is_normal() && x.is_sign_negative())) && is_integer(x)
}

fn is_pos_integer(x: &BigFloat) -> (r: bool)
    requires
        x.wf(),
    ensures
        r == is_pos_int(*x),
{
    x.is_normal() && !x.is_sign_negative() && is_integer(x)
}

/// Whether an odd number of the three signs are negative.
fn sign_product_is_negative(a: Sign, b: Sign, c: Sign) -> (r: bool)
    ensures
        r == (((if a == Sign::Negative { 1int } else { 0 }) + (if b == Sign::Negative { 1int } else { 0 })
            + (if c == Sign::Negative { 1int } else { 0 })) % 2 == 1),
{
    let mut neg: u32 = 0;
    if a == Sign::Negative {
        neg = neg + 1;
    }
    if b == Sign::Negative {
        neg = neg + 1;
    }
    if c == Sign::Negative {
        neg = neg + 1;
    }
    neg % 2 == 1
}

/// `ln|Γ(x)|` at `w` bits.
pub fn lgamma_at(x: &BigFloat, w: u32) -> (r: BigFloat)
    requires
        x.wf(),
        prec_ok(w as nat),
    ensures
        r.wf(),
        exists|st: Status| #[trigger] call_ensures(BigFloat::lgamma_round, (x, w, RoundingMode::NearestEven), Ok::<(BigFloat, Status), BuildError>((r, st))),
{
    let lr = x.lgamma_round(w, RoundingMode::NearestEven);
    match lr {
        Ok(v) => {
            proof {
                assert(call_ensures(BigFloat::lgamma_round, (x, w, RoundingMode::NearestEven), Ok::<(BigFloat, Status), BuildError>((v.0, v.1))));
            }
            v.0
        },
        Err(_) => {
            proof {
                assert(false);
            }
            qnan_at(w)
        },
    }
}

/// The pole-cancellation case: `neg = −n` a negative integer, `pos = m`
/// a positive integer with `m ≤ n`: `B = (−1)^m·(m−1)!·(n−m)!/n!`.
fn beta_case4(neg: &BigFloat, pos: &BigFloat, target: u32, mode: RoundingMode) -> (r: (BigFloat, Status))
    requires
        neg.wf(),
        pos.wf(),
        prec_ok(target as nat),
    ensures
        r.0.wf(),
        r.0.precision == target,
        beta_case4_value(*neg, *pos, r.0, target as nat, mode),
{
    let eval = |w: u32| -> (v: BigFloat)
        requires
            prec_ok(w as nat),
        ensures
            v.wf(),
            call_ensures(beta_case4_at_w, (neg, pos, w), v),
    {
        beta_case4_at_w(neg, pos, w)
    };
    let (result, status) = ziv_round(eval, target, mode, BETA_ERROR_GUARD);
    proof {
        let t = choose|t: ZivTrace| t.0 == result && t.1 == status && #[trigger] is_trace_of(eval, target as nat, mode, t)
            && ziv_on_schedule(t.2 as int, target as int);
        assert(call_ensures(beta_case4_at_w, (neg, pos, t.2), t.3));
        assert(rounds_to(t.3, target as nat, mode, result, status));
    }
    (result, status)
}

/// `(−1)^m·(m−1)!·(n−m)!/n!` at working precision `w` for `neg = −n`,
/// `pos = m`, as `exp(lgamma(m) + lgamma(n−m+1) − lgamma(n+1))` with
/// the sign of `m`'s parity.
pub fn beta_case4_at_w(neg: &BigFloat, pos: &BigFloat, w: u32) -> (v: BigFloat)
    requires
        neg.wf(),
        pos.wf(),
        prec_ok(w as nat),
    ensures
        v.wf(),
        exists|nn: BigFloat, n: BigFloat, m: BigFloat, one: BigFloat, np1: BigFloat, nm: BigFloat, nm1: BigFloat,
            lm: BigFloat, lnm1: BigFloat, lnp1: BigFloat, s1: BigFloat, d: BigFloat, e: BigFloat, es: Status|
            #![trigger crate::arith::negation_of(nn, *neg), super::rounded_near(nn, w as nat, n), super::rounded_near(*pos, w as nat, m), call_ensures(one_at, (w,), one), added(n, one, np1), subtracted(n, m, nm), added(nm, one, nm1), call_ensures(lgamma_at, (&m, w), lm), call_ensures(lgamma_at, (&nm1, w), lnm1), call_ensures(lgamma_at, (&np1, w), lnp1), added(lm, lnm1, s1), subtracted(s1, lnp1, d), call_ensures(BigFloat::exp, (&d, RoundingMode::NearestEven), (e, es))]
            crate::arith::negation_of(nn, *neg) && super::rounded_near(nn, w as nat, n) && super::rounded_near(*pos, w as nat, m)
                && call_ensures(one_at, (w,), one) && added(n, one, np1) && subtracted(n, m, nm) && added(nm, one, nm1)
                && call_ensures(lgamma_at, (&m, w), lm) && call_ensures(lgamma_at, (&nm1, w), lnm1)
                && call_ensures(lgamma_at, (&np1, w), lnp1) && added(lm, lnm1, s1) && subtracted(s1, lnp1, d)
                && call_ensures(BigFloat::exp, (&d, RoundingMode::NearestEven), (e, es))
                && (if (int_value(*pos) matches Some(k) && k % 2 != 0) { crate::arith::negation_of(v, e) } else { v == e }),
{
    let negative = match integer_parity(pos) {
        Some(p) => p == Parity::Odd,
        None => false,
    };
    let one = one_at(w);
    let nn = neg.negated();
    let n = rne(&nn, w);
    let m = rne(pos, w);
    let (n_plus_1, _) = n.add(&one, RoundingMode::NearestEven);
    let (n_minus_m, _) = n.sub(&m, RoundingMode::NearestEven);
    let (n_minus_m_plus_1, _) = n_minus_m.add(&one, RoundingMode::NearestEven);
    let lg_m = lgamma_at(&m, w);
    let lg_nm1 = lgamma_at(&n_minus_m_plus_1, w);
    let lg_np1 = lgamma_at(&n_plus_1, w);
    let (sum, _) = lg_m.add(&lg_nm1, RoundingMode::NearestEven);
    let (ln_mag, _) = sum.sub(&lg_np1, RoundingMode::NearestEven);
    let (mag, es) = ln_mag.exp(RoundingMode::NearestEven);
    proof {
        assert(crate::arith::negation_of(nn, *neg));
        assert(super::rounded_near(nn, w as nat, n));
        assert(super::rounded_near(*pos, w as nat, m));
        assert(call_ensures(one_at, (w,), one));
        assert(added(n, one, n_plus_1));
        assert(subtracted(n, m, n_minus_m));
        assert(added(n_minus_m, one, n_minus_m_plus_1));
        assert(call_ensures(lgamma_at, (&m, w), lg_m));
        assert(call_ensures(lgamma_at, (&n_minus_m_plus_1, w), lg_nm1));
        assert(call_ensures(lgamma_at, (&n_plus_1, w), lg_np1));
        assert(added(lg_m, lg_nm1, sum));
        assert(subtracted(sum, lg_np1, ln_mag));
        assert(call_ensures(BigFloat::exp, (&ln_mag, RoundingMode::NearestEven), (mag, es)));
    }
    if negative {
        mag.negated()
    } else {
        mag
    }
}

/// An odd number of `Γ(a)`, `Γ(b)`, `Γ(s)` is negative.
pub open spec fn beta_sign_negative(a: BigFloat, b: BigFloat, s: BigFloat) -> bool {
    ((if gamma_negative_at(a) { 1int } else { 0 }) + (if gamma_negative_at(b) { 1int } else { 0 })
        + (if gamma_negative_at(s) { 1int } else { 0 })) % 2 == 1
}

/// `B(a, b)` at working precision `w`, `sum = a + b`: the sign of the
/// three gammas times `exp(lgamma(a) + lgamma(b) − lgamma(sum))`.
pub fn beta_at_w(a: &BigFloat, b: &BigFloat, sum: &BigFloat, w: u32) -> (v: BigFloat)
    requires
        a.wf(),
        b.wf(),
        sum.wf(),
        prec_ok(w as nat),
    ensures
        v.wf(),
        exists|la: BigFloat, lb: BigFloat, ls: BigFloat, s1: BigFloat, d: BigFloat, m: BigFloat, ms: Status|
            #![trigger call_ensures(lgamma_at, (a, w), la), call_ensures(lgamma_at, (b, w), lb), call_ensures(lgamma_at, (sum, w), ls), added(la, lb, s1), subtracted(s1, ls, d), call_ensures(BigFloat::exp, (&d, RoundingMode::NearestEven), (m, ms))]
            call_ensures(lgamma_at, (a, w), la) && call_ensures(lgamma_at, (b, w), lb) && call_ensures(lgamma_at, (sum, w), ls)
                && added(la, lb, s1) && subtracted(s1, ls, d) && call_ensures(BigFloat::exp, (&d, RoundingMode::NearestEven), (m, ms))
                && (if beta_sign_negative(*a, *b, *sum) { crate::arith::negation_of(v, m) } else { v == m }),
{
    let lg_a = lgamma_at(a, w);
    let lg_b = lgamma_at(b, w);
    let lg_sum = lgamma_at(sum, w);
    let (lg_a_plus_b, _) = lg_a.add(&lg_b, RoundingMode::NearestEven);
    let (lb, _) = lg_a_plus_b.sub(&lg_sum, RoundingMode::NearestEven);
    let (magnitude, ms) = lb.exp(RoundingMode::NearestEven);
    proof {
        assert(call_ensures(lgamma_at, (a, w), lg_a));
        assert(call_ensures(lgamma_at, (b, w), lg_b));
        assert(call_ensures(lgamma_at, (sum, w), lg_sum));
        assert(added(lg_a, lg_b, lg_a_plus_b));
        assert(subtracted(lg_a_plus_b, lg_sum, lb));
        assert(call_ensures(BigFloat::exp, (&lb, RoundingMode::NearestEven), (magnitude, ms)));
    }
    let sign_a = gamma_sign_of(a, w);
    let sign_b = gamma_sign_of(b, w);
    let sign_sum = gamma_sign_of(sum, w);
    if sign_product_is_negative(sign_a, sign_b, sign_sum) {
        magnitude.negated()
    } else {
        magnitude
    }
}

/// A zero plus a positive normal is positive and normal: the sum is
/// the normal operand, rounded to a precision at least its own.
proof fn lemma_zero_plus_positive(z: BigFloat, b: BigFloat, sum: BigFloat, st: Status)
    requires
        z.wf(),
        b.wf(),
        z.class is Zero,
        b.class is Normal,
        !b.spec_neg(),
        crate::arith::add_spec(z, b, sum, st, crate::arith::op_precision(z, b) as nat, RoundingMode::NearestEven)
            || crate::arith::add_spec(b, z, sum, st, crate::arith::op_precision(b, z) as nat, RoundingMode::NearestEven),
    ensures
        sum.class is Normal,
        !sum.spec_neg(),
{
    crate::float::lemma_sig_bounds(b);
    let p = if z.precision >= b.precision { z.precision as nat } else { b.precision as nat };
    assert(crate::arith::op_precision(z, b) as nat == p);
    assert(crate::arith::op_precision(b, z) as nat == p);
    let (sg, e) = crate::round::rounded(b.sig(), false, b.lsb_exp(), p, false, RoundingMode::NearestEven);
    assert(e == b.lsb_exp() + b.precision - 1);
}

fn beta_kernel(a: &BigFloat, b: &BigFloat, target: u32, mode: RoundingMode) -> (r: (BigFloat, Status))
    requires
        a.wf(),
        b.wf(),
        prec_ok(target as nat),
    ensures
        r.0.wf(),
        r.0.precision == target,
        beta_special(*a, *b, r.0, r.1),
        beta_value(*a, *b, r.0, target as nat, mode),
{
    if a.is_signaling_nan() || b.is_signaling_nan() {
        return (plain_nan_at(false, target), Status { bits: FLAG_INVALID });
    }
    if a.is_nan() {
        return (plain_nan_at(a.is_sign_negative(), target), Status { bits: 0 });
    }
    if b.is_nan() {
        return (plain_nan_at(b.is_sign_negative(), target), Status { bits: 0 });
    }
    if (a.is_infinite() && !a.is_sign_negative() && b.is_normal() && !b.is_sign_negative())
        || (b.is_infinite() && !b.is_sign_negative() && a.is_normal() && !a.is_sign_negative()) {
        return (zero_at(Sign::Positive, target), Status { bits: 0 });
    }
    if a.is_infinite() || b.is_infinite() {
        return (plain_nan_at(false, target), Status { bits: FLAG_INVALID });
    }
    let a_npi = is_nonpos_integer(a);
    let b_npi = is_nonpos_integer(b);
    let (sum, sum_st) = a.add(b, RoundingMode::NearestEven);
    let s_npi = is_nonpos_integer(&sum);
    proof {
        assert(crate::arith::add_spec(*a, *b, sum, sum_st, crate::arith::op_precision(*a, *b) as nat, RoundingMode::NearestEven));
        if a.class is Zero && is_pos_int(*b) {
            lemma_zero_plus_positive(*a, *b, sum, sum_st);
        }
        if b.class is Zero && is_pos_int(*a) {
            lemma_zero_plus_positive(*b, *a, sum, sum_st);
            assert(crate::arith::add_spec(*a, *b, sum, sum_st, crate::arith::op_precision(*a, *b) as nat, RoundingMode::NearestEven));
        }
    }
    if a_npi && b_npi {
        return (plain_nan_at(false, target), Status { bits: FLAG_INVALID });
    }
    if a_npi && is_pos_integer(b) && s_npi {
        return beta_case4(a, b, target, mode);
    }
    if b_npi && is_pos_integer(a) && s_npi {
        return beta_case4(b, a, target, mode);
    }
    if a_npi || b_npi {
        let pole = if a_npi { a } else { b };
        if pole.is_zero() {
            let sign = if pole.is_sign_negative() { Sign::Negative } else { Sign::Positive };
            return (inf_at(sign, target), Status { bits: FLAG_DIV_BY_ZERO });
        }
        return (plain_nan_at(false, target), Status { bits: FLAG_INVALID });
    }
    if s_npi {
        return (zero_at(Sign::Positive, target), Status { bits: 0 });
    }
    let eval = |w: u32| -> (v: BigFloat)
        requires
            prec_ok(w as nat),
        ensures
            v.wf(),
            call_ensures(beta_at_w, (a, b, &sum, w), v),
    {
        beta_at_w(a, b, &sum, w)
    };
    let (result, status) = ziv_round(eval, target, mode, BETA_ERROR_GUARD);
    proof {
        let t = choose|t: ZivTrace| t.0 == result && t.1 == status && #[trigger] is_trace_of(eval, target as nat, mode, t)
            && ziv_on_schedule(t.2 as int, target as int);
        assert(call_ensures(beta_at_w, (a, b, &sum, t.2), t.3));
        assert(rounds_to(t.3, target as nat, mode, result, status));
    }
    (result, status)
}

impl BigFloat {
    /// `B(self, other)` rounded under `mode` to the larger of
    /// the two precisions.
    pub fn beta(&self, other: &BigFloat, mode: RoundingMode) -> (r: (BigFloat, Status))
        requires
            self.wf(),
            other.wf(),
        ensures
            r.0.wf(),
            r.0.precision == crate::arith::op_precision(*self, *other),
            beta_special(*self, *other, r.0, r.1),
            beta_value(*self, *other, r.0, crate::arith::op_precision(*self, *other) as nat, mode),
    {
        let target = if self.precision >= other.precision { self.precision } else { other.precision };
        beta_kernel(self, other, target, mode)
    }

    /// `B(self, other)` rounded under `mode` to
    /// `target_precision` bits.
    pub fn beta_round(&self, other: &BigFloat, target_precision: u32, mode: RoundingMode) -> (r: Result<(BigFloat, Status), BuildError>)
        requires
            self.wf(),
            other.wf(),
        ensures
            r is Ok <==> prec_ok(target_precision as nat),
            target_precision == 0 ==> r == Err::<(BigFloat, Status), BuildError>(BuildError::PrecisionZero),
            r matches Ok(v) ==> v.0.wf() && v.0.precision == target_precision && beta_special(*self, *other, v.0, v.1)
                && beta_value(*self, *other, v.0, target_precision as nat, mode),
    {
        BigFloat::check_precision(target_precision)?;
        Ok(beta_kernel(self, other, target_precision, mode))
    }
}

impl<const PREC: u32> FixedFloat<PREC> {
    /// `B(self, other)` at the fixed precision.
    pub fn beta(&self, other: &FixedFloat<PREC>, mode: RoundingMode) -> (r: (FixedFloat<PREC>, Status))
        requires
            self.wf(),
            other.wf(),
        ensures
            r.0.wf(),
            beta_special(self.value(), other.value(), r.0.value(), r.1),
            beta_value(self.value(), other.value(), r.0.value(), PREC as nat, mode),
            call_ensures(BigFloat::beta, (&self.value(), &other.value(), mode), (r.0.value(), r.1)),
    {
        let (big, st) = self.big_ref().beta(other.big_ref(), mode);
        (FixedFloat::wrap(big), st)
    }
}

} // verus!

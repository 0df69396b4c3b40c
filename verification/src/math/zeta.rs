//! The Riemann zeta function `ζ(s)` for real `s`: the
//! Cohen–Villegas–Zagier acceleration of the alternating eta series for
//! `s > 0`, the functional equation
//! `ζ(s) = 2·(2π)^(s−1)·sin(πs/2)·Γ(1−s)·ζ(1−s)` for `s < 0`, and the
//! special values handled directly: `ζ(0) = −1/2`, the pole `ζ(1) = +∞`,
//! the trivial zeros `ζ(−2n) = +0`, `ζ(+∞) = 1` and `ζ(−∞) = NaN`.

use vstd::prelude::*;
use crate::types::{BigFloat, BuildError, Class, Sign, RoundingMode, Status, FLAG_INVALID, FLAG_DIV_BY_ZERO, prec_ok};
use crate::float::{nan_result, finite_value_is};
use crate::fixed::FixedFloat;
use super::{wp, wadd, int_at, one_at, rne, zero_at, inf_at, qnan_at, exponent_of, nan_in, pi_at, round_with_infinitesimal,
    force_inexact, is_unit, is_unit_exec};
use super::exp::has_inexact;
use super::{rounds_to, multiplied, divided, subtracted, rounded_near};
use super::expm1::saturation_threshold_exponent;
use super::pow::{Parity, int_value, integer_parity};
use super::ziv::{ziv_round_with_depth, DEFAULT_ERROR_GUARD, ZivTrace, is_trace_of, ziv_on_schedule};

verus! {

/// Guard bits charged to one evaluation of the zeta kernel.
pub const ZETA_ERROR_GUARD: u32 = DEFAULT_ERROR_GUARD;

/// `x` is a negative even integer `−2, −4, …`: a trivial zero of `ζ`.
pub open spec fn is_trivial_zero(x: BigFloat) -> bool {
    &&& x.class is Normal
    &&& x.spec_neg()
    &&& int_value(x) matches Some(v) && v % 2 == 0
}

/// What `ζ` gives at a large argument `s ≥ 2^(bits(p)+2)`, where
/// `2^−s` lies below the last bit of one: one, moved by an
/// infinitesimal upward (`ζ(s) = 1 + 2^−s + …`), rounded under `mode`.
pub open spec fn zeta_large(x: BigFloat, r: BigFloat, st: Status, p: nat, mode: RoundingMode) -> bool {
    x.class is Normal && !x.spec_neg() && x.class->Normal_exponent >= crate::round::bits(p) + 2
        ==> exists|st0: Status| #[trigger] super::nudged_parts(vstd::arithmetic::power2::pow2((p - 1) as nat), 1 - p, false, false, p, mode, r, st0)
}

/// The outcome `ζ` promises: NaNs propagate, `ζ(±0) = −1/2` and
/// `ζ(+∞) = 1` exactly, `ζ(−∞)` is a quiet NaN with INVALID, the pole
/// `ζ(1) = +∞` raises DIV_BY_ZERO, the trivial zeros give `+0`, and any
/// other normal result is flagged INEXACT.
pub open spec fn zeta_special(x: BigFloat, r: BigFloat, st: Status, p: nat) -> bool {
    &&& (x.class is Nan ==> nan_result(r, st, x, p))
    &&& (x.class is Zero ==> finite_value_is(r, -1, -1) && st.bits == 0)
    &&& (x.class == (Class::Infinity { sign: Sign::Positive }) ==> finite_value_is(r, 1, 0) && st.bits == 0)
    &&& (x.class == (Class::Infinity { sign: Sign::Negative })
        ==> r.class is Nan && r.class->Nan_quiet && !r.spec_neg() && st.bits == FLAG_INVALID)
    &&& (is_unit(x, false) ==> r.class == (Class::Infinity { sign: Sign::Positive }) && st.bits == FLAG_DIV_BY_ZERO)
    &&& (is_trivial_zero(x) ==> r.class == (Class::Zero { sign: Sign::Positive }) && st.bits == 0)
    &&& (x.class is Normal && !is_unit(x, false) && !is_trivial_zero(x) && r.class is Normal ==> has_inexact(st))
}

/// What `ζ` gives at the other normal arguments: the value
/// [`zeta_finite`] computes at a working precision of the Ziv schedule,
/// rounded to `p` bits under `mode`.
pub open spec fn zeta_value(x: BigFloat, r: BigFloat, p: nat, mode: RoundingMode) -> bool {
    x.class is Normal && !is_unit(x, false) && !is_trivial_zero(x)
        && !(!x.spec_neg() && x.class->Normal_exponent >= crate::round::bits(p) + 2)
        ==> exists|w: u32, y: BigFloat, st: Status| #![trigger call_ensures(zeta_finite, (&x, w), y), rounds_to(y, p, mode, r, st)]
            call_ensures(zeta_finite, (&x, w), y) && ziv_on_schedule(w as int, p as int) && rounds_to(y, p, mode, r, st)
}

/// `−1/2` at precision `p`, exactly.
pub fn minus_half_at(p: u32) -> (r: BigFloat)
    requires
        prec_ok(p as nat),
    ensures
        r.wf(),
        r.precision == p,
        r.class is Normal,
        r.spec_neg(),
        finite_value_is(r, -1, -1),
{
    let one = one_at(p);
    match one.class {
        Class::Normal { mantissa, .. } => {
            let r = BigFloat { class: Class::Normal { sign: Sign::Negative, exponent: -1, mantissa }, precision: p };
            proof {
                assert(r.sig() == one.sig());
                vstd::arithmetic::power2::lemma2_to64();
            }
            r
        },
        _ => {
            proof {
                assert(false);
            }
            one
        },
    }
}

/// Whether `x` is a negative even integer.
pub fn is_negative_even_integer(x: &BigFloat) -> (r: bool)
    requires
        x.wf(),
    ensures
        r == is_trivial_zero(*x),
{
    if !x.is_normal() || !x.is_sign_negative() {
        return false;
    }
    match integer_parity(x) {
        Some(Parity::Even) => true,
        _ => false,
    }
}

/// Terms of the accelerated eta series for `p` target bits:
/// `⌊0.3933·p⌋ + 16`, since its relative error after `n` terms is at
/// most `2·(3+√8)^(−n)`.
pub fn borwein_terms(p: u32) -> (n: u64)
    requires
        prec_ok(p as nat),
    ensures
        16 <= n <= 0x80_0000 + 16,
{
    let q: u64 = p as u64;
    assert(q * 3933 <= 0x0100_0000 * 3933) by (nonlinear_arith)
        requires
            q <= 0x0100_0000;
    assert(q * 3933 / 10000 <= 0x80_0000) by (nonlinear_arith)
        requires
            q * 3933 <= 0x0100_0000 * 3933;
    q * 3933 / 10000 + 16
}

/// The precision at which the pole distance is taken: that of `x`, or
/// `target + 8` if larger.
pub open spec fn boost_probe(x: BigFloat, target: u32) -> nat {
    if x.precision > super::prec_clamp(target + 8) { x.precision as nat } else { super::prec_clamp(target + 8) as nat }
}

/// `b` is `−e` for the exponent `e < 0` of `s − 1` rounded to nearest at
/// the probe precision (`s` rounded there first), and 0 otherwise.
pub open spec fn pole_boost_is(x: BigFloat, target: u32, b: int) -> bool {
    let p = boost_probe(x, target);
    exists|xr: BigFloat, one: BigFloat, g: BigFloat, st: Status|
        #![trigger rounds_to(x, p, RoundingMode::NearestEven, xr, st), crate::arith::diff_spec(xr, one, g, p, RoundingMode::NearestEven)]
        rounds_to(x, p, RoundingMode::NearestEven, xr, st) && one.wf() && one.precision == p && is_unit(one, false)
        && crate::arith::diff_spec(xr, one, g, p, RoundingMode::NearestEven)
        && b == (if g.class is Normal && g.class->Normal_exponent < 0 { -g.class->Normal_exponent } else { 0 })
}

/// `−min(e, 0)` for the exponent `e` of `s − 1` taken at a precision
/// that holds `s` exactly: the bits the factor `1/(1 − 2^(1−s))` loses.
pub fn pole_boost(x: &BigFloat, target: u32) -> (b: u64)
    requires
        x.wf(),
        prec_ok(target as nat),
    ensures
        b <= 0x1000_0000_0000_0000,
        pole_boost_is(*x, target, b as int),
{
    let t8 = wadd(target, 8);
    let probe = if x.precision > t8 { x.precision } else { t8 };
    let one = one_at(probe);
    let xr = rne(x, probe);
    let (s_minus_1, _) = xr.sub(&one, RoundingMode::NearestEven);
    let e = exponent_of(&s_minus_1);
    let b: u64 = if s_minus_1.is_normal() && e < 0 {
        (-e) as u64
    } else {
        0
    };
    proof {
        assert(probe as nat == boost_probe(*x, target));
        assert(is_unit(one, false));
        let st = choose|st: Status| rounds_to(*x, probe as nat, RoundingMode::NearestEven, xr, st);
        assert(rounds_to(*x, probe as nat, RoundingMode::NearestEven, xr, st));
        assert(crate::arith::diff_spec(xr, one, s_minus_1, probe as nat, RoundingMode::NearestEven));
        assert(b as int == (if s_minus_1.class is Normal && s_minus_1.class->Normal_exponent < 0 { -s_minus_1.class->Normal_exponent } else { 0 }));
    }
    b
}

/// Working precision of the accelerated series:
/// `min(2p + 96 + boost, 2p + 8192 + input precision)`.
pub fn borwein_working_precision(p: u32, boost: u64, input_precision: u32) -> (w: u32)
    requires
        prec_ok(p as nat),
        boost <= 0x1000_0000_0000_0000,
    ensures
        prec_ok(w as nat),
        w == super::prec_clamp(if 96 + boost < 8192 + input_precision { 2 * p + 96 + boost }
            else { 2 * p + 8192 + input_precision }),
{
    let base: u64 = 2 * (p as u64);
    let a: u64 = base + 96 + boost;
    let b: u64 = base + 8192 + input_precision as u64;
    wp(if a < b { a } else { b })
}

/// `ζ(s)` for `s > 0`, `s ≠ 1`, by the Cohen–Villegas–Zagier
/// acceleration of `η(s) = Σ (−1)^k (k+1)^(−s)`, then
/// `ζ(s) = η(s) / (1 − 2^(1−s))`.
pub fn zeta_borwein(x: &BigFloat, target: u32) -> (z: BigFloat)
    requires
        x.wf(),
        prec_ok(target as nat),
    ensures
        z.wf(),
{
    let n = borwein_terms(target);
    let boost = pole_boost(x, target);
    let w = borwein_working_precision(target, boost, x.precision);
    let sw = rne(x, w);
    let neg_s = sw.negated();
    let one = one_at(w);
    let two = int_at(2, w);
    let (sqrt8, _) = int_at(8, w).sqrt(RoundingMode::NearestEven);
    let (base, _) = int_at(3, w).add(&sqrt8, RoundingMode::NearestEven);
    let mut d = one.dup();
    let mut j: u64 = 0;
    while j < n
        invariant
            prec_ok(w as nat),
            d.wf(),
            base.wf(),
            j <= n,
        decreases n - j,
    {
        d = d.mul(&base, RoundingMode::NearestEven).0;
        j = j + 1;
    }
    let (inv_d, _) = one.div(&d, RoundingMode::NearestEven);
    let (d_sum, _) = d.add(&inv_d, RoundingMode::NearestEven);
    let (d_n, _) = d_sum.div(&two, RoundingMode::NearestEven);
    let mut b = one.negated();
    let mut c = d_n.negated();
    let mut sum = zero_at(Sign::Positive, w);
    let mut k: u64 = 0;
    while k < n
        invariant
            prec_ok(w as nat),
            neg_s.wf(),
            two.wf(),
            b.wf(),
            c.wf(),
            sum.wf(),
            k <= n,
            n <= 0x80_0000 + 16,
        decreases n - k,
    {
        let (c_new, _) = b.sub(&c, RoundingMode::NearestEven);
        c = c_new;
        let base_k = int_at((k + 1) as i64, w);
        let (a_k, _) = base_k.pow(&neg_s, RoundingMode::NearestEven);
        let (term, _) = c.mul(&a_k, RoundingMode::NearestEven);
        let (s_new, _) = sum.add(&term, RoundingMode::NearestEven);
        sum = s_new;
        let ki = k as i64;
        let ni = n as i64;
        assert((ki + ni) * (ki - ni) <= 0x0200_0000 * 0x0100_0000 && (ki + ni) * (ki - ni)
            >= -(0x0200_0000 * 0x0100_0000)) by (nonlinear_arith)
            requires
                0 <= ki <= ni <= 0x80_0000 + 16;
        let num: i64 = (ki + ni) * (ki - ni);
        let (b1, _) = int_at(num, w).mul(&b, RoundingMode::NearestEven);
        let (half, _) = int_at(2 * ki + 1, w).div(&two, RoundingMode::NearestEven);
        let (den, _) = half.mul(&int_at(ki + 1, w), RoundingMode::NearestEven);
        let (b_new, _) = b1.div(&den, RoundingMode::NearestEven);
        b = b_new;
        k = k + 1;
    }
    let (eta, _) = sum.div(&d_n, RoundingMode::NearestEven);
    let (one_minus_s, _) = one.sub(&sw, RoundingMode::NearestEven);
    let (two_pow, _) = two.pow(&one_minus_s, RoundingMode::NearestEven);
    let (factor, _) = one.sub(&two_pow, RoundingMode::NearestEven);
    if factor.is_zero() {
        return qnan_at(w);
    }
    eta.div(&factor, RoundingMode::NearestEven).0
}

/// `ζ(s)` for `s < 0` through the functional equation, the reflected
/// `ζ(1−s)` taken by the accelerated series.
pub fn zeta_fe(x: &BigFloat, target: u32) -> (z: BigFloat)
    requires
        x.wf(),
        prec_ok(target as nat),
    ensures
        z.wf(),
        zeta_fe_form(*x, target, z),
{
    let w = wadd(target, 96);
    let sw = rne(x, w);
    let one = one_at(w);
    let two = int_at(2, w);
    let pi = pi_at(w);
    let (two_pi, _) = two.mul(&pi, RoundingMode::NearestEven);
    let (s_minus_1, _) = sw.sub(&one, RoundingMode::NearestEven);
    let (tp_pow, tps) = two_pi.pow(&s_minus_1, RoundingMode::NearestEven);
    let (coeff, _) = two.mul(&tp_pow, RoundingMode::NearestEven);
    let (pi_s, _) = pi.mul(&sw, RoundingMode::NearestEven);
    let (arg, _) = pi_s.div(&two, RoundingMode::NearestEven);
    let (sin_term, sns) = arg.sin(RoundingMode::NearestEven);
    let (one_minus_s, _) = one.sub(&sw, RoundingMode::NearestEven);
    let (gamma_term, gms) = one_minus_s.gamma(RoundingMode::NearestEven);
    let zeta_reflected = zeta_borwein(&one_minus_s, w);
    let (p1, _) = coeff.mul(&sin_term, RoundingMode::NearestEven);
    let (p2, _) = p1.mul(&gamma_term, RoundingMode::NearestEven);
    let z = p2.mul(&zeta_reflected, RoundingMode::NearestEven).0;
    proof {
        assert(call_ensures(wadd, (target, 96u64), w));
        assert(rounded_near(*x, w as nat, sw));
        assert(call_ensures(one_at, (w,), one));
        assert(call_ensures(int_at, (2i64, w), two));
        assert(call_ensures(pi_at, (w,), pi));
        assert(multiplied(two, pi, two_pi));
        assert(subtracted(sw, one, s_minus_1));
        assert(call_ensures(BigFloat::pow, (&two_pi, &s_minus_1, RoundingMode::NearestEven), (tp_pow, tps)));
        assert(multiplied(two, tp_pow, coeff));
        assert(multiplied(pi, sw, pi_s));
        assert(divided(pi_s, two, arg));
        assert(call_ensures(BigFloat::sin, (&arg, RoundingMode::NearestEven), (sin_term, sns)));
        assert(subtracted(one, sw, one_minus_s));
        assert(call_ensures(BigFloat::gamma, (&one_minus_s, RoundingMode::NearestEven), (gamma_term, gms)));
        assert(call_ensures(zeta_borwein, (&one_minus_s, w), zeta_reflected));
        assert(multiplied(coeff, sin_term, p1));
        assert(multiplied(p1, gamma_term, p2));
        assert(multiplied(p2, zeta_reflected, z));
    }
    z
}

/// How [`zeta_fe`] applies the functional equation
/// `ζ(s) = 2·(2π)^(s−1)·sin(πs/2)·Γ(1−s)·ζ(1−s)` at `w = target + 96`
/// bits: `sw` is `s` rounded to nearest; the power, sine and gamma are
/// what `pow`, `sin` and `gamma` give, `ζ(1−s)` what [`zeta_borwein`]
/// gives at `1 − sw`; each other operation rounded to nearest.
pub open spec fn zeta_fe_form(x: BigFloat, target: u32, z: BigFloat) -> bool {
    exists|w: u32, sw: BigFloat, one: BigFloat, two: BigFloat, pi: BigFloat, tp: BigFloat, sm1: BigFloat, tpp: BigFloat,
        tps: Status, co: BigFloat, ps: BigFloat, arg: BigFloat, sn: BigFloat, sns: Status, oms: BigFloat, g: BigFloat,
        gs: Status, zr: BigFloat, p1: BigFloat, p2: BigFloat|
        #![trigger call_ensures(wadd, (target, 96u64), w), rounded_near(x, w as nat, sw), call_ensures(one_at, (w,), one), call_ensures(int_at, (2i64, w), two), call_ensures(pi_at, (w,), pi), multiplied(two, pi, tp), subtracted(sw, one, sm1), call_ensures(BigFloat::pow, (&tp, &sm1, RoundingMode::NearestEven), (tpp, tps)), multiplied(two, tpp, co), multiplied(pi, sw, ps), divided(ps, two, arg), call_ensures(BigFloat::sin, (&arg, RoundingMode::NearestEven), (sn, sns)), subtracted(one, sw, oms), call_ensures(BigFloat::gamma, (&oms, RoundingMode::NearestEven), (g, gs)), call_ensures(zeta_borwein, (&oms, w), zr), multiplied(co, sn, p1), multiplied(p1, g, p2)]
        call_ensures(wadd, (target, 96u64), w) && rounded_near(x, w as nat, sw) && call_ensures(one_at, (w,), one)
            && call_ensures(int_at, (2i64, w), two) && call_ensures(pi_at, (w,), pi) && multiplied(two, pi, tp)
            && subtracted(sw, one, sm1) && call_ensures(BigFloat::pow, (&tp, &sm1, RoundingMode::NearestEven), (tpp, tps))
            && multiplied(two, tpp, co) && multiplied(pi, sw, ps) && divided(ps, two, arg)
            && call_ensures(BigFloat::sin, (&arg, RoundingMode::NearestEven), (sn, sns)) && subtracted(one, sw, oms)
            && call_ensures(BigFloat::gamma, (&oms, RoundingMode::NearestEven), (g, gs))
            && call_ensures(zeta_borwein, (&oms, w), zr) && multiplied(co, sn, p1) && multiplied(p1, g, p2)
            && multiplied(p2, zr, z)
}

/// `ζ(s)` at a finite non-special `s`, by the sign of `s`.
pub fn zeta_finite(x: &BigFloat, target: u32) -> (z: BigFloat)
    requires
        x.wf(),
        prec_ok(target as nat),
    ensures
        z.wf(),
        x.spec_neg() ==> zeta_fe_form(*x, target, z),
        !x.spec_neg() ==> call_ensures(zeta_borwein, (x, target), z),
{
    if x.is_sign_negative() {
        zeta_fe(x, target)
    } else {
        let z = zeta_borwein(x, target);
        proof {
            assert(call_ensures(zeta_borwein, (x, target), z));
        }
        z
    }
}

fn zeta_kernel(x: &BigFloat, target: u32, mode: RoundingMode) -> (r: (BigFloat, Status))
    requires
        x.wf(),
        prec_ok(target as nat),
    ensures
        r.0.wf(),
        r.0.precision == target,
        zeta_special(*x, r.0, r.1, target as nat),
        zeta_large(*x, r.0, r.1, target as nat, mode),
        zeta_value(*x, r.0, target as nat, mode),
{
    match &x.class {
        Class::Nan { .. } => return nan_in(x, target),
        Class::Zero { .. } => return (minus_half_at(target), Status { bits: 0 }),
        Class::Infinity { sign: Sign::Negative } => return (qnan_at(target), Status { bits: FLAG_INVALID }),
        Class::Infinity { sign: Sign::Positive } => return (one_at(target), Status { bits: 0 }),
        Class::Normal { .. } => {},
    }
    if is_unit_exec(x, false) {
        return (inf_at(Sign::Positive, target), Status { bits: FLAG_DIV_BY_ZERO });
    }
    if is_negative_even_integer(x) {
        return (zero_at(Sign::Positive, target), Status { bits: 0 });
    }
    if !x.is_sign_negative() && exponent_of(x) >= saturation_threshold_exponent(target) {
        let one = one_at(target);
        let (v, st) = round_with_infinitesimal(&one, false, target, mode);
        proof {
            crate::types::lemma_or_inexact(st.bits);
            assert(one.lsb_exp() == 1 - target);
            assert(super::nudged_parts(vstd::arithmetic::power2::pow2((target - 1) as nat), 1 - target, false, false, target as nat, mode, v, st));
        }
        let s = force_inexact(&v, st);
        return (v, s);
    }
    let eval = |w: u32| -> (y: BigFloat)
        requires
            prec_ok(w as nat),
        ensures
            y.wf(),
            call_ensures(zeta_finite, (x, w), y),
    {
        zeta_finite(x, w)
    };
    let depth_hint = || -> (d: u32) {
        let b = pole_boost(x, target);
        if b > u32::MAX as u64 { u32::MAX } else { b as u32 }
    };
    let (result, status) = ziv_round_with_depth(eval, target, mode, ZETA_ERROR_GUARD, depth_hint);
    proof {
        crate::types::lemma_or_inexact(status.bits);
        let t = choose|t: ZivTrace| t.0 == result && t.1 == status && #[trigger] is_trace_of(eval, target as nat, mode, t)
            && ziv_on_schedule(t.2 as int, target as int);
        assert(call_ensures(zeta_finite, (x, t.2), t.3));
        assert(rounds_to(t.3, target as nat, mode, result, status));
    }
    let st = force_inexact(&result, status);
    (result, st)
}

impl BigFloat {
    /// `ζ(self)` rounded under `mode` to the precision of
    /// `self`.
    pub fn zeta(&self, mode: RoundingMode) -> (r: (BigFloat, Status))
        requires
            self.wf(),
        ensures
            r.0.wf(),
            r.0.precision == self.precision,
            zeta_special(*self, r.0, r.1, self.precision as nat),
            zeta_large(*self, r.0, r.1, self.precision as nat, mode),
            zeta_value(*self, r.0, self.precision as nat, mode),
    {
        zeta_kernel(self, self.precision, mode)
    }

    /// `ζ(self)` rounded under `mode` to `target_precision`
    /// bits.
    pub fn zeta_round(&self, target_precision: u32, mode: RoundingMode) -> (r: Result<(BigFloat, Status), BuildError>)
        requires
            self.wf(),
        ensures
            r is Ok <==> prec_ok(target_precision as nat),
            target_precision == 0 ==> r == Err::<(BigFloat, Status), BuildError>(BuildError::PrecisionZero),
            r matches Ok(v) ==> v.0.wf() && v.0.precision == target_precision
                && zeta_special(*self, v.0, v.1, target_precision as nat)
                && zeta_large(*self, v.0, v.1, target_precision as nat, mode)
                && zeta_value(*self, v.0, target_precision as nat, mode),
    {
        BigFloat::check_precision(target_precision)?;
        Ok(zeta_kernel(self, target_precision, mode))
    }
}

impl<const PREC: u32> FixedFloat<PREC> {
    /// `ζ(self)` at the fixed precision.
    pub fn zeta(&self, mode: RoundingMode) -> (r: (FixedFloat<PREC>, Status))
        requires
            self.wf(),
        ensures
            r.0.wf(),
            zeta_special(self.value(), r.0.value(), r.1, PREC as nat),
            zeta_large(self.value(), r.0.value(), r.1, PREC as nat, mode),
            zeta_value(self.value(), r.0.value(), PREC as nat, mode),
            call_ensures(BigFloat::zeta, (&self.value(), mode), (r.0.value(), r.1)),
    {
        let (big, st) = self.big_ref().zeta(mode);
        (FixedFloat::wrap(big), st)
    }
}

} // verus!

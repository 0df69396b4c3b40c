//! Argument reduction for the forward trigonometric kernels: a finite
//! `x` becomes a quadrant `q ∈ {0, 1, 2, 3}` and a reduced argument
//! `r ∈ [−π/4, π/4]` with `x ≈ (q + r/(π/2))·(π/2)`, by multiplying
//! with a 4096-bit `2/π`, rounding to the nearest integer, and scaling
//! the remainder by `π/2`.
//!
//! | q | sin(x)   | cos(x)   |
//! |---|----------|----------|
//! | 0 | +sin(r)  | +cos(r)  |
//! | 1 | +cos(r)  | −sin(r)  |
//! | 2 | −sin(r)  | −cos(r)  |
//! | 3 | −cos(r)  | +sin(r)  |
//!
//! The table covers inputs whose exponent plus the working precision
//! plus 64 stays below 4096; past that the reduction refuses.

use vstd::prelude::*;
use vstd::arithmetic::power2::*;
use vstd::arithmetic::div_mod::*;
use vstd::arithmetic::mul::*;
use crate::limbs::{nat_of, shr, div_small};
use crate::types::{BigFloat, Class, Sign, RoundingMode, Status, prec_ok, sign_of, MAX_PRECISION};
use super::ziv::ZIV_BASE_GUARD;
use crate::round::round_result;
use crate::float::{finite_value_is, sig_limbs, lemma_sig_bounds, same};
use super::{wadd, rnd, rne, zero_at, exponent_of, sig_is_pow2, one_at, pi_over_2_at, two_over_pi_at, rounds_to, prec_clamp};
use crate::arith::{mul_spec, add_spec, negation_of, op_precision};
use super::expm1::minus_one_at;
use super::pow::{int_value, int_magnitude};

verus! {

/// A quadrant and the reduced argument.
pub struct Reduction {
    /// Quadrant index, `0..=3`.
    pub quadrant: u8,
    /// Reduced argument at the working precision.
    pub r: BigFloat,
}

/// Bound on `exponent + working precision + 64` that the `2/π` table
/// supports.
pub const REDUCTION_BUDGET: i64 = 4096;

/// `x` lies past what the reduction supports at the first working
/// precision of the Ziv schedule for `p` target bits.
pub open spec fn past_reduction(x: BigFloat, p: nat) -> bool {
    &&& x.class is Normal
    &&& p + ZIV_BASE_GUARD <= MAX_PRECISION
    &&& x.class->Normal_exponent + p + ZIV_BASE_GUARD + 64 >= REDUCTION_BUDGET
}

/// What rounding `y` to the nearest integer (ties to even) yields.
pub open spec fn nearest_int_result(y: BigFloat, r: BigFloat) -> bool {
    let neg = y.spec_neg();
    let e = y.class->Normal_exponent;
    &&& r.wf()
    &&& match y.class {
        Class::Zero { .. } => r.class == y.class,
        Class::Normal { .. } => if e < -1 {
            r.class == (Class::Zero { sign: sign_of(neg) })
        } else if e == -1 {
            if y.sig() == pow2((y.precision - 1) as nat) {
                r.class == (Class::Zero { sign: sign_of(neg) })
            } else {
                finite_value_is(r, if neg { -1int } else { 1int }, 0)
            }
        } else if e + 1 > MAX_PRECISION {
            same(r, y)
        } else {
            exists|st: Status| #[trigger] round_result(r, st, y.sig(), false, y.lsb_exp(), (e + 1) as nat, neg, RoundingMode::NearestEven)
        },
        _ => true,
    }
}

/// `y` rounded to the nearest integer, ties to even, as a value.
pub fn round_to_nearest_int(y: &BigFloat) -> (r: BigFloat)
    requires
        y.wf(),
        y.class is Zero || y.class is Normal,
    ensures
        nearest_int_result(*y, r),
{
    match &y.class {
        Class::Zero { .. } => y.dup(),
        Class::Normal { exponent, sign, .. } => {
            let e = *exponent;
            if e < -1 {
                zero_at(*sign, y.precision)
            } else if e == -1 {
                if sig_is_pow2(y) {
                    zero_at(*sign, y.precision)
                } else if y.is_sign_negative() {
                    minus_one_at(y.precision)
                } else {
                    one_at(y.precision)
                }
            } else if e as i128 + 1 > MAX_PRECISION as i128 {
                y.dup()
            } else {
                let (v, st) = rnd(y, (e + 1) as u32, RoundingMode::NearestEven);
                proof {
                    assert(((e + 1) as u32) as nat == (e + 1) as nat);
                    assert(round_result(v, st, y.sig(), false, y.lsb_exp(), (e + 1) as nat, y.spec_neg(), RoundingMode::NearestEven));
                }
                v
            }
        },
        _ => {
            proof {
                assert(false);
            }
            y.dup()
        },
    }
}

proof fn lemma_neg_mod4(m: int)
    ensures
        (-m) % 4 == (4 - m % 4) % 4,
{
    lemma_fundamental_div_mod(m, 4);
    let q = m / 4;
    let r = m % 4;
    if r == 0 {
        lemma_fundamental_div_mod_converse(-m, 4, -q, 0);
    } else {
        lemma_fundamental_div_mod_converse(-m, 4, -q - 1, 4 - r);
    }
}

/// `v mod 4` in `[0, 4)` of the integer `q` denotes.
pub fn mod_4(q: &BigFloat) -> (r: u8)
    requires
        q.wf(),
    ensures
        r < 4,
        int_value(*q) matches Some(v) ==> r == v % 4,
{
    match &q.class {
        Class::Zero { .. } => 0,
        Class::Normal { sign, exponent, mantissa } => {
            if *exponent < 0 {
                proof {
                    super::pow::lemma_int_magnitude(*q);
                }
                return 0;
            }
            let p = q.precision;
            let scale: i64 = *exponent - p as i64 + 1;
            proof {
                lemma_sig_bounds(*q);
            }
            let abs_mod4: u8;
            if scale >= 2 {
                proof {
                    let s = scale as nat;
                    lemma_pow2_adds(2, (s - 2) as nat);
                    lemma2_to64();
                    let h = pow2((s - 2) as nat);
                    assert(q.sig() * pow2(s) == (q.sig() * h) * 4) by (nonlinear_arith)
                        requires pow2(s) == 4 * h;
                    lemma_mod_multiples_basic((q.sig() * h) as int, 4);
                }
                abs_mod4 = 0;
            } else {
                let sig = sig_limbs(mantissa, p);
                if scale == 1 {
                    let (h, b) = div_small(&sig, 2);
                    proof {
                        lemma2_to64();
                        let m = q.sig();
                        assert(m * pow2(1) == 4 * nat_of(h@) + 2 * b) by (nonlinear_arith)
                            requires pow2(1) == 2, m == nat_of(h@) * 2 + b;
                        lemma_fundamental_div_mod_converse((m * pow2(1)) as int, 4, nat_of(h@) as int, (2 * b) as int);
                    }
                    abs_mod4 = (2 * b) as u8;
                } else if scale == 0 {
                    let (h, b) = div_small(&sig, 4);
                    proof {
                        lemma2_to64();
                        assert(q.sig() * pow2(0) == q.sig()) by (nonlinear_arith)
                            requires pow2(0) == 1;
                        lemma_fundamental_div_mod_converse(q.sig() as int, 4, nat_of(h@) as int, b as int);
                    }
                    abs_mod4 = b as u8;
                } else {
                    let k: i64 = -scale;
                    if k >= p as i64 {
                        return 0;
                    }
                    let (t, _) = shr(&sig, k as u64);
                    let (h, b) = div_small(&t, 4);
                    proof {
                        lemma_fundamental_div_mod_converse(nat_of(t@) as int, 4, nat_of(h@) as int, b as int);
                    }
                    abs_mod4 = b as u8;
                }
            }
            let neg = match sign {
                Sign::Negative => true,
                Sign::Positive => false,
            };
            proof {
                if int_magnitude(*q) is Some {
                    lemma_neg_mod4(int_magnitude(*q)->0 as int);
                }
            }
            if neg {
                (4 - abs_mod4) % 4
            } else {
                abs_mod4
            }
        },
        _ => 0,
    }
}

/// The precision at which [`reduce`] forms `x·(2/π)`: `w + 64` bits
/// above `x`'s integer part, at least `x`'s own precision, clamped to
/// `2048..=4096`.
pub open spec fn reduce_mul_prec(x: BigFloat, w: nat) -> int {
    let e = x.class->Normal_exponent;
    let needed: int = (if e > 0 { e as int } else { 0 }) + w + 64;
    let m1: int = if needed > x.precision { needed } else { x.precision as int };
    if m1 < 2048 { 2048 } else if m1 > 4096 { 4096 } else { m1 }
}

/// How [`reduce`] reduces a normal `x` with `|x| ≥ 1/4`: `y = x·c`
/// rounded to nearest at [`reduce_mul_prec`] bits, `c` what
/// [`two_over_pi_at`] gives there; `q` the integer nearest `y`, the
/// quadrant `q mod 4`; and `r = (y − q)·h` with `h` what
/// [`pi_over_2_at`] gives at `w + 64` bits, each step rounded to
/// nearest, the last to `w` bits.  A `y` past the finite range gives
/// quadrant 0 and `+0`.
pub open spec fn reduce_general(x: BigFloat, w: nat, red: Reduction) -> bool {
    exists|c: BigFloat, y: BigFloat, s1: Status|
        #![trigger call_ensures(two_over_pi_at, (reduce_mul_prec(x, w) as u32,), c), mul_spec(x, c, y, s1, reduce_mul_prec(x, w) as nat, RoundingMode::NearestEven)]
        call_ensures(two_over_pi_at, (reduce_mul_prec(x, w) as u32,), c)
        && mul_spec(x, c, y, s1, reduce_mul_prec(x, w) as nat, RoundingMode::NearestEven)
        && (!(y.class is Zero || y.class is Normal) ==> red.quadrant == 0 && red.r.class == (Class::Zero { sign: Sign::Positive }))
        && ((y.class is Zero || y.class is Normal) ==> exists|q: BigFloat, m: BigFloat, u: BigFloat, su: Status, h: BigFloat, v: BigFloat, sv: Status, s3: Status|
            #![trigger nearest_int_result(y, q), negation_of(m, q), add_spec(y, m, u, su, op_precision(y, q) as nat, RoundingMode::NearestEven), call_ensures(pi_over_2_at, (prec_clamp(w as int + 64) as u32,), h), mul_spec(u, h, v, sv, op_precision(u, h) as nat, RoundingMode::NearestEven), rounds_to(v, w, RoundingMode::NearestEven, red.r, s3)]
            nearest_int_result(y, q) && (int_value(q) matches Some(k) ==> red.quadrant == k % 4)
                && negation_of(m, q) && add_spec(y, m, u, su, op_precision(y, q) as nat, RoundingMode::NearestEven)
                && call_ensures(pi_over_2_at, (prec_clamp(w as int + 64) as u32,), h)
                && mul_spec(u, h, v, sv, op_precision(u, h) as nat, RoundingMode::NearestEven)
                && rounds_to(v, w, RoundingMode::NearestEven, red.r, s3))
}

/// Reduce a finite `x` at working precision `w`; `None` for a
/// non-finite `x` and where `|x|` passes the table's budget.
pub fn reduce(x: &BigFloat, w: u32) -> (r: Option<Reduction>)
    requires
        x.wf(),
        prec_ok(w as nat),
    ensures
        r is None <==> !(x.class is Zero || x.class is Normal)
            || (x.class is Normal && x.class->Normal_exponent + w + 64 >= REDUCTION_BUDGET),
        r matches Some(red) ==> red.quadrant < 4 && red.r.wf() && red.r.precision == w,
        x.class is Zero ==> (r matches Some(red) && red.quadrant == 0 && red.r.class == x.class),
        x.class is Normal && x.class->Normal_exponent <= -2 && x.class->Normal_exponent + w + 64 < REDUCTION_BUDGET
            ==> (r matches Some(red) && red.quadrant == 0 && exists|st: Status| #![trigger round_result(red.r, st, x.sig(), false, x.lsb_exp(), w as nat, x.spec_neg(), RoundingMode::NearestEven)]
                round_result(red.r, st, x.sig(), false, x.lsb_exp(), w as nat, x.spec_neg(), RoundingMode::NearestEven)),
        x.class is Normal && x.class->Normal_exponent > -2 && x.class->Normal_exponent + w + 64 < REDUCTION_BUDGET
            ==> (r matches Some(red) && reduce_general(*x, w as nat, red)),
{
    let e_x = match &x.class {
        Class::Normal { exponent, .. } => *exponent,
        Class::Zero { sign } => {
            return Some(Reduction { quadrant: 0, r: zero_at(*sign, w) });
        },
        _ => return None,
    };
    let slack: i64 = w as i64 + 64;
    if e_x as i128 + slack as i128 >= REDUCTION_BUDGET as i128 {
        return None;
    }
    if e_x <= -2 {
        let (r, st) = rnd(x, w, RoundingMode::NearestEven);
        return Some(Reduction { quadrant: 0, r });
    }
    let needed: i64 = (if e_x > 0 { e_x } else { 0 }) + w as i64 + 64;
    let m1: i64 = if needed > x.precision as i64 { needed } else { x.precision as i64 };
    let mul_prec: u32 = if m1 < 2048 { 2048 } else if m1 > 4096 { 4096 } else { m1 as u32 };
    let two_over_pi = two_over_pi_at(mul_prec);
    proof {
        assert(mul_prec as int == reduce_mul_prec(*x, w as nat));
        assert(call_ensures(two_over_pi_at, (reduce_mul_prec(*x, w as nat) as u32,), two_over_pi));
    }
    let (y, s1) = match x.mul_round(&two_over_pi, mul_prec, RoundingMode::NearestEven) {
        Ok(v) => v,
        Err(_) => {
            proof {
                assert(false);
            }
            return None;
        },
    };
    proof {
        assert(mul_spec(*x, two_over_pi, y, s1, reduce_mul_prec(*x, w as nat) as nat, RoundingMode::NearestEven));
    }
    if !(y.is_zero() || y.is_normal()) {
        return Some(Reduction { quadrant: 0, r: zero_at(Sign::Positive, w) });
    }
    let q_int = round_to_nearest_int(&y);
    let (r_unscaled, su) = y.sub(&q_int, RoundingMode::NearestEven);
    let quadrant = mod_4(&q_int);
    let wh = wadd(w, 64);
    let pi_over_2 = pi_over_2_at(wh);
    let (r_scaled, sv) = r_unscaled.mul(&pi_over_2, RoundingMode::NearestEven);
    let r = rne(&r_scaled, w);
    proof {
        let m = choose|m: BigFloat| negation_of(m, q_int) && add_spec(y, m, r_unscaled, su, op_precision(y, q_int) as nat, RoundingMode::NearestEven);
        assert(wh as int == prec_clamp(w as int + 64));
        assert(call_ensures(pi_over_2_at, (prec_clamp(w as int + 64) as u32,), pi_over_2));
        let s3 = choose|st: Status| rounds_to(r_scaled, w as nat, RoundingMode::NearestEven, r, st);
        assert(mul_spec(r_unscaled, pi_over_2, r_scaled, sv, op_precision(r_unscaled, pi_over_2) as nat, RoundingMode::NearestEven));
        assert(nearest_int_result(y, q_int));
        assert(rounds_to(r_scaled, w as nat, RoundingMode::NearestEven, r, s3));
    }
    Some(Reduction { quadrant, r })
}

} // verus!

//! `lgamma(x) = ln|Γ(x)|`: Stirling's series after shifting the
//! argument up by `Γ(z+1) = z·Γ(z)`, Spouge's formula past the series'
//! reach, and the reflection `ln π − ln|sin πx| − lgamma(1−x)` for
//! negative non-integers, with the working precision raised by the
//! cancellation near the roots; rounded through the Ziv
//! driver.

use vstd::prelude::*;
use crate::types::{BigFloat, BuildError, Class, Sign, RoundingMode, Status, FLAG_DIV_BY_ZERO, prec_ok};
use crate::float::nan_result;
use crate::fixed::FixedFloat;
use super::{at_least_ratio, at_most_ratio, wadd, int_at, one_at, rne, rnd, zero_at, inf_at, exponent_of, nan_in, pi_at, is_unit, is_unit_exec, sig_is_pow2, force_inexact};
use super::exp::has_inexact;
use super::pow::{int_value, integer_parity};
use super::gamma_stirling::{spouge_lgamma_scaled, stirling_lgamma, shift_magnitude, shift_magnitude_of};
use super::ziv::{ziv_round, cancellation_boosted, value_exponent, DEFAULT_ERROR_GUARD, ZivTrace, is_trace_of, ziv_on_schedule};
use super::{rounds_to, multiplied, subtracted, added, rounded_near};
use crate::float::same;

verus! {

/// Guard bits charged to one evaluation of the lgamma kernel.
pub const LGAMMA_ERROR_GUARD: u32 = DEFAULT_ERROR_GUARD;

/// Working precisions past this take Spouge's formula.
pub const STIRLING_REACH_THRESHOLD: u32 = 600;

/// `x` is `+2`.
pub open spec fn is_two(x: BigFloat) -> bool {
    &&& x.class is Normal
    &&& !x.spec_neg()
    &&& x.class->Normal_exponent == 1
    &&& x.sig() == vstd::arithmetic::power2::pow2((x.precision - 1) as nat)
}

/// The outcome `lgamma` promises: NaNs propagate, the poles (zero and
/// the negative integers) give `+∞` with DIV_BY_ZERO, both infinities
/// give `+∞`, `lgamma(1) = lgamma(2) = +0` exactly, and every other
/// normal result is INEXACT.
pub open spec fn lgamma_special(x: BigFloat, r: BigFloat, st: Status, p: nat) -> bool {
    &&& (x.class is Nan ==> nan_result(r, st, x, p))
    &&& (x.class is Zero ==> r.class == (Class::Infinity { sign: Sign::Positive }) && st.bits == FLAG_DIV_BY_ZERO)
    &&& (x.class is Infinity ==> r.class == (Class::Infinity { sign: Sign::Positive }) && st.bits == 0)
    &&& (x.class is Normal && x.spec_neg() && int_value(x) is Some
        ==> r.class == (Class::Infinity { sign: Sign::Positive }) && st.bits == FLAG_DIV_BY_ZERO)
    &&& (is_unit(x, false) || is_two(x) ==> r.class == (Class::Zero { sign: Sign::Positive }) && st.bits == 0)
    &&& (x.class is Normal && !(x.spec_neg() && int_value(x) is Some) && !is_unit(x, false) && !is_two(x)
        && r.class is Normal ==> has_inexact(st))
}

/// Whether `x` is an integer (zero included).
pub fn is_integer(x: &BigFloat) -> (r: bool)
    requires
        x.wf(),
    ensures
        r == (int_value(*x) is Some),
{
    integer_parity(x).is_some()
}

/// `+0` when `x` is `+1` or `+2`, whose `ln Γ` is exactly zero.
fn try_lgamma_small_pos_int_exact(x: &BigFloat, target: u32) -> (r: Option<BigFloat>)
    requires
        x.wf(),
        prec_ok(target as nat),
    ensures
        r is Some <==> (is_unit(*x, false) || is_two(*x)),
        r matches Some(v) ==> v.wf() && v.precision == target && v.class == (Class::Zero { sign: Sign::Positive }),
{
    let two = match &x.class {
        Class::Normal { sign: Sign::Positive, exponent, .. } => *exponent == 1 && sig_is_pow2(x),
        _ => false,
    };
    if is_unit_exec(x, false) || two {
        Some(zero_at(Sign::Positive, target))
    } else {
        None
    }
}

/// The argument below which Stirling's series needs an upward shift:
/// `2^min(⌈(p + 60)/33⌉, 28)`, at least 25.
pub fn z_min_for_target(p: u32) -> (z: u32)
    ensures
        25 <= z <= 0x1000_0000,
{
    let log_z_needed: u64 = (p as u64 + 60 + 32) / 33;
    let shift: u32 = if log_z_needed > 28 { 28 } else { log_z_needed as u32 };
    let z_min = crate::limbs::pow2_u64(shift as u64);
    proof {
        super::pow::lemma_pow2_le(shift as nat, 28);
        vstd::arithmetic::power2::lemma2_to64();
    }
    if z_min < 25 { 25 } else { z_min as u32 }
}

/// `x + n`.
pub fn shift_up(x: &BigFloat, n: u32, w: u32) -> (r: BigFloat)
    requires
        x.wf(),
        prec_ok(w as nat),
    ensures
        r.wf(),
        exists|nb: BigFloat| #[trigger] call_ensures(int_at, (n as i64, w), nb) && added(*x, nb, r),
{
    let nb = int_at(n as i64, w);
    let r = x.add(&nb, RoundingMode::NearestEven).0;
    proof {
        assert(call_ensures(int_at, (n as i64, w), nb));
        assert(added(*x, nb, r));
    }
    r
}

/// `f` is `x + k`, the integer `k` taken at `w` bits, rounded to
/// nearest.
pub open spec fn shift_factor(x: BigFloat, k: int, w: u32, f: BigFloat) -> bool {
    exists|kb: BigFloat| #[trigger] call_ensures(int_at, (k as i64, w), kb) && added(x, kb, f)
}

/// `prods` are the running products `a · factors[0] · factors[1] · …`:
/// `prods[0]` is `a`, `prods[i+1] = prods[i] · factors[i]` rounded to
/// nearest.
pub open spec fn product_chain(a: BigFloat, factors: Seq<BigFloat>, prods: Seq<BigFloat>) -> bool {
    &&& prods.len() == factors.len() + 1
    &&& same(prods[0], a)
    &&& forall|i: int| 0 <= i < factors.len() ==> multiplied(prods[i], #[trigger] factors[i], prods[i + 1])
}

/// How [`product_ln`] forms `ln(x·(x+1)···(x+n−1))`: the product
/// starts at `x` and takes the factors `x + k`, `k = 1, …, n − 1` (the
/// integer `k` at `w` bits), each operation rounded to nearest, and
/// `r` is what `ln` gives at the product.
pub open spec fn product_ln_form(x: BigFloat, n: u32, w: u32, r: BigFloat) -> bool {
    exists|factors: Seq<BigFloat>, prods: Seq<BigFloat>, ls: Status|
        #![trigger product_chain(x, factors, prods), call_ensures(BigFloat::ln, (&prods.last(), RoundingMode::NearestEven), (r, ls))]
        product_chain(x, factors, prods) && factors.len() == (if n >= 1 { n - 1 } else { 0 })
            && (forall|j: int| 0 <= j < factors.len() ==> shift_factor(x, j + 1, w, #[trigger] factors[j]))
            && call_ensures(BigFloat::ln, (&prods.last(), RoundingMode::NearestEven), (r, ls))
}

/// `ln(x·(x+1)···(x+n−1))`.
pub fn product_ln(x: &BigFloat, n: u32, w: u32) -> (r: BigFloat)
    requires
        x.wf(),
        prec_ok(w as nat),
    ensures
        r.wf(),
        product_ln_form(*x, n, w, r),
{
    let mut product = x.dup();
    let ghost mut factors: Seq<BigFloat> = Seq::empty();
    let ghost mut prods: Seq<BigFloat> = seq![product];
    let mut k: u32 = 1;
    while k < n
        invariant
            x.wf(),
            product.wf(),
            prec_ok(w as nat),
            1 <= k,
            factors.len() == k - 1,
            k <= n || k == 1,
            product_chain(*x, factors, prods),
            prods.last() == product,
            forall|j: int| 0 <= j < factors.len() ==> shift_factor(*x, j + 1, w, #[trigger] factors[j]),
        decreases n - k,
    {
        let kb = int_at(k as i64, w);
        let (factor, _) = x.add(&kb, RoundingMode::NearestEven);
        let (next, _) = product.mul(&factor, RoundingMode::NearestEven);
        proof {
            assert(call_ensures(int_at, (k as i64, w), kb));
            assert(added(*x, kb, factor));
            assert(multiplied(product, factor, next));
            let old_f = factors;
            let old_p = prods;
            factors = factors.push(factor);
            prods = prods.push(next);
            assert forall|i: int| 0 <= i < factors.len() implies multiplied(prods[i], #[trigger] factors[i], prods[i + 1]) by {
                if i < old_f.len() {
                    assert(factors[i] == old_f[i] && prods[i] == old_p[i] && prods[i + 1] == old_p[i + 1]);
                }
            }
            assert(shift_factor(*x, k as int, w, factor));
            assert forall|j: int| 0 <= j < factors.len() implies shift_factor(*x, j + 1, w, #[trigger] factors[j]) by {
                if j < old_f.len() {
                    assert(factors[j] == old_f[j]);
                }
            }
        }
        product = next;
        k = k + 1;
    }
    let (r, ls) = product.ln(RoundingMode::NearestEven);
    proof {
        assert(call_ensures(BigFloat::ln, (&prods.last(), RoundingMode::NearestEven), (r, ls)));
        assert(factors.len() == (if n >= 1 { n - 1 } else { 0 }));
    }
    r
}

/// The depth for a gap of exponent `g`: `−g` when `g < −1`, capped at
/// `2^32 − 1`, and 0 otherwise.
pub open spec fn depth_of_gap(g: int) -> int {
    if g >= -1 { 0 } else if g < -0xffff_ffff { 0xffff_ffff } else { -g }
}

/// `d` is the depth of `x` off the nearest integer: for `|x| < 1` the
/// exponent of `1 − |x|` (rounded to nearest at `x`'s precision), or of
/// `x` itself if smaller; for `1 ≤ |x| < 2^precision` the exponent of
/// `x − n`, `n` being `x` rounded to nearest at its integer bits; zero
/// when that difference is zero, for an integral or non-normal `x`.
pub open spec fn proximity_depth_is(x: BigFloat, d: int) -> bool {
    if !(x.class is Normal) {
        d == 0
    } else {
        let e = x.class->Normal_exponent;
        let p = x.precision as nat;
        if e < 0 {
            exists|one: BigFloat, ax: BigFloat, g: BigFloat|
                #![trigger crate::arith::abs_of(ax, x), crate::arith::diff_spec(one, ax, g, p, RoundingMode::NearestEven)]
                one.wf() && one.precision == p && is_unit(one, false) && crate::arith::abs_of(ax, x)
                && crate::arith::diff_spec(one, ax, g, p, RoundingMode::NearestEven)
                && d == (if !(g.class is Normal) { 0 } else {
                    depth_of_gap(if e < g.class->Normal_exponent { e as int } else { g.class->Normal_exponent as int })
                })
        } else if e >= p {
            d == 0
        } else {
            exists|n: BigFloat, g: BigFloat, st: Status|
                #![trigger super::rounds_to(x, (e + 1) as nat, RoundingMode::NearestEven, n, st), crate::arith::diff_spec(x, n, g, p, RoundingMode::NearestEven)]
                super::rounds_to(x, (e + 1) as nat, RoundingMode::NearestEven, n, st)
                && crate::arith::diff_spec(x, n, g, p, RoundingMode::NearestEven)
                && d == (if !(g.class is Normal) { 0 } else { depth_of_gap(g.class->Normal_exponent as int) })
        }
    }
}

/// How many bits below one the distance of `x` to the nearest pole or
/// root-free integer lies: `−exponent(x − round(x))` (or of `1 − |x|`
/// below one), zero when that distance is at least a quarter.
pub fn pole_proximity_depth(x: &BigFloat) -> (d: u32)
    requires
        x.wf(),
    ensures
        proximity_depth_is(*x, d as int),
{
    let e_x = match &x.class {
        Class::Normal { exponent, .. } => *exponent,
        _ => return 0,
    };
    let gap_exponent: i64 = if e_x < 0 {
        let one = one_at(x.precision);
        let ax = x.abs();
        let (gap_to_one, _) = one.sub(&ax, RoundingMode::NearestEven);
        proof {
            assert(is_unit(one, false));
            assert(crate::arith::abs_of(ax, *x));
            assert(crate::arith::diff_spec(one, ax, gap_to_one, x.precision as nat, RoundingMode::NearestEven));
        }
        if !gap_to_one.is_normal() {
            return 0;
        }
        let g = exponent_of(&gap_to_one);
        if e_x < g { e_x } else { g }
    } else {
        if e_x >= x.precision as i64 {
            return 0;
        }
        let (n, st) = rnd(x, (e_x + 1) as u32, RoundingMode::NearestEven);
        let (gap, _) = x.sub(&n, RoundingMode::NearestEven);
        proof {
            assert(super::rounds_to(*x, (e_x + 1) as nat, RoundingMode::NearestEven, n, st));
            assert(crate::arith::diff_spec(*x, n, gap, x.precision as nat, RoundingMode::NearestEven));
        }
        if !gap.is_normal() {
            return 0;
        }
        exponent_of(&gap)
    };
    if gap_exponent >= -1 {
        return 0;
    }
    if gap_exponent < -0xffff_ffff {
        0xffff_ffff
    } else {
        (-gap_exponent) as u32
    }
}

/// `q/4` at four bits.
fn quarter(q: i64) -> (r: BigFloat)
    ensures
        r.wf(),
        0 < q < 16 ==> r.class is Normal && !r.spec_neg() && crate::float::finite_value_is(r, q as int, -2),
{
    let v = int_at(q, 4);
    proof {
        if 0 < q < 16 {
            vstd::arithmetic::power2::lemma2_to64();
            crate::round::lemma_bits_le(q as nat, 4);
        }
    }
    v.scale_by_pow2(-2).0
}

/// Whether `lo/4 ≤ x ≤ hi/4`.
fn within_quarters(x: &BigFloat, lo: i64, hi: i64) -> (r: bool)
    requires
        x.wf(),
    ensures
        0 < lo < 16 && 0 < hi < 16 ==> r == (at_least_ratio(*x, lo as int, 2) && at_most_ratio(*x, hi as int, 2)),
{
    let ql = quarter(lo);
    let qh = quarter(hi);
    proof {
        if 0 < lo < 16 && 0 < hi < 16 {
            super::lemma_order_vs_ratio(*x, ql, lo as int, 2);
            super::lemma_order_vs_ratio(*x, qh, hi as int, 2);
        }
    }
    let a = match x.compare(&ql) {
        Some(v) => v >= 0,
        None => false,
    };
    let b = match x.compare(&qh) {
        Some(v) => v <= 0,
        None => false,
    };
    a && b
}

/// Whether `x` lies in `[3/4, 5/4]` or `[7/4, 9/4]`, around the
/// positive roots 1 and 2.
fn in_positive_root_window(x: &BigFloat) -> (r: bool)
    requires
        x.wf(),
    ensures
        r == ((at_least_ratio(*x, 3, 2) && at_most_ratio(*x, 5, 2)) || (at_least_ratio(*x, 7, 2) && at_most_ratio(*x, 9, 2))),
{
    within_quarters(x, 3, 5) || within_quarters(x, 7, 9)
}

/// What [`lgamma_positive_at_w`] computes from `xw`, its argument
/// rounded to nearest at `w` bits: Spouge's formula past the series'
/// reach; Stirling's series at `xw` where the yardstick
/// [`shift_magnitude`] of `xw` reaches `z_min`; otherwise, by
/// `Γ(x + n) = x·(x+1)···(x+n−1)·Γ(x)` with `n` the shortfall, the
/// series at what [`shift_up`] gives less what [`product_ln`] gives,
/// rounded to nearest.
pub open spec fn lgamma_at_w_form(xw: BigFloat, z_min: u32, w: u32, r: (BigFloat, i64)) -> bool {
    if w > STIRLING_REACH_THRESHOLD {
        call_ensures(spouge_lgamma_scaled, (&xw, w), r)
    } else if shift_magnitude(xw) >= z_min {
        call_ensures(stirling_lgamma, (&xw, w), r.0)
    } else {
        exists|z: BigFloat, lz: BigFloat, lp: BigFloat|
            #![trigger call_ensures(shift_up, (&xw, (z_min - shift_magnitude(xw)) as u32, w), z), call_ensures(stirling_lgamma, (&z, w), lz), call_ensures(product_ln, (&xw, (z_min - shift_magnitude(xw)) as u32, w), lp)]
            call_ensures(shift_up, (&xw, (z_min - shift_magnitude(xw)) as u32, w), z)
                && call_ensures(stirling_lgamma, (&z, w), lz)
                && call_ensures(product_ln, (&xw, (z_min - shift_magnitude(xw)) as u32, w), lp)
                && subtracted(lz, lp, r.0)
    }
}

/// `ln Γ(x)` for positive `x` at working precision `w`, with the
/// exponent of the larger operand that cancelled to form it.
pub fn lgamma_positive_at_w(x: &BigFloat, z_min: u32, w: u32) -> (r: (BigFloat, i64))
    requires
        x.wf(),
        prec_ok(w as nat),
    ensures
        r.0.wf(),
        exists|xw: BigFloat| #[trigger] rounded_near(*x, w as nat, xw) && lgamma_at_w_form(xw, z_min, w, r),
{
    let x_w = rne(x, w);
    proof {
        assert(rounded_near(*x, w as nat, x_w));
    }
    if w > STIRLING_REACH_THRESHOLD {
        let r = spouge_lgamma_scaled(&x_w, w);
        proof {
            assert(call_ensures(spouge_lgamma_scaled, (&x_w, w), r));
        }
        return r;
    }
    let approx_x = shift_magnitude_of(&x_w);
    if approx_x >= z_min {
        let v = stirling_lgamma(&x_w, w);
        proof {
            assert(call_ensures(stirling_lgamma, (&x_w, w), v));
        }
        let scale = value_exponent(&v);
        (v, scale)
    } else {
        let shifts = z_min - approx_x;
        let shifted = shift_up(&x_w, shifts, w);
        let lgamma_z = stirling_lgamma(&shifted, w);
        let ln_prod = product_ln(&x_w, shifts, w);
        let (diff, _) = lgamma_z.sub(&ln_prod, RoundingMode::NearestEven);
        proof {
            assert(shifts == (z_min - shift_magnitude(x_w)) as u32);
            assert(call_ensures(shift_up, (&x_w, shifts, w), shifted));
            assert(call_ensures(stirling_lgamma, (&shifted, w), lgamma_z));
            assert(call_ensures(product_ln, (&x_w, shifts, w), ln_prod));
            assert(subtracted(lgamma_z, ln_prod, diff));
        }
        let s1 = value_exponent(&lgamma_z);
        let s2 = value_exponent(&ln_prod);
        (diff, if s1 >= s2 { s1 } else { s2 })
    }
}

/// What `lgamma` gives at a positive normal argument other than one
/// and two: the value [`lgamma_positive_value`] computes (with the shift
/// bound [`z_min_for_target`] gives at `p`) at a working precision of
/// the Ziv schedule, rounded to `p` bits under `mode`.
pub open spec fn lgamma_pos_value(x: BigFloat, r: BigFloat, p: nat, mode: RoundingMode) -> bool {
    x.class is Normal && !x.spec_neg() && !is_unit(x, false) && !is_two(x)
        ==> exists|w: u32, y: BigFloat, s0: Status, zm: u32|
            #![trigger call_ensures(lgamma_positive_value, (&x, zm, w), y), rounds_to(y, p, mode, r, s0)]
            call_ensures(z_min_for_target, (p as u32,), zm) && call_ensures(lgamma_positive_value, (&x, zm, w), y)
                && ziv_on_schedule(w as int, p as int) && rounds_to(y, p, mode, r, s0)
}

/// What `lgamma` gives at a negative non-integer: the value
/// [`lgamma_negative_value`] computes at a working precision of the Ziv
/// schedule, rounded to `p` bits under `mode`.
pub open spec fn lgamma_neg_value(x: BigFloat, r: BigFloat, p: nat, mode: RoundingMode) -> bool {
    x.class is Normal && x.spec_neg() && int_value(x) is None
        ==> exists|w: u32, y: BigFloat, s0: Status|
            #![trigger call_ensures(lgamma_negative_value, (&x, w), y), rounds_to(y, p, mode, r, s0)]
            call_ensures(lgamma_negative_value, (&x, w), y) && ziv_on_schedule(w as int, p as int) && rounds_to(y, p, mode, r, s0)
}

/// `ln Γ(x)` at working precision `w` for an `x` off the negative
/// axis, boosted by the cancellation near the roots 1 and 2.
pub fn lgamma_positive_value(x: &BigFloat, z_min: u32, w: u32) -> (r: BigFloat)
    requires
        x.wf(),
        prec_ok(w as nat),
    ensures
        r.wf(),
        exists|w2: u32, zm: u32, v: (BigFloat, i64)|
            #[trigger] call_ensures(lgamma_positive_at_w, (x, zm, w2), v) && v.0 == r,
{
    if in_positive_root_window(x) {
        let eval = |w2: u32| -> (v: (BigFloat, i64))
            requires
                prec_ok(w2 as nat),
            ensures
                v.0.wf(),
                exists|zm: u32| #[trigger] call_ensures(lgamma_positive_at_w, (x, zm, w2), v),
        {
            let zm = z_min_for_target(w2);
            let v = lgamma_positive_at_w(x, zm, w2);
            proof {
                assert(call_ensures(lgamma_positive_at_w, (x, zm, w2), v));
            }
            v
        };
        return cancellation_boosted(w, eval);
    }
    let v = lgamma_positive_at_w(x, z_min, w);
    proof {
        assert(call_ensures(lgamma_positive_at_w, (x, z_min, w), v));
    }
    v.0
}

/// `lgamma` of an argument off the negative axis, rounded to
/// `target` bits.
pub fn lgamma_positive_kernel(x: &BigFloat, target: u32, mode: RoundingMode) -> (r: (BigFloat, Status))
    requires
        x.wf(),
        prec_ok(target as nat),
    ensures
        r.0.wf(),
        r.0.precision == target,
        is_unit(*x, false) || is_two(*x) ==> r.0.class == (Class::Zero { sign: Sign::Positive }) && r.1.bits == 0,
        !is_unit(*x, false) && !is_two(*x) && r.0.class is Normal ==> has_inexact(r.1),
        lgamma_pos_value(*x, r.0, target as nat, mode),
{
    match try_lgamma_small_pos_int_exact(x, target) {
        Some(v) => return (v, Status { bits: 0 }),
        None => {},
    }
    let z_min = z_min_for_target(target);
    let eval = |w: u32| -> (v: BigFloat)
        requires
            prec_ok(w as nat),
        ensures
            v.wf(),
            call_ensures(lgamma_positive_value, (x, z_min, w), v),
    {
        lgamma_positive_value(x, z_min, w)
    };
    let (result, status) = ziv_round(eval, target, mode, LGAMMA_ERROR_GUARD);
    let st = force_inexact(&result, status);
    proof {
        crate::types::lemma_or_inexact(status.bits);
        let t = choose|t: ZivTrace| t.0 == result && t.1 == status && #[trigger] is_trace_of(eval, target as nat, mode, t)
            && ziv_on_schedule(t.2 as int, target as int);
        assert(call_ensures(lgamma_positive_value, (x, z_min, t.2), t.3));
        assert(rounds_to(t.3, target as nat, mode, result, status));
        assert(call_ensures(z_min_for_target, ((target as nat) as u32,), z_min));
    }
    (result, st)
}

/// The reflection `ln|Γ(x)| = ln π − ln|sin πx| − ln Γ(1 − x)` at `w2`
/// bits: `y = 1 − x`, `π` what [`pi_at`] gives, `s` what `sin` gives at
/// `π·x`, the logarithms what `ln` gives at `π` and `|s|`, and
/// `ln Γ(y)` what [`lgamma_positive_kernel`] gives; each operation
/// rounded to nearest.
pub open spec fn lgamma_reflection(x: BigFloat, w2: u32, r: BigFloat) -> bool {
    exists|one: BigFloat, y: BigFloat, pi: BigFloat, pix: BigFloat, sv: BigFloat, ss: Status, asv: BigFloat,
        lsin: BigFloat, lss: Status, lpi: BigFloat, lps: Status, lg: BigFloat, lgs: Status, mid: BigFloat|
        #![trigger call_ensures(one_at, (w2,), one), subtracted(one, x, y), call_ensures(pi_at, (w2,), pi), multiplied(pi, x, pix), call_ensures(BigFloat::sin, (&pix, RoundingMode::NearestEven), (sv, ss)), call_ensures(BigFloat::abs, (&sv,), asv), call_ensures(BigFloat::ln, (&asv, RoundingMode::NearestEven), (lsin, lss)), call_ensures(BigFloat::ln, (&pi, RoundingMode::NearestEven), (lpi, lps)), call_ensures(lgamma_positive_kernel, (&y, w2, RoundingMode::NearestEven), (lg, lgs)), subtracted(lpi, lsin, mid)]
        call_ensures(one_at, (w2,), one) && subtracted(one, x, y) && call_ensures(pi_at, (w2,), pi)
            && multiplied(pi, x, pix) && call_ensures(BigFloat::sin, (&pix, RoundingMode::NearestEven), (sv, ss))
            && call_ensures(BigFloat::abs, (&sv,), asv) && call_ensures(BigFloat::ln, (&asv, RoundingMode::NearestEven), (lsin, lss))
            && call_ensures(BigFloat::ln, (&pi, RoundingMode::NearestEven), (lpi, lps))
            && call_ensures(lgamma_positive_kernel, (&y, w2, RoundingMode::NearestEven), (lg, lgs))
            && subtracted(lpi, lsin, mid) && subtracted(mid, lg, r)
}

/// One reflected evaluation of `ln|Γ|` at a negative non-integer `x` at
/// `w2` bits, with the larger exponent of its two parts.
pub fn lgamma_reflect_at(x: &BigFloat, w2: u32) -> (v: (BigFloat, i64))
    requires
        x.wf(),
        prec_ok(w2 as nat),
    ensures
        v.0.wf(),
        lgamma_reflection(*x, w2, v.0),
{
    let one = one_at(w2);
    let (y, _) = one.sub(x, RoundingMode::NearestEven);
    let pi = pi_at(w2);
    let (pi_x, _) = pi.mul(x, RoundingMode::NearestEven);
    let (sin_val, ss) = pi_x.sin(RoundingMode::NearestEven);
    let abs_sin = sin_val.abs();
    let (ln_sin, lss) = abs_sin.ln(RoundingMode::NearestEven);
    let (ln_pi, lps) = pi.ln(RoundingMode::NearestEven);
    let (lgamma_y, lgs) = lgamma_positive_kernel(&y, w2, RoundingMode::NearestEven);
    let (mid, _) = ln_pi.sub(&ln_sin, RoundingMode::NearestEven);
    let (result, _) = mid.sub(&lgamma_y, RoundingMode::NearestEven);
    proof {
        assert(call_ensures(one_at, (w2,), one));
        assert(subtracted(one, *x, y));
        assert(call_ensures(pi_at, (w2,), pi));
        assert(multiplied(pi, *x, pi_x));
        assert(call_ensures(BigFloat::sin, (&pi_x, RoundingMode::NearestEven), (sin_val, ss)));
        assert(call_ensures(BigFloat::abs, (&sin_val,), abs_sin));
        assert(call_ensures(BigFloat::ln, (&abs_sin, RoundingMode::NearestEven), (ln_sin, lss)));
        assert(call_ensures(BigFloat::ln, (&pi, RoundingMode::NearestEven), (ln_pi, lps)));
        assert(call_ensures(lgamma_positive_kernel, (&y, w2, RoundingMode::NearestEven), (lgamma_y, lgs)));
        assert(subtracted(ln_pi, ln_sin, mid));
        assert(subtracted(mid, lgamma_y, result));
    }
    let s1 = value_exponent(&mid);
    let s2 = value_exponent(&lgamma_y);
    (result, if s1 >= s2 { s1 } else { s2 })
}

/// `ln|Γ(x)|` for a negative non-integer `x` at working precision `w`
/// by reflection, boosted by the proximity to the poles and by the
/// cancellation near the roots.
pub fn lgamma_negative_value(x: &BigFloat, w: u32) -> (r: BigFloat)
    requires
        x.wf(),
        prec_ok(w as nat),
    ensures
        r.wf(),
        exists|w2: u32| #[trigger] lgamma_reflection(*x, w2, r),
{
    let pole_boost: u64 = pole_proximity_depth(x) as u64 + 8;
    let working = wadd(w, pole_boost);
    let eval = |w2: u32| -> (v: (BigFloat, i64))
        requires
            prec_ok(w2 as nat),
        ensures
            v.0.wf(),
            lgamma_reflection(*x, w2, v.0),
    {
        lgamma_reflect_at(x, w2)
    };
    cancellation_boosted(working, eval)
}

fn lgamma_kernel(x: &BigFloat, target: u32, mode: RoundingMode) -> (r: (BigFloat, Status))
    requires
        x.wf(),
        prec_ok(target as nat),
    ensures
        r.0.wf(),
        r.0.precision == target,
        lgamma_special(*x, r.0, r.1, target as nat),
        lgamma_pos_value(*x, r.0, target as nat, mode),
        lgamma_neg_value(*x, r.0, target as nat, mode),
{
    match &x.class {
        Class::Nan { .. } => return nan_in(x, target),
        Class::Zero { .. } => return (inf_at(Sign::Positive, target), Status { bits: FLAG_DIV_BY_ZERO }),
        Class::Infinity { .. } => return (inf_at(Sign::Positive, target), Status { bits: 0 }),
        Class::Normal { .. } => {},
    }
    if !x.is_sign_negative() {
        return lgamma_positive_kernel(x, target, mode);
    }
    if is_integer(x) {
        return (inf_at(Sign::Positive, target), Status { bits: FLAG_DIV_BY_ZERO });
    }
    let eval = |w: u32| -> (v: BigFloat)
        requires
            prec_ok(w as nat),
        ensures
            v.wf(),
            call_ensures(lgamma_negative_value, (x, w), v),
    {
        lgamma_negative_value(x, w)
    };
    let (result, status) = ziv_round(eval, target, mode, LGAMMA_ERROR_GUARD);
    let st = force_inexact(&result, status);
    proof {
        crate::types::lemma_or_inexact(status.bits);
        let t = choose|t: ZivTrace| t.0 == result && t.1 == status && #[trigger] is_trace_of(eval, target as nat, mode, t)
            && ziv_on_schedule(t.2 as int, target as int);
        assert(call_ensures(lgamma_negative_value, (x, t.2), t.3));
        assert(rounds_to(t.3, target as nat, mode, result, status));
    }
    (result, st)
}

impl BigFloat {
    /// `ln|Γ(self)|` rounded under `mode` to the precision of
    /// `self`.
    pub fn lgamma(&self, mode: RoundingMode) -> (r: (BigFloat, Status))
        requires
            self.wf(),
        ensures
            r.0.wf(),
            r.0.precision == self.precision,
            lgamma_special(*self, r.0, r.1, self.precision as nat),
            lgamma_pos_value(*self, r.0, self.precision as nat, mode),
            lgamma_neg_value(*self, r.0, self.precision as nat, mode),
    {
        lgamma_kernel(self, self.precision, mode)
    }

    /// `ln|Γ(self)|` rounded under `mode` to
    /// `target_precision` bits.
    pub fn lgamma_round(&self, target_precision: u32, mode: RoundingMode) -> (r: Result<(BigFloat, Status), BuildError>)
        requires
            self.wf(),
        ensures
            r is Ok <==> prec_ok(target_precision as nat),
            target_precision == 0 ==> r == Err::<(BigFloat, Status), BuildError>(BuildError::PrecisionZero),
            r matches Ok(v) ==> v.0.wf() && v.0.precision == target_precision
                && lgamma_special(*self, v.0, v.1, target_precision as nat)
                && lgamma_pos_value(*self, v.0, target_precision as nat, mode)
                && lgamma_neg_value(*self, v.0, target_precision as nat, mode),
    {
        BigFloat::check_precision(target_precision)?;
        Ok(lgamma_kernel(self, target_precision, mode))
    }
}

impl<const PREC: u32> FixedFloat<PREC> {
    /// `ln|Γ(self)|` at the fixed precision.
    pub fn lgamma(&self, mode: RoundingMode) -> (r: (FixedFloat<PREC>, Status))
        requires
            self.wf(),
        ensures
            r.0.wf(),
            lgamma_special(self.value(), r.0.value(), r.1, PREC as nat),
            lgamma_pos_value(self.value(), r.0.value(), PREC as nat, mode),
            lgamma_neg_value(self.value(), r.0.value(), PREC as nat, mode),
            call_ensures(BigFloat::lgamma, (&self.value(), mode), (r.0.value(), r.1)),
    {
        let (big, st) = self.big_ref().lgamma(mode);
        (FixedFloat::wrap(big), st)
    }
}

} // verus!

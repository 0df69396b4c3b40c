//! Bessel functions of the second kind `Y₀`, `Y₁`, `Yₙ` of integer order
//! and real argument.
//!
//! `Y` is real only for `x > 0`: `Yₙ(±0)` is a pole (`−∞`, or `+∞` for a
//! negative odd order) with DIV_BY_ZERO, a negative argument or `−∞`
//! gives a quiet NaN with INVALID, and `Yₙ(+∞) = +0`. A negative order
//! folds by `Y₋ₙ = (−1)ⁿ Yₙ`. `Y₀` and `Y₁` come from the logarithmic
//! series below a threshold on the exponent of `x` and from the Hankel
//! asymptotic above it; higher orders climb by the upward recurrence
//! `Y_{k+1} = (2k/x)·Y_k − Y_{k−1}`, stable for the dominant solution.

use vstd::prelude::*;
use crate::types::{BigFloat, BuildError, Class, Sign, RoundingMode, Status, FLAG_INVALID, FLAG_DIV_BY_ZERO, prec_ok};
use crate::float::nan_result;
use crate::fixed::FixedFloat;
use super::{wadd, int_at, one_at, rne, zero_at, inf_at, qnan_at, exponent_of, nan_in, pi_at, pi_over_2_at,
    euler_gamma_at, force_inexact};
use super::exp::has_inexact;
use super::ei::{term_magnitude, below_floor};
use super::ziv::{ziv_round, cancellation_boosted, DEFAULT_ERROR_GUARD, ZivTrace, is_trace_of, ziv_on_schedule};
use super::{rounds_to, multiplied, divided, subtracted, rounded_near};
use crate::arith::negation_of;

verus! {

/// Guard bits charged to one evaluation of the Y kernel.
pub const BESSEL_Y_ERROR_GUARD: u32 = DEFAULT_ERROR_GUARD;

/// Largest order `|n|` evaluated; the upward recurrence costs `O(|n|)`
/// steps at `O(|n|)` extra bits, so a larger order is refused.
pub const MAX_BESSEL_ORDER: u32 = 0x1_0000;

/// The sign of the pole `Yₙ(±0)`: `+∞` for a negative odd order, `−∞`
/// otherwise.
pub open spec fn pole_sign(n: int) -> Sign {
    if n < 0 && n % 2 == 1 { Sign::Positive } else { Sign::Negative }
}

/// The outcome `Yₙ` promises: NaNs propagate, the pole at `±0`, `+0` at
/// `+∞`, a quiet NaN with INVALID on the negative axis and for an order
/// past the budget, and a normal result is INEXACT.
pub open spec fn bessel_y_special(n: int, x: BigFloat, r: BigFloat, st: Status, p: nat) -> bool {
    &&& (x.class is Nan ==> nan_result(r, st, x, p))
    &&& (x.class is Zero ==> r.class == (Class::Infinity { sign: pole_sign(n) }) && st.bits == FLAG_DIV_BY_ZERO)
    &&& (x.class == (Class::Infinity { sign: Sign::Positive }) ==> r.class == (Class::Zero { sign: Sign::Positive })
        && st.bits == 0)
    &&& ((x.class == (Class::Infinity { sign: Sign::Negative }) || (x.class is Normal && x.spec_neg())
        || (x.class is Normal && !x.spec_neg() && (n > MAX_BESSEL_ORDER || n < -MAX_BESSEL_ORDER)))
        ==> r.class is Nan && r.class->Nan_quiet && !r.spec_neg() && st.bits == FLAG_INVALID)
    &&& (x.class is Normal && r.class is Normal ==> has_inexact(st))
}

/// Exponent from which `Y₀`/`Y₁` take the asymptotic expansion at `p`
/// target bits: `⌊log₂ p⌋`, so `x ≥ p` and the expansion's smallest
/// term, about `e^(−2x)`, lies below `2^(−2.8p)`.
pub fn bessel_yik_threshold(p: u32) -> (e: i64)
    ensures
        0 <= e <= 63,
        p == 0 ==> e == 0,
        p > 0 ==> vstd::arithmetic::power2::pow2(e as nat) <= p < vstd::arithmetic::power2::pow2((e + 1) as nat),
{
    let b = crate::limbs::bit_len_u64(p as u64);
    if b == 0 { 0 } else { (b - 1) as i64 }
}

/// `i128` clamped into `i64`.
pub fn clamp_i64(v: i128) -> (r: i64)
    ensures
        i64::MIN <= v <= i64::MAX ==> r == v,
{
    if v > i64::MAX as i128 {
        i64::MAX
    } else if v < i64::MIN as i128 {
        i64::MIN
    } else {
        v as i64
    }
}

/// `Yₙ(x)` for `x > 0` by the logarithmic series
///
/// ```text
/// Yₙ(x) = −(x/2)^(−n)/π · Σ_{k<n} (n−k−1)!/k! (x²/4)^k
///        + (2/π) ln(x/2) · Jₙ(x)
///        − (x/2)^n/π · Σ_{k≥0} (−2γ + H_k + H_{n+k}) (−x²/4)^k/(k!(n+k)!)
/// ```
///
/// with `Jₙ(x) = (x/2)^n Σ (−x²/4)^k/(k!(n+k)!)` summed alongside the
/// tail. Returns the value and the largest operand exponent of the
/// composition, the depth of its cancellation.
pub fn bessel_y_series(n: u32, x: &BigFloat, target: u32) -> (r: (BigFloat, i64))
    requires
        x.wf(),
        prec_ok(target as nat),
    ensures
        r.0.wf(),
{
    let e_x = exponent_of(x);
    let extra: u64 = if e_x <= 0 {
        64
    } else {
        let shift: u64 = if e_x >= 19 { 20 } else { (e_x + 1) as u64 };
        let mag: u64 = crate::limbs::pow2_u64(shift);
        proof {
            super::pow::lemma_pow2_le(shift as nat, 20);
            vstd::arithmetic::power2::lemma2_to64();
        }
        let m = mag * 23 / 16;
        if m > 4096 { 4096 } else { m }
    };
    let boost: u64 = if 64 + extra > 4096 { 4096 } else { 64 + extra };
    let w = wadd(target, boost);
    let nn: i64 = n as i64;
    let xw = rne(x, w);
    let two = int_at(2, w);
    let (half, _) = xw.div(&two, RoundingMode::NearestEven);
    let (x_sq, _) = xw.mul(&xw, RoundingMode::NearestEven);
    let (qxs, _) = x_sq.div(&int_at(4, w), RoundingMode::NearestEven);
    let neg_qxs = qxs.negated();
    let pi = pi_at(w);
    let gamma = euler_gamma_at(w);
    let one = one_at(w);
    let mut half_pow_n = one.dup();
    let mut j: u32 = 0;
    while j < n
        invariant
            prec_ok(w as nat),
            half_pow_n.wf(),
            half.wf(),
            j <= n,
        decreases n - j,
    {
        half_pow_n = half_pow_n.mul(&half, RoundingMode::NearestEven).0;
        j = j + 1;
    }
    let (ln_half_x, _) = half.ln(RoundingMode::NearestEven);
    let (two_over_pi, _) = two.div(&pi, RoundingMode::NearestEven);
    let (lt0, _) = two_over_pi.mul(&ln_half_x, RoundingMode::NearestEven);
    let head_term = if n == 0 {
        zero_at(Sign::Positive, w)
    } else {
        let mut fact = one.dup();
        let mut i: i64 = 1;
        while i < nn
            invariant
                prec_ok(w as nat),
                fact.wf(),
                1 <= i,
                nn <= u32::MAX,
            decreases nn - i,
        {
            fact = fact.mul(&int_at(i, w), RoundingMode::NearestEven).0;
            i = i + 1;
        }
        let mut term = fact;
        let mut hd = term.dup();
        let mut k: i64 = 1;
        while k < nn
            invariant
                prec_ok(w as nat),
                term.wf(),
                hd.wf(),
                qxs.wf(),
                1 <= k,
                nn <= u32::MAX,
            decreases nn - k,
        {
            assert(4 * (k * (nn - k)) <= nn * nn) by (nonlinear_arith)
                requires
                    1 <= k < nn,
            {
                assert((nn - 2 * k) * (nn - 2 * k) >= 0);
            }
            assert(nn * nn <= 0xffff_ffff * 0xffff_ffff) by (nonlinear_arith)
                requires
                    0 <= nn <= 0xffff_ffff;
            term = term.mul(&qxs, RoundingMode::NearestEven).0;
            term = term.div(&int_at(k * (nn - k), w), RoundingMode::NearestEven).0;
            hd = hd.add(&term, RoundingMode::NearestEven).0;
            k = k + 1;
        }
        let (inv_hp, _) = one.div(&half_pow_n, RoundingMode::NearestEven);
        let (a, _) = hd.mul(&inv_hp, RoundingMode::NearestEven);
        let (b, _) = a.div(&pi, RoundingMode::NearestEven);
        b.negated()
    };
    let mut n_fact = one.dup();
    let mut i: i64 = 2;
    while i <= nn
        invariant
            prec_ok(w as nat),
            n_fact.wf(),
            2 <= i,
            nn <= u32::MAX,
        decreases nn + 1 - i,
    {
        n_fact = n_fact.mul(&int_at(i, w), RoundingMode::NearestEven).0;
        i = i + 1;
    }
    let (c0, _) = one.div(&n_fact, RoundingMode::NearestEven);
    let mut c = c0;
    let mut j_sum = c.dup();
    let mut h_k = zero_at(Sign::Positive, w);
    let mut h_nk = zero_at(Sign::Positive, w);
    let mut i: i64 = 1;
    while i <= nn
        invariant
            prec_ok(w as nat),
            h_nk.wf(),
            one.wf(),
            1 <= i,
            nn <= u32::MAX,
        decreases nn + 1 - i,
    {
        let (r, _) = one.div(&int_at(i, w), RoundingMode::NearestEven);
        h_nk = h_nk.add(&r, RoundingMode::NearestEven).0;
        i = i + 1;
    }
    let (two_gamma, _) = gamma.mul(&two, RoundingMode::NearestEven);
    let coef0 = {
        let (s, _) = h_k.add(&h_nk, RoundingMode::NearestEven);
        s.sub(&two_gamma, RoundingMode::NearestEven).0
    };
    let mut tail = c.mul(&coef0, RoundingMode::NearestEven).0;
    let mut max_tail_term = term_magnitude(&tail);
    let max_iter: i64 = 0x40_0000;
    let mut k: i64 = 1;
    while k <= max_iter
        invariant
            prec_ok(w as nat),
            c.wf(),
            j_sum.wf(),
            h_k.wf(),
            h_nk.wf(),
            tail.wf(),
            one.wf(),
            neg_qxs.wf(),
            two_gamma.wf(),
            1 <= k,
            max_iter == 0x40_0000,
            0 <= nn <= u32::MAX,
        decreases max_iter + 1 - k,
    {
        assert(k * (k + nn) <= 0x40_0000 * (0x40_0000 + 0x1_0000_0000)) by (nonlinear_arith)
            requires
                1 <= k <= 0x40_0000,
                0 <= nn <= u32::MAX;
        c = c.mul(&neg_qxs, RoundingMode::NearestEven).0;
        c = c.div(&int_at(k * (k + nn), w), RoundingMode::NearestEven).0;
        j_sum = j_sum.add(&c, RoundingMode::NearestEven).0;
        let (rk, _) = one.div(&int_at(k, w), RoundingMode::NearestEven);
        h_k = h_k.add(&rk, RoundingMode::NearestEven).0;
        let (rnk, _) = one.div(&int_at(k + nn, w), RoundingMode::NearestEven);
        h_nk = h_nk.add(&rnk, RoundingMode::NearestEven).0;
        let coef = {
            let (s, _) = h_k.add(&h_nk, RoundingMode::NearestEven);
            s.sub(&two_gamma, RoundingMode::NearestEven).0
        };
        let t = c.mul(&coef, RoundingMode::NearestEven).0;
        let mt = term_magnitude(&t);
        if mt > max_tail_term {
            max_tail_term = mt;
        }
        tail = tail.add(&t, RoundingMode::NearestEven).0;
        if below_floor(&t, &tail, w) && below_floor(&c, &j_sum, w) {
            break;
        }
        k = k + 1;
    }
    let (jn, _) = half_pow_n.mul(&j_sum, RoundingMode::NearestEven);
    let (log_term, _) = lt0.mul(&jn, RoundingMode::NearestEven);
    let (tp0, _) = half_pow_n.mul(&tail, RoundingMode::NearestEven);
    let (tp1, _) = tp0.div(&pi, RoundingMode::NearestEven);
    let tail_term = tp1.negated();
    let (s1, _) = head_term.add(&log_term, RoundingMode::NearestEven);
    let (y, _) = s1.add(&tail_term, RoundingMode::NearestEven);
    let lifted = clamp_i64(max_tail_term as i128 + term_magnitude(&half_pow_n) as i128 - term_magnitude(&pi) as i128);
    let mh = term_magnitude(&head_term);
    let ml = term_magnitude(&log_term);
    let m1 = if lifted > mh { lifted } else { mh };
    let op_scale = if m1 > ml { m1 } else { ml };
    (y, op_scale)
}

/// `Yₙ(x)` for large `x > 0` by the Hankel asymptotic
/// `√(2/(πx))·Σ_j c_j a_j(n)/x^j` with `a_0 = 1`,
/// `a_j = a_{j−1}·(4n² − (2j−1)²)/(8j)` and `c_j` cycling through
/// `sin ω, cos ω, −sin ω, −cos ω`, `ω = x − nπ/2 − π/4`, summed to its
/// smallest term. Returns the value, the largest operand exponent, and
/// the exponent of the truncation floor.
pub fn bessel_y_asymptotic(n: u32, x: &BigFloat, target: u32) -> (r: (BigFloat, i64, i64))
    requires
        x.wf(),
        prec_ok(target as nat),
        n < 0x4000_0000,
    ensures
        r.0.wf(),
{
    let e_x = exponent_of(x);
    let x_int_bits: u64 = if e_x <= 0 { 0 } else if e_x > 0xffff_ffff { 0xffff_ffff } else { e_x as u64 };
    let w = wadd(target, 64 + x_int_bits);
    let xw = rne(x, w);
    let half_pi = pi_over_2_at(w);
    let two = int_at(2, w);
    let (quarter_pi, _) = half_pi.div(&two, RoundingMode::NearestEven);
    let n_big = int_at(n as i64, w);
    let (n_half_pi, _) = n_big.mul(&half_pi, RoundingMode::NearestEven);
    let (w0, _) = xw.sub(&n_half_pi, RoundingMode::NearestEven);
    let (omega, _) = w0.sub(&quarter_pi, RoundingMode::NearestEven);
    let (cw, _) = omega.cos(RoundingMode::NearestEven);
    let (sw, _) = omega.sin(RoundingMode::NearestEven);
    let pi = pi_at(w);
    let (pi_x, _) = pi.mul(&xw, RoundingMode::NearestEven);
    let (ratio, _) = two.div(&pi_x, RoundingMode::NearestEven);
    let (prefac, _) = ratio.sqrt(RoundingMode::NearestEven);
    let (inv_x, _) = one_at(w).div(&xw, RoundingMode::NearestEven);
    let nn: i64 = n as i64;
    assert(4 * nn * nn <= 4 * 0x4000_0000 * 0x4000_0000) by (nonlinear_arith)
        requires
            0 <= nn < 0x4000_0000;
    let four_n2: i64 = 4 * nn * nn;
    let mut g = one_at(w);
    let (b0, _) = sw.mul(&g, RoundingMode::NearestEven);
    let mut bracket = b0;
    let mut max_term_exp = term_magnitude(&bracket);
    let mut prev_mag = term_magnitude(&g);
    let max_iter: i64 = 0x40_0000;
    let mut j: i64 = 1;
    while j <= max_iter
        invariant
            prec_ok(w as nat),
            g.wf(),
            bracket.wf(),
            sw.wf(),
            cw.wf(),
            inv_x.wf(),
            1 <= j,
            max_iter == 0x40_0000,
            0 <= four_n2 <= 4 * 0x4000_0000 * 0x4000_0000,
        decreases max_iter + 1 - j,
    {
        let odd = 2 * j - 1;
        assert(odd * odd <= 0x80_0000 * 0x80_0000) by (nonlinear_arith)
            requires
                1 <= odd <= 0x80_0000;
        let num = four_n2 - odd * odd;
        let num_b = int_at(num, w);
        let den = int_at(8 * j, w);
        let (t1, _) = g.mul(&num_b, RoundingMode::NearestEven);
        let (t2, _) = t1.div(&den, RoundingMode::NearestEven);
        let (cand, _) = t2.mul(&inv_x, RoundingMode::NearestEven);
        let mag = term_magnitude(&cand);
        if mag > prev_mag {
            break;
        }
        prev_mag = mag;
        g = cand;
        let q = j % 4;
        let contribution = if q == 0 {
            sw.mul(&g, RoundingMode::NearestEven).0
        } else if q == 1 {
            cw.mul(&g, RoundingMode::NearestEven).0
        } else if q == 2 {
            sw.mul(&g, RoundingMode::NearestEven).0.negated()
        } else {
            cw.mul(&g, RoundingMode::NearestEven).0.negated()
        };
        let mc = term_magnitude(&contribution);
        if mc > max_term_exp {
            max_term_exp = mc;
        }
        let (b, _) = bracket.add(&contribution, RoundingMode::NearestEven);
        bracket = b;
        j = j + 1;
    }
    let (result, _) = prefac.mul(&bracket, RoundingMode::NearestEven);
    let op_scale = clamp_i64(max_term_exp as i128 + term_magnitude(&prefac) as i128);
    let floor_exp = clamp_i64(prev_mag as i128 + term_magnitude(&prefac) as i128);
    (result, op_scale, floor_exp)
}

/// `Y₀(x)` (`which == 0`) or `Y₁(x)` for `x > 0`, from the regime the
/// caller picked, raised in precision by the cancellation it shows.
pub fn bessel_y01(which: u32, x: &BigFloat, target: u32, use_asymptotic: bool) -> (y: BigFloat)
    requires
        x.wf(),
        prec_ok(target as nat),
        which <= 1,
    ensures
        y.wf(),
{
    if use_asymptotic {
        let eval = |w: u32| -> (v: (BigFloat, i64))
            requires
                prec_ok(w as nat),
            ensures
                v.0.wf(),
        {
            let (v, op_scale, _) = bessel_y_asymptotic(which, x, w);
            (v, op_scale)
        };
        cancellation_boosted(target, eval)
    } else {
        let eval = |w: u32| -> (v: (BigFloat, i64))
            requires
                prec_ok(w as nat),
            ensures
                v.0.wf(),
        {
            bessel_y_series(which, x, w)
        };
        cancellation_boosted(target, eval)
    }
}

/// One step of the upward recurrence `Y_{k+1} = (2k/x)·Y_k − Y_{k−1}`:
/// the integer `2k` taken at `w` bits and multiplied by `ix ≈ 1/x`,
/// then by `yc`, less `yp`; each operation rounded to nearest.
pub open spec fn recurrence_step(ix: BigFloat, k: int, w: u32, yp: BigFloat, yc: BigFloat, yn: BigFloat) -> bool {
    exists|tk: BigFloat, c1: BigFloat, c2: BigFloat|
        #![trigger call_ensures(int_at, ((2 * k) as i64, w), tk), multiplied(tk, ix, c1), multiplied(c1, yc, c2)]
        call_ensures(int_at, ((2 * k) as i64, w), tk) && multiplied(tk, ix, c1) && multiplied(c1, yc, c2)
            && subtracted(c2, yp, yn)
}

/// How [`bessel_y_eval_normal_at_w`] forms `Y_m(x)` for `m ≥ 2`: at
/// `w = target + 96 + 4m` bits, `ix` is one over `x` rounded to
/// nearest, `ys[0]` and `ys[1]` are what [`bessel_y01`] gives for `Y₀`
/// and `Y₁` at `w`, rounded to nearest, and each later `ys[k+1]`
/// follows by [`recurrence_step`]; the value is `ys[m]`.
pub open spec fn bessel_recurrence_form(m: u32, x: BigFloat, target: u32, ua: bool, y: BigFloat) -> bool {
    exists|w: u32, xw: BigFloat, one: BigFloat, ix: BigFloat, y0: BigFloat, y1: BigFloat, ys: Seq<BigFloat>|
        #![trigger call_ensures(wadd, (target, (96 + 4 * m) as u64), w), rounded_near(x, w as nat, xw), call_ensures(one_at, (w,), one), divided(one, xw, ix), call_ensures(bessel_y01, (0u32, &x, w, ua), y0), call_ensures(bessel_y01, (1u32, &x, w, ua), y1), ys.len()]
        call_ensures(wadd, (target, (96 + 4 * m) as u64), w) && rounded_near(x, w as nat, xw)
            && call_ensures(one_at, (w,), one) && divided(one, xw, ix)
            && call_ensures(bessel_y01, (0u32, &x, w, ua), y0) && rounded_near(y0, w as nat, ys[0])
            && call_ensures(bessel_y01, (1u32, &x, w, ua), y1) && rounded_near(y1, w as nat, ys[1])
            && ys.len() == m + 1
            && (forall|k: int| 1 <= k < m ==> recurrence_step(ix, k, w, ys[k - 1], #[trigger] ys[k], ys[k + 1]))
            && y == ys[m as int]
}

/// `Y_m(x)` for `m ≥ 0`, `x > 0`: the base pair, then the upward
/// recurrence at `target + 96 + 4m` bits.
pub fn bessel_y_eval_normal_at_w(m: u32, x: &BigFloat, target: u32, use_asymptotic_base: bool) -> (y: BigFloat)
    requires
        x.wf(),
        prec_ok(target as nat),
    ensures
        y.wf(),
        m <= 1 ==> call_ensures(bessel_y01, (m, x, target, use_asymptotic_base), y),
        m >= 2 ==> bessel_recurrence_form(m, *x, target, use_asymptotic_base, y),
{
    if m <= 1 {
        let y = bessel_y01(m, x, target, use_asymptotic_base);
        proof {
            assert(call_ensures(bessel_y01, (m, x, target, use_asymptotic_base), y));
        }
        return y;
    }
    let w = wadd(target, 96 + 4 * (m as u64));
    let xw = rne(x, w);
    let one = one_at(w);
    let (inv_x, _) = one.div(&xw, RoundingMode::NearestEven);
    let y0 = bessel_y01(0, x, w, use_asymptotic_base);
    let mut y_prev = rne(&y0, w);
    let y1 = bessel_y01(1, x, w, use_asymptotic_base);
    let mut y_cur = rne(&y1, w);
    let ghost mut ys: Seq<BigFloat> = seq![y_prev, y_cur];
    proof {
        assert(call_ensures(wadd, (target, (96 + 4 * m) as u64), w));
        assert(rounded_near(*x, w as nat, xw));
        assert(call_ensures(one_at, (w,), one));
        assert(divided(one, xw, inv_x));
        assert(call_ensures(bessel_y01, (0u32, x, w, use_asymptotic_base), y0));
        assert(call_ensures(bessel_y01, (1u32, x, w, use_asymptotic_base), y1));
        assert(rounded_near(y0, w as nat, ys[0]));
        assert(rounded_near(y1, w as nat, ys[1]));
    }
    let mm: i64 = m as i64;
    let mut k: i64 = 1;
    while k < mm
        invariant
            prec_ok(w as nat),
            inv_x.wf(),
            y_prev.wf(),
            y_cur.wf(),
            1 <= k <= mm,
            mm == m,
            mm <= u32::MAX,
            ys.len() == k + 1,
            ys[k - 1] == y_prev,
            ys[k as int] == y_cur,
            rounded_near(y0, w as nat, ys[0]),
            rounded_near(y1, w as nat, ys[1]),
            forall|j: int| 1 <= j < k ==> recurrence_step(inv_x, j, w, ys[j - 1], #[trigger] ys[j], ys[j + 1]),
        decreases mm - k,
    {
        let two_k = int_at(2 * k, w);
        let (c1, _) = two_k.mul(&inv_x, RoundingMode::NearestEven);
        let (c2, _) = c1.mul(&y_cur, RoundingMode::NearestEven);
        let (y_next, _) = c2.sub(&y_prev, RoundingMode::NearestEven);
        proof {
            assert(call_ensures(int_at, ((2 * k) as i64, w), two_k));
            assert(multiplied(two_k, inv_x, c1));
            assert(multiplied(c1, y_cur, c2));
            assert(subtracted(c2, y_prev, y_next));
            assert(recurrence_step(inv_x, k as int, w, y_prev, y_cur, y_next));
            let old_ys = ys;
            ys = ys.push(y_next);
            assert forall|j: int| 1 <= j < k + 1 implies recurrence_step(inv_x, j, w, ys[j - 1], #[trigger] ys[j], ys[j + 1]) by {
                if j < k {
                    assert(ys[j - 1] == old_ys[j - 1] && ys[j] == old_ys[j] && ys[j + 1] == old_ys[j + 1]);
                }
            }
        }
        y_prev = y_cur;
        y_cur = y_next;
        k = k + 1;
    }
    y_cur
}

/// Whether the asymptotic expansion's truncation floor lies below the
/// target bits of its value at `x`.
fn asymptotic_reliable(which: u32, x: &BigFloat, target: u32) -> (r: bool)
    requires
        x.wf(),
        prec_ok(target as nat),
        which <= 1,
{
    let (v, _, floor) = bessel_y_asymptotic(which, x, target);
    v.is_normal() && (floor as i128) < (exponent_of(&v) as i128) - (target as i128) - (BESSEL_Y_ERROR_GUARD as i128)
}

/// What `Yₙ` gives at a positive normal argument and an order within
/// the budget: the value [`bessel_y_at_w`] computes at a working
/// precision of the Ziv schedule, rounded to `p` bits under `mode`.
/// The asymptotic expansion is taken from `x ≥ 2^(bits(p)−1)` on; for
/// `|n| ≤ 1` there the series may stand in for it (`maclaurin`).
pub open spec fn bessel_y_value(n: int, x: BigFloat, r: BigFloat, p: nat, mode: RoundingMode) -> bool {
    x.class is Normal && !x.spec_neg() && -MAX_BESSEL_ORDER <= n <= MAX_BESSEL_ORDER
        ==> exists|w: u32, y: BigFloat, st: Status, maclaurin: bool, ua: bool|
            #![trigger call_ensures(bessel_y_at_w, (n as i32, &x, maclaurin, ua, w), y), rounds_to(y, p, mode, r, st)]
            call_ensures(bessel_y_at_w, (n as i32, &x, maclaurin, ua, w), y)
                && ua == (x.class->Normal_exponent >= crate::round::bits(p) - 1)
                && (maclaurin ==> -1 <= n <= 1 && ua)
                && ziv_on_schedule(w as int, p as int) && rounds_to(y, p, mode, r, st)
}

/// The order's magnitude `|n|`.
pub open spec fn bessel_order(n: i32) -> u32 {
    (if n < 0 { -(n as int) } else { n as int }) as u32
}

/// What [`bessel_y_at_w`] takes for `Y_{|n|}(x)` before the sign of a
/// negative odd order: the series of [`bessel_y_series`] at some
/// working precision where `maclaurin`, otherwise what
/// [`bessel_y_eval_normal_at_w`] gives at `w`.
pub open spec fn bessel_unsigned_value(n: i32, x: BigFloat, maclaurin: bool, ua: bool, w: u32, v: BigFloat) -> bool {
    if maclaurin {
        exists|ww: u32, t: (BigFloat, i64)| #[trigger] call_ensures(bessel_y_series, (bessel_order(n), &x, ww), t) && t.0 == v
    } else {
        call_ensures(bessel_y_eval_normal_at_w, (bessel_order(n), &x, w, ua), v)
    }
}

/// `Yₙ(x)` at working precision `w`: the series with a cancellation
/// boost where `maclaurin`, otherwise the forward recurrence from `Y₀`,
/// `Y₁` (asymptotic where `use_asymptotic`); negated for an odd
/// negative order.
pub fn bessel_y_at_w(n: i32, x: &BigFloat, maclaurin: bool, use_asymptotic: bool, w: u32) -> (y: BigFloat)
    requires
        x.wf(),
        prec_ok(w as nat),
    ensures
        y.wf(),
        exists|v: BigFloat| #[trigger] bessel_unsigned_value(n, *x, maclaurin, use_asymptotic, w, v)
            && (if bessel_order(n) % 2 == 1 && n < 0 { negation_of(y, v) } else { y == v }),
{
    let m: u32 = if n < 0 { if n == i32::MIN { 0x8000_0000 } else { (-n) as u32 } } else { n as u32 };
    proof {
        assert(m == bessel_order(n));
    }
    let value = if maclaurin {
        let inner = |ww: u32| -> (v: (BigFloat, i64))
            requires
                prec_ok(ww as nat),
            ensures
                v.0.wf(),
                call_ensures(bessel_y_series, (m, x, ww), v),
        {
            let v = bessel_y_series(m, x, ww);
            proof {
                assert(call_ensures(bessel_y_series, (m, x, ww), v));
            }
            v
        };
        cancellation_boosted(w, inner)
    } else {
        let v = bessel_y_eval_normal_at_w(m, x, w, use_asymptotic);
        proof {
            assert(call_ensures(bessel_y_eval_normal_at_w, (m, x, w, use_asymptotic), v));
        }
        v
    };
    proof {
        assert(bessel_unsigned_value(n, *x, maclaurin, use_asymptotic, w, value));
    }
    if m % 2 == 1 && n < 0 {
        let y = value.negated();
        proof {
            assert(negation_of(y, value));
        }
        y
    } else {
        value
    }
}

fn bessel_y_kernel(n: i32, x: &BigFloat, target: u32, mode: RoundingMode) -> (r: (BigFloat, Status))
    requires
        x.wf(),
        prec_ok(target as nat),
    ensures
        r.0.wf(),
        r.0.precision == target,
        bessel_y_special(n as int, *x, r.0, r.1, target as nat),
        bessel_y_value(n as int, *x, r.0, target as nat, mode),
{
    let m: u32 = if n < 0 { if n == i32::MIN { 0x8000_0000 } else { (-n) as u32 } } else { n as u32 };
    match &x.class {
        Class::Nan { .. } => return nan_in(x, target),
        Class::Zero { .. } => {
            let s = if n < 0 && m % 2 == 1 { Sign::Positive } else { Sign::Negative };
            return (inf_at(s, target), Status { bits: FLAG_DIV_BY_ZERO });
        },
        Class::Infinity { sign: Sign::Positive } => return (zero_at(Sign::Positive, target), Status { bits: 0 }),
        Class::Infinity { sign: Sign::Negative } => return (qnan_at(target), Status { bits: FLAG_INVALID }),
        Class::Normal { sign: Sign::Negative, .. } => return (qnan_at(target), Status { bits: FLAG_INVALID }),
        Class::Normal { .. } => {},
    }
    if m > MAX_BESSEL_ORDER {
        return (qnan_at(target), Status { bits: FLAG_INVALID });
    }
    let threshold = bessel_yik_threshold(target);
    let use_asymptotic = exponent_of(x) >= threshold;
    let maclaurin_fallback = m <= 1 && use_asymptotic && !asymptotic_reliable(m, x, target);
    proof {
        crate::round::lemma_bits_unique(target as nat, (threshold + 1) as nat);
        assert(use_asymptotic == (x.class->Normal_exponent >= crate::round::bits(target as nat) - 1));
    }
    let eval = |w: u32| -> (y: BigFloat)
        requires
            prec_ok(w as nat),
        ensures
            y.wf(),
            call_ensures(bessel_y_at_w, (n, x, maclaurin_fallback, use_asymptotic, w), y),
    {
        bessel_y_at_w(n, x, maclaurin_fallback, use_asymptotic, w)
    };
    let (result, status) = ziv_round(eval, target, mode, BESSEL_Y_ERROR_GUARD);
    proof {
        crate::types::lemma_or_inexact(status.bits);
        let t = choose|t: ZivTrace| t.0 == result && t.1 == status && #[trigger] is_trace_of(eval, target as nat, mode, t)
            && ziv_on_schedule(t.2 as int, target as int);
        assert(call_ensures(bessel_y_at_w, (n, x, maclaurin_fallback, use_asymptotic, t.2), t.3));
        assert(rounds_to(t.3, target as nat, mode, result, status));
        assert((n as int) as i32 == n);
    }
    let st = force_inexact(&result, status);
    (result, st)
}

impl BigFloat {
    /// `Y₀(self)` rounded under `mode` to the precision of
    /// `self`.
    pub fn y0(&self, mode: RoundingMode) -> (r: (BigFloat, Status))
        requires
            self.wf(),
        ensures
            r.0.wf(),
            r.0.precision == self.precision,
            bessel_y_special(0, *self, r.0, r.1, self.precision as nat),
            bessel_y_value(0, *self, r.0, self.precision as nat, mode),
    {
        bessel_y_kernel(0, self, self.precision, mode)
    }

    /// `Y₀(self)` rounded under `mode` to `target_precision`
    /// bits.
    pub fn y0_round(&self, target_precision: u32, mode: RoundingMode) -> (r: Result<(BigFloat, Status), BuildError>)
        requires
            self.wf(),
        ensures
            r is Ok <==> prec_ok(target_precision as nat),
            target_precision == 0 ==> r == Err::<(BigFloat, Status), BuildError>(BuildError::PrecisionZero),
            r matches Ok(v) ==> v.0.wf() && v.0.precision == target_precision
                && bessel_y_special(0, *self, v.0, v.1, target_precision as nat)
                && bessel_y_value(0, *self, v.0, target_precision as nat, mode),
    {
        BigFloat::check_precision(target_precision)?;
        Ok(bessel_y_kernel(0, self, target_precision, mode))
    }

    /// `Y₁(self)` rounded under `mode` to the precision of
    /// `self`.
    pub fn y1(&self, mode: RoundingMode) -> (r: (BigFloat, Status))
        requires
            self.wf(),
        ensures
            r.0.wf(),
            r.0.precision == self.precision,
            bessel_y_special(1, *self, r.0, r.1, self.precision as nat),
            bessel_y_value(1, *self, r.0, self.precision as nat, mode),
    {
        bessel_y_kernel(1, self, self.precision, mode)
    }

    /// `Y₁(self)` rounded under `mode` to `target_precision`
    /// bits.
    pub fn y1_round(&self, target_precision: u32, mode: RoundingMode) -> (r: Result<(BigFloat, Status), BuildError>)
        requires
            self.wf(),
        ensures
            r is Ok <==> prec_ok(target_precision as nat),
            target_precision == 0 ==> r == Err::<(BigFloat, Status), BuildError>(BuildError::PrecisionZero),
            r matches Ok(v) ==> v.0.wf() && v.0.precision == target_precision
                && bessel_y_special(1, *self, v.0, v.1, target_precision as nat)
                && bessel_y_value(1, *self, v.0, target_precision as nat, mode),
    {
        BigFloat::check_precision(target_precision)?;
        Ok(bessel_y_kernel(1, self, target_precision, mode))
    }

    /// `Yₙ(self)` rounded under `mode` to the precision of
    /// `self`.
    pub fn yn(&self, n: i32, mode: RoundingMode) -> (r: (BigFloat, Status))
        requires
            self.wf(),
        ensures
            r.0.wf(),
            r.0.precision == self.precision,
            bessel_y_special(n as int, *self, r.0, r.1, self.precision as nat),
            bessel_y_value(n as int, *self, r.0, self.precision as nat, mode),
    {
        bessel_y_kernel(n, self, self.precision, mode)
    }

    /// `Yₙ(self)` rounded under `mode` to `target_precision`
    /// bits.
    pub fn yn_round(&self, n: i32, target_precision: u32, mode: RoundingMode) -> (r: Result<(BigFloat, Status), BuildError>)
        requires
            self.wf(),
        ensures
            r is Ok <==> prec_ok(target_precision as nat),
            target_precision == 0 ==> r == Err::<(BigFloat, Status), BuildError>(BuildError::PrecisionZero),
            r matches Ok(v) ==> v.0.wf() && v.0.precision == target_precision
                && bessel_y_special(n as int, *self, v.0, v.1, target_precision as nat)
                && bessel_y_value(n as int, *self, v.0, target_precision as nat, mode),
    {
        BigFloat::check_precision(target_precision)?;
        Ok(bessel_y_kernel(n, self, target_precision, mode))
    }
}

impl<const PREC: u32> FixedFloat<PREC> {
    /// `Y₀(self)` at the fixed precision.
    pub fn y0(&self, mode: RoundingMode) -> (r: (FixedFloat<PREC>, Status))
        requires
            self.wf(),
        ensures
            r.0.wf(),
            bessel_y_special(0, self.value(), r.0.value(), r.1, PREC as nat),
            bessel_y_value(0, self.value(), r.0.value(), PREC as nat, mode),
            call_ensures(BigFloat::y0, (&self.value(), mode), (r.0.value(), r.1)),
    {
        let (big, st) = self.big_ref().y0(mode);
        (FixedFloat::wrap(big), st)
    }

    /// `Y₁(self)` at the fixed precision.
    pub fn y1(&self, mode: RoundingMode) -> (r: (FixedFloat<PREC>, Status))
        requires
            self.wf(),
        ensures
            r.0.wf(),
            bessel_y_special(1, self.value(), r.0.value(), r.1, PREC as nat),
            bessel_y_value(1, self.value(), r.0.value(), PREC as nat, mode),
            call_ensures(BigFloat::y1, (&self.value(), mode), (r.0.value(), r.1)),
    {
        let (big, st) = self.big_ref().y1(mode);
        (FixedFloat::wrap(big), st)
    }

    /// `Yₙ(self)` at the fixed precision.
    pub fn yn(&self, n: i32, mode: RoundingMode) -> (r: (FixedFloat<PREC>, Status))
        requires
            self.wf(),
        ensures
            r.0.wf(),
            bessel_y_special(n as int, self.value(), r.0.value(), r.1, PREC as nat),
            bessel_y_value(n as int, self.value(), r.0.value(), PREC as nat, mode),
            call_ensures(BigFloat::yn, (&self.value(), n, mode), (r.0.value(), r.1)),
    {
        let (big, st) = self.big_ref().yn(n, mode);
        (FixedFloat::wrap(big), st)
    }
}

} // verus!

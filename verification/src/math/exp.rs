//! `exp(x)`: the natural exponential function.
//!
//! Range reduction `x = k·ln 2 + r` with `k = round(x / ln 2)` and
//! `|r| ≤ ln(2)/2`, the Taylor series of `exp(r)`, and the exact scaling
//! by `2^k`, rounded through the Ziv driver.

use vstd::prelude::*;
use crate::limbs::{nat_of, low_word, shl, shr, div_small, nat_add, from_u64, trim, bit_len, limb_cap};
use crate::types::{BigFloat, BuildError, Class, Sign, RoundingMode, Status, EXP_MAX, EXP_MIN, FLAG_INEXACT, FLAG_INVALID, prec_ok, MAX_PRECISION};
use crate::round::{round_sig, round_result, rounds_outward, rounds_up_tiny, is_normal_with};
use crate::float::{finite_value_is, nan_result, sig_limbs};
use crate::fixed::FixedFloat;
use super::{wp, wadd, int_at, one_at, rnd, rne, zero_at, inf_at, exponent_of, nan_in, ln_2_at, round_with_infinitesimal};
use super::ziv::{ziv_round, DEFAULT_ERROR_GUARD, ZivTrace, is_trace_of, ziv_on_schedule};
use super::{rounds_to, added, multiplied, divided, subtracted, rounded_near, sum_chain, lemma_sum_chain_push};
use crate::float::same;

verus! {

/// Guard bits charged to one evaluation of the exp kernel.
pub const EXP_ERROR_GUARD: u32 = DEFAULT_ERROR_GUARD;

/// Whether the status holds INEXACT.
pub open spec fn has_inexact(st: Status) -> bool {
    st.bits & FLAG_INEXACT != 0
}

/// The positive overflow result under `mode`: `+∞` where the mode
/// rounds outward, otherwise the largest finite value; OVERFLOW and
/// INEXACT either way.
pub open spec fn overflow_result(r: BigFloat, st: Status, p: nat, mode: RoundingMode) -> bool {
    &&& st.bits == crate::types::FLAG_OVERFLOW | FLAG_INEXACT
    &&& if rounds_outward(false, mode) {
        r.class == (Class::Infinity { sign: Sign::Positive })
    } else {
        is_normal_with(r, false, (vstd::arithmetic::power2::pow2(p) - 1) as nat, EXP_MAX as int)
    }
}

/// The positive result of an underflow below the exponent range under
/// `mode`: `+0`, or the smallest positive value where the mode rounds
/// up; UNDERFLOW and INEXACT either way.
pub open spec fn deep_underflow_result(r: BigFloat, st: Status, p: nat, mode: RoundingMode) -> bool {
    &&& st.bits == crate::types::FLAG_UNDERFLOW | FLAG_INEXACT
    &&& if rounds_up_tiny(false, mode) {
        is_normal_with(r, false, vstd::arithmetic::power2::pow2((p - 1) as nat), EXP_MIN as int)
    } else {
        r.class == (Class::Zero { sign: Sign::Positive })
    }
}

/// What `exp` gives past `|x| ≥ 2^63`, where `|x|/ln 2 > 2^63.5`
/// clears both exponent rims: the overflow result for `x > 0`, the
/// deep-underflow result for `x < 0`.
pub open spec fn exp_rim(x: BigFloat, r: BigFloat, st: Status, p: nat, mode: RoundingMode) -> bool {
    x.class is Normal && x.class->Normal_exponent >= 63 ==> if x.spec_neg() {
        deep_underflow_result(r, st, p, mode)
    } else {
        overflow_result(r, st, p, mode)
    }
}

/// The smallest positive value at precision `p`.
pub open spec fn is_min_pos(r: BigFloat, p: nat) -> bool {
    is_normal_with(r, false, vstd::arithmetic::power2::pow2((p - 1) as nat), EXP_MIN as int)
}

/// The result for a truth strictly between half the smallest positive
/// value and that value: the smallest positive value under the nearest
/// modes and upward, `+0` toward zero and downward; UNDERFLOW and
/// INEXACT either way.
pub open spec fn sliver_result(r: BigFloat, st: Status, p: nat, mode: RoundingMode) -> bool {
    &&& st.bits == crate::types::FLAG_UNDERFLOW | FLAG_INEXACT
    &&& if mode == RoundingMode::TowardZero || mode == RoundingMode::TowardNegative {
        r.class == (Class::Zero { sign: Sign::Positive })
    } else {
        is_min_pos(r, p)
    }
}

/// The result for a truth exactly half the smallest positive value:
/// the smallest positive value rounding away or upward, `+0` otherwise
/// (ties to even take the zero); UNDERFLOW and INEXACT either way.
pub open spec fn tie_result(r: BigFloat, st: Status, p: nat, mode: RoundingMode) -> bool {
    &&& st.bits == crate::types::FLAG_UNDERFLOW | FLAG_INEXACT
    &&& if mode == RoundingMode::NearestAway || mode == RoundingMode::TowardPositive {
        is_min_pos(r, p)
    } else {
        r.class == (Class::Zero { sign: Sign::Positive })
    }
}

/// The smallest positive value at precision `p`.
pub fn min_pos_at(p: u32) -> (r: BigFloat)
    requires
        prec_ok(p as nat),
    ensures
        r.wf(),
        r.precision == p,
        is_min_pos(r, p as nat),
{
    let one = one_at(p);
    one.scale_by_pow2(i64::MIN).0
}

/// The sliver result (see [`sliver_result`]).
pub fn exp_underflow_sliver(p: u32, mode: RoundingMode) -> (r: (BigFloat, Status))
    requires
        prec_ok(p as nat),
    ensures
        r.0.wf(),
        r.0.precision == p,
        sliver_result(r.0, r.1, p as nat, mode),
{
    let st = Status { bits: crate::types::FLAG_UNDERFLOW | FLAG_INEXACT };
    match mode {
        RoundingMode::TowardZero | RoundingMode::TowardNegative => (zero_at(Sign::Positive, p), st),
        _ => (min_pos_at(p), st),
    }
}

/// The tie result (see [`tie_result`]).
pub fn exp_underflow_tie(p: u32, mode: RoundingMode) -> (r: (BigFloat, Status))
    requires
        prec_ok(p as nat),
    ensures
        r.0.wf(),
        r.0.precision == p,
        tie_result(r.0, r.1, p as nat, mode),
{
    let st = Status { bits: crate::types::FLAG_UNDERFLOW | FLAG_INEXACT };
    match mode {
        RoundingMode::NearestAway | RoundingMode::TowardPositive => (min_pos_at(p), st),
        _ => (zero_at(Sign::Positive, p), st),
    }
}

/// `⌊|x|⌋` of a normal value, read off its significand.
pub open spec fn abs_floor(x: BigFloat) -> nat {
    if x.lsb_exp() >= 0 {
        x.sig() * vstd::arithmetic::power2::pow2(x.lsb_exp() as nat)
    } else {
        x.sig() / vstd::arithmetic::power2::pow2((-x.lsb_exp()) as nat)
    }
}

/// Whether a normal value is an integer.
pub open spec fn abs_is_int(x: BigFloat) -> bool {
    x.lsb_exp() >= 0 || x.sig() % vstd::arithmetic::power2::pow2((-x.lsb_exp()) as nat) == 0
}

/// `⌊|x|⌋` and whether `x` is an integer, for `|x| < 2^64`.
pub fn floor_abs_u64(x: &BigFloat) -> (r: (u64, bool))
    requires
        x.wf(),
        x.class is Normal,
        x.class->Normal_exponent <= 63,
    ensures
        r.0 as nat == abs_floor(*x),
        r.1 == abs_is_int(*x),
        x.class->Normal_exponent >= 0 ==> (r.0 as nat) < vstd::arithmetic::power2::pow2((x.class->Normal_exponent + 1) as nat),
{
    let (e, m) = match &x.class {
        Class::Normal { exponent, mantissa, .. } => (*exponent, mantissa),
        _ => {
            proof {
                assert(false);
            }
            return (0, true);
        },
    };
    let p = x.precision;
    let ghost sv: nat = x.sig();
    proof {
        crate::float::lemma_sig_bounds(*x);
        vstd::arithmetic::power2::lemma2_to64();
        vstd::arithmetic::power2::lemma2_to64_rest();
    }
    if e < 0 {
        proof {
            let ss = (-x.lsb_exp()) as nat;
            super::pow::lemma_pow2_le(p as nat, ss);
            vstd::arithmetic::power2::lemma_pow2_pos((p - 1) as nat);
            vstd::arithmetic::div_mod::lemma_basic_div(sv as int, vstd::arithmetic::power2::pow2(ss) as int);
            vstd::arithmetic::div_mod::lemma_small_mod(sv, vstd::arithmetic::power2::pow2(ss));
        }
        return (0, false);
    }
    let sig = sig_limbs(m, p);
    let scale: i128 = e as i128 - p as i128 + 1;
    if scale >= 0 {
        let t = shl(&sig, scale as u64);
        proof {
            vstd::arithmetic::power2::lemma_pow2_adds(p as nat, scale as nat);
            vstd::arithmetic::power2::lemma_pow2_pos(scale as nat);
            assert(sv * vstd::arithmetic::power2::pow2(scale as nat) < vstd::arithmetic::power2::pow2(p as nat) * vstd::arithmetic::power2::pow2(scale as nat)) by (nonlinear_arith)
                requires
                    sv < vstd::arithmetic::power2::pow2(p as nat),
                    vstd::arithmetic::power2::pow2(scale as nat) > 0;
            assert(p as nat + scale as nat == (e + 1) as nat);
            if e + 1 < 64 {
                vstd::arithmetic::power2::lemma_pow2_strictly_increases((e + 1) as nat, 64);
            }
        }
        (low_word(&t), true)
    } else {
        let s = (-scale) as u64;
        let (q, below) = shr(&sig, s);
        proof {
            let ss = s as nat;
            vstd::arithmetic::power2::lemma_pow2_pos(ss);
            if e >= 0 {
                vstd::arithmetic::power2::lemma_pow2_adds((e + 1) as nat, ss);
                assert((e + 1) as nat + ss == p as nat);
                vstd::arithmetic::div_mod::lemma_div_by_multiple_is_strongly_ordered(sv as int,
                    (vstd::arithmetic::power2::pow2((e + 1) as nat) * vstd::arithmetic::power2::pow2(ss)) as int,
                    vstd::arithmetic::power2::pow2((e + 1) as nat) as int, vstd::arithmetic::power2::pow2(ss) as int);
                vstd::arithmetic::div_mod::lemma_div_by_multiple(vstd::arithmetic::power2::pow2((e + 1) as nat) as int,
                    vstd::arithmetic::power2::pow2(ss) as int);
                if e + 1 < 64 {
                    vstd::arithmetic::power2::lemma_pow2_strictly_increases((e + 1) as nat, 64);
                }
            }
            assert(nat_of(q@) < 0x1_0000_0000_0000_0000);
        }
        (low_word(&q), !below)
    }
}

/// The result of an overflow past the exponent range: `+∞`, or the
/// largest finite value under the modes that round toward zero.
pub fn exp_certain_overflow(p: u32, mode: RoundingMode) -> (r: (BigFloat, Status))
    requires
        prec_ok(p as nat),
    ensures
        r.0.wf(),
        r.0.precision == p,
        r.1.bits == crate::types::FLAG_OVERFLOW | FLAG_INEXACT,
        rounds_outward(false, mode) ==> r.0.class == (Class::Infinity { sign: Sign::Positive }),
        !rounds_outward(false, mode) ==> r.0.class is Normal && !r.0.spec_neg(),
        overflow_result(r.0, r.1, p as nat, mode),
{
    let one = from_u64(1);
    proof {
        vstd::arithmetic::power2::lemma2_to64();
        crate::round::lemma_bits_unique(1, 1);
        vstd::arithmetic::power2::lemma_pow2_pos(p as nat);
    }
    round_sig(false, &one, false, EXP_MAX as i128 + 1, p, mode)
}

/// The result of an underflow below the exponent range: `+0`, or the
/// smallest positive value when rounding upward.
pub fn exp_deep_underflow(p: u32, mode: RoundingMode) -> (r: (BigFloat, Status))
    requires
        prec_ok(p as nat),
    ensures
        r.0.wf(),
        r.0.precision == p,
        r.1.bits == crate::types::FLAG_UNDERFLOW | FLAG_INEXACT,
        !rounds_up_tiny(false, mode) ==> r.0.class == (Class::Zero { sign: Sign::Positive }),
        rounds_up_tiny(false, mode) ==> r.0.class is Normal && !r.0.spec_neg(),
        deep_underflow_result(r.0, r.1, p as nat, mode),
{
    let one = from_u64(1);
    proof {
        vstd::arithmetic::power2::lemma2_to64();
        crate::round::lemma_bits_unique(1, 1);
    }
    round_sig(false, &one, false, EXP_MIN as i128 - 1, p, mode)
}

/// `sig·2^lsb` rounded to the nearest integer, ties to even.
pub open spec fn nearest_even_int(sig: nat, lsb: int) -> nat {
    if lsb >= 0 {
        sig * vstd::arithmetic::power2::pow2(lsb as nat)
    } else {
        let s = (-lsb) as nat;
        let q = sig / vstd::arithmetic::power2::pow2(s);
        let rem = sig % vstd::arithmetic::power2::pow2(s);
        let half = vstd::arithmetic::power2::pow2((s - 1) as nat);
        if rem > half || (rem == half && q % 2 == 1) { q + 1 } else { q }
    }
}

/// `±m` clamped to the `i64` range.
pub open spec fn saturate_i64(neg: bool, m: nat) -> int {
    if neg {
        if m >= 0x8000_0000_0000_0000 { i64::MIN as int } else { -(m as int) }
    } else {
        if m > 0x7fff_ffff_ffff_ffff { i64::MAX as int } else { m as int }
    }
}

/// The integer nearest `v` (ties to even), saturating outside the
/// `i64` range; 0 for zero and non-finite values.
pub fn round_bigfloat_to_i64(v: &BigFloat) -> (r: i64)
    requires
        v.wf(),
    ensures
        !(v.class is Normal) ==> r == 0,
        v.class is Normal && v.class->Normal_exponent < -1 ==> r == 0,
        v.class is Normal && v.class->Normal_exponent > 62 ==> r == (if v.spec_neg() { i64::MIN } else { i64::MAX }),
        v.class is Normal && -1 <= v.class->Normal_exponent <= 62
            ==> r == saturate_i64(v.spec_neg(), nearest_even_int(v.sig(), v.lsb_exp())),
{
    let (neg, e, m) = match &v.class {
        Class::Normal { sign, exponent, mantissa } => (matches!(sign, Sign::Negative), *exponent, mantissa),
        _ => return 0,
    };
    if e < -1 {
        return 0;
    }
    if e > 62 {
        return if neg { i64::MIN } else { i64::MAX };
    }
    let p = v.precision;
    let sig = sig_limbs(m, p);
    let scale: i64 = e - p as i64 + 1;
    let ghost sv: nat = v.sig();
    proof {
        crate::float::lemma_sig_bounds(*v);
        vstd::arithmetic::power2::lemma2_to64();
    }
    let mut mag: u64;
    if scale >= 0 {
        let t = shl(&sig, scale as u64);
        proof {
            vstd::arithmetic::power2::lemma_pow2_adds(p as nat, scale as nat);
            vstd::arithmetic::power2::lemma_pow2_pos(scale as nat);
            assert(sv * vstd::arithmetic::power2::pow2(scale as nat) < vstd::arithmetic::power2::pow2(p as nat) * vstd::arithmetic::power2::pow2(scale as nat)) by (nonlinear_arith)
                requires
                    sv < vstd::arithmetic::power2::pow2(p as nat),
                    vstd::arithmetic::power2::pow2(scale as nat) > 0;
            assert(p as nat + scale as nat == (e + 1) as nat);
            if e + 1 < 64 {
                vstd::arithmetic::power2::lemma_pow2_strictly_increases((e + 1) as nat, 64);
            }
        }
        mag = low_word(&t);
        proof {
            assert(v.lsb_exp() == scale);
            assert(mag as nat == nearest_even_int(sv, v.lsb_exp()));
        }
    } else {
        let s = (-scale) as u64;
        let (q2, below) = shr(&sig, s - 1);
        let (q, bit) = div_small(&q2, 2);
        let (_, odd) = div_small(&q, 2);
        let q0 = low_word(&q);
        proof {
            let ss = s as nat;
            let h = vstd::arithmetic::power2::pow2((ss - 1) as nat);
            vstd::arithmetic::power2::lemma_pow2_pos((ss - 1) as nat);
            vstd::arithmetic::power2::lemma_pow2_unfold(ss);
            assert(vstd::arithmetic::power2::pow2(ss) == h * 2);
            vstd::arithmetic::div_mod::lemma_div_denominator(sv as int, h as int, 2);
            vstd::arithmetic::div_mod::lemma_breakdown(sv as int, h as int, 2);
            vstd::arithmetic::div_mod::lemma_fundamental_div_mod_converse(nat_of(q2@) as int, 2, nat_of(q@) as int, bit as int);
            vstd::arithmetic::div_mod::lemma_fundamental_div_mod_converse(nat_of(q@) as int, 2, nat_of(q@) as int / 2, odd as int);
            assert(nat_of(q@) == sv / vstd::arithmetic::power2::pow2(ss));
            assert(sv % vstd::arithmetic::power2::pow2(ss) == h * bit + sv % h);
            // q < 2^(e+1) ≤ 2^63
            vstd::arithmetic::power2::lemma_pow2_adds((e + 1) as nat, ss);
            assert((e + 1) as nat + ss == p as nat);
            vstd::arithmetic::div_mod::lemma_div_by_multiple_is_strongly_ordered(sv as int,
                (vstd::arithmetic::power2::pow2((e + 1) as nat) * vstd::arithmetic::power2::pow2(ss)) as int,
                vstd::arithmetic::power2::pow2((e + 1) as nat) as int, vstd::arithmetic::power2::pow2(ss) as int);
            vstd::arithmetic::div_mod::lemma_div_by_multiple(vstd::arithmetic::power2::pow2((e + 1) as nat) as int,
                vstd::arithmetic::power2::pow2(ss) as int);
            if e + 1 < 63 {
                vstd::arithmetic::power2::lemma_pow2_strictly_increases((e + 1) as nat, 63);
            }
            assert(nat_of(q@) < vstd::arithmetic::power2::pow2((e + 1) as nat));
            vstd::arithmetic::power2::lemma2_to64();
            vstd::arithmetic::power2::lemma2_to64_rest();
            assert(vstd::arithmetic::power2::pow2(63) == 0x8000_0000_0000_0000);
            assert(vstd::arithmetic::power2::pow2((e + 1) as nat) <= vstd::arithmetic::power2::pow2(63));
            assert(nat_of(q@) < 0x8000_0000_0000_0000);
            assert(q0 as nat == nat_of(q@));
            assert(below == (sv % h != 0));
            assert(nat_of(q@) % 2 == odd);
            assert(bit < 2);
            assert(sv % h < h);
            let rem = sv % vstd::arithmetic::power2::pow2(ss);
            if bit == 1 {
                assert(rem == h + sv % h);
            } else {
                assert(bit == 0);
                assert(h * bit == 0) by (nonlinear_arith) requires bit == 0;
                assert(rem == sv % h);
            }
            assert(rem > h <==> (bit == 1 && sv % h != 0));
            assert(rem == h <==> (bit == 1 && sv % h == 0));
            assert(v.lsb_exp() == -(ss as int));
        }
        mag = if bit == 1 && (below || odd == 1) && q0 < u64::MAX { q0 + 1 } else { q0 };
        proof {
            assert(mag as nat == nearest_even_int(sv, v.lsb_exp()));
        }
    }
    proof {
        assert(mag as nat == nearest_even_int(sv, v.lsb_exp()));
    }
    if neg {
        if mag >= 0x8000_0000_0000_0000u64 { i64::MIN } else { -(mag as i64) }
    } else if mag > 0x7fff_ffff_ffff_ffffu64 {
        i64::MAX
    } else {
        mag as i64
    }
}

/// One Taylor term: `t = prev·r / n`, the integer `n` taken at `w`
/// bits, each operation rounded to nearest.
pub open spec fn taylor_step(prev: BigFloat, r: BigFloat, n: int, w: u32, t: BigFloat) -> bool {
    exists|numer: BigFloat, nb: BigFloat|
        #![trigger multiplied(prev, r, numer), call_ensures(int_at, (n as i64, w), nb)]
        multiplied(prev, r, numer) && call_ensures(int_at, (n as i64, w), nb) && divided(numer, nb, t)
}

/// How [`exp_taylor`] sums `exp(r) = Σ_{n≥0} rⁿ/n!`: the partial sums
/// start at one and add the terms `t₁ = 1·r/1`, `t_n = t_{n−1}·r/n`,
/// each operation rounded to nearest at `w` bits.
pub open spec fn exp_taylor_form(r: BigFloat, w: u32, s: BigFloat) -> bool {
    exists|one: BigFloat, a: BigFloat, terms: Seq<BigFloat>, accs: Seq<BigFloat>|
        #![trigger call_ensures(one_at, (w,), one), sum_chain(a, terms, accs)]
        call_ensures(one_at, (w,), one) && same(a, one) && sum_chain(a, terms, accs) && accs.last() == s
            && (forall|i: int| 0 <= i < terms.len() ==> taylor_step(if i == 0 { one } else { terms[i - 1] }, r, i + 1, w,
                #[trigger] terms[i]))
}

/// `exp(r)` by its Taylor series at working precision `w`.
pub fn exp_taylor(r: &BigFloat, w: u32) -> (s: BigFloat)
    requires
        r.wf(),
        prec_ok(w as nat),
    ensures
        s.wf(),
        exp_taylor_form(*r, w, s),
{
    let one = one_at(w);
    let mut sum = one.dup();
    let ghost a = sum;
    let mut term = one;
    let ghost one_v = one;
    let ghost mut terms: Seq<BigFloat> = Seq::empty();
    let ghost mut accs: Seq<BigFloat> = seq![sum];
    proof {
        assert(call_ensures(one_at, (w,), one_v));
    }
    let max_iter: u32 = if w > 64 { if w >= 0x4000_0000 { 0xffff_ffff } else { 4 * w } } else { 256 };
    let limit: i64 = -(w as i64) - 4;
    let mut n: u32 = 1;
    while n <= max_iter
        invariant_except_break
            terms.len() == n - 1,
            term == (if n == 1 { one_v } else { terms.last() }),
        invariant
            prec_ok(w as nat),
            sum.wf(),
            term.wf(),
            r.wf(),
            1 <= n,
            call_ensures(one_at, (w,), one_v),
            same(a, one_v),
            sum_chain(a, terms, accs),
            accs.last() == sum,
            forall|i: int| 0 <= i < terms.len() ==> taylor_step(if i == 0 { one_v } else { terms[i - 1] }, *r, i + 1, w,
                #[trigger] terms[i]),
        decreases (max_iter as int) + 1 - (n as int),
    {
        let (numer, _) = term.mul(r, RoundingMode::NearestEven);
        let nb = int_at(n as i64, w);
        let (t, _) = numer.div(&nb, RoundingMode::NearestEven);
        proof {
            let i = terms.len() as int;
            assert(multiplied(term, *r, numer));
            assert(call_ensures(int_at, ((i + 1) as i64, w), nb));
            assert(divided(numer, nb, t));
            assert(taylor_step(if i == 0 { one_v } else { terms[i - 1] }, *r, i + 1, w, t));
        }
        term = t;
        let (s2, _) = sum.add(&term, RoundingMode::NearestEven);
        proof {
            assert(added(sum, term, s2));
            lemma_sum_chain_push(a, terms, accs, term, s2);
            let old_terms = terms;
            terms = terms.push(term);
            accs = accs.push(s2);
            assert forall|i: int| 0 <= i < terms.len() implies taylor_step(if i == 0 { one_v } else { terms[i - 1] }, *r, i + 1, w,
                #[trigger] terms[i]) by {
                if i < old_terms.len() {
                    assert(terms[i] == old_terms[i]);
                    if i > 0 {
                        assert(terms[i - 1] == old_terms[i - 1]);
                    }
                } else if i > 0 {
                    assert(terms[i - 1] == old_terms.last());
                }
            }
        }
        sum = s2;
        if !term.is_normal() || exponent_of(&term) < limit {
            break;
        }
        if n == u32::MAX {
            break;
        }
        n = n + 1;
    }
    sum
}

/// Bits at which `x/ln 2` and the reduction `x − k·ln 2` are carried
/// in the exponent-rim band: enough that, by the irrationality measure
/// of `ln 2`, a value of `px` bits cannot fall closer to an integer
/// multiple of `ln 2` than they resolve.
fn rim_bits(px: u32) -> (r: u64)
    ensures
        r == 4 * (px as u64 + 64) + 1024,
{
    4 * (px as u64 + 64) + 1024
}

/// The unscaled `exp(x − k·ln 2)` at working precision `w`, with the
/// reduction carried at `w` plus the rim allowance.
pub fn exp_reduced(x: &BigFloat, k: i64, w: u32) -> (y: BigFloat)
    requires
        x.wf(),
        prec_ok(w as nat),
    ensures
        y.wf(),
        exists|wr: u32, xw: BigFloat, l2: BigFloat, kb: BigFloat, kl: BigFloat, rw: BigFloat, r: BigFloat|
            #![trigger call_ensures(wadd, (w, (4 * (x.precision + 64) + 1024) as u64), wr), rounded_near(*x, wr as nat, xw), call_ensures(ln_2_at, (wr,), l2), call_ensures(int_at, (k, wr), kb), multiplied(kb, l2, kl), subtracted(xw, kl, rw), rounded_near(rw, w as nat, r)]
            call_ensures(wadd, (w, (4 * (x.precision + 64) + 1024) as u64), wr) && rounded_near(*x, wr as nat, xw)
                && call_ensures(ln_2_at, (wr,), l2) && call_ensures(int_at, (k, wr), kb) && multiplied(kb, l2, kl)
                && subtracted(xw, kl, rw) && rounded_near(rw, w as nat, r) && call_ensures(exp_taylor, (&r, w), y),
{
    let wr = wadd(w, rim_bits(x.precision));
    let x_w = rne(x, wr);
    let ln_2 = ln_2_at(wr);
    let k_big = int_at(k, wr);
    let (k_ln2, _) = k_big.mul(&ln_2, RoundingMode::NearestEven);
    let (r_wide, _) = x_w.sub(&k_ln2, RoundingMode::NearestEven);
    let r = rne(&r_wide, w);
    let y = exp_taylor(&r, w);
    proof {
        assert(call_ensures(wadd, (w, (4 * (x.precision + 64) + 1024) as u64), wr));
        assert(rounded_near(*x, wr as nat, x_w));
        assert(call_ensures(ln_2_at, (wr,), ln_2));
        assert(call_ensures(int_at, (k, wr), k_big));
        assert(multiplied(k_big, ln_2, k_ln2));
        assert(subtracted(x_w, k_ln2, r_wide));
        assert(rounded_near(r_wide, w as nat, r));
        assert(call_ensures(exp_taylor, (&r, w), y));
    }
    y
}

/// What `exp` gives for `2^62 ≤ |x| < 2^63`: the overflow, deep
/// underflow or sliver result, or, for some scale `k`, the value
/// [`exp_reduced`] computes at a working precision of the Ziv schedule,
/// rounded to `p` bits under `mode` and scaled by `2^k` exactly.
pub open spec fn exp_near_rim(x: BigFloat, r: BigFloat, st: Status, p: nat, mode: RoundingMode) -> bool {
    x.class is Normal && x.class->Normal_exponent == 62
        ==> overflow_result(r, st, p, mode) || deep_underflow_result(r, st, p, mode) || sliver_result(r, st, p, mode)
            || exists|k: i64, w: u32, y: BigFloat, s: BigFloat, s0: Status, sst: Status|
                #![trigger call_ensures(exp_reduced, (&x, k, w), y), rounds_to(y, p, mode, s, s0), call_ensures(BigFloat::scale_by_pow2, (&s, k), (r, sst))]
                call_ensures(exp_reduced, (&x, k, w), y) && ziv_on_schedule(w as int, p as int) && rounds_to(y, p, mode, s, s0)
                    && call_ensures(BigFloat::scale_by_pow2, (&s, k), (r, sst))
}

/// `exp(x)` for `2^62 ≤ |x| < 2^63`, where the result's binary
/// exponent `n = ⌊x/ln 2⌋` has magnitude in `[2^62.5, 2^63.5)` and may
/// cross either rim: `n ≥ 2^63` overflows, `n < i64::MIN − 1`
/// underflows deeply, `n = i64::MIN − 1` lands in the sliver below the
/// smallest positive value, and otherwise the unscaled
/// `exp(x − k·ln 2)` is rounded by the Ziv driver and scaled by `2^k`
/// exactly, `k` held one step inside the rims.
fn exp_extreme(x: &BigFloat, target: u32, mode: RoundingMode) -> (r: (BigFloat, Status))
    requires
        x.wf(),
        x.class is Normal,
        prec_ok(target as nat),
    ensures
        r.0.wf(),
        r.0.precision == target,
        has_inexact(r.1),
        x.class->Normal_exponent == 62 ==> exp_near_rim(*x, r.0, r.1, target as nat, mode),
{
    proof {
        crate::types::lemma_or_inexact(0);
    }
    let negative = x.is_sign_negative();
    let q = wadd(1024, rim_bits(x.precision));
    let x_q = rne(x, q);
    let ln_2 = ln_2_at(q);
    let (t, _) = x_q.div(&ln_2, RoundingMode::NearestEven);
    if !t.is_normal() || exponent_of(&t) >= 64 {
        return if negative { exp_deep_underflow(target, mode) } else { exp_certain_overflow(target, mode) };
    }
    let (m, exact) = floor_abs_u64(&t);
    let n: i128 = if !t.is_sign_negative() {
        m as i128
    } else if exact {
        -(m as i128)
    } else {
        -(m as i128) - 1
    };
    if n >= 0x8000_0000_0000_0000 {
        return exp_certain_overflow(target, mode);
    }
    if n < i64::MIN as i128 - 1 {
        return exp_deep_underflow(target, mode);
    }
    if n == i64::MIN as i128 - 1 {
        return exp_underflow_sliver(target, mode);
    }
    let k: i64 = if n < i64::MIN as i128 + 1 {
        i64::MIN + 1
    } else if n > i64::MAX as i128 - 1 {
        i64::MAX - 1
    } else {
        n as i64
    };
    let eval = |w: u32| -> (y: BigFloat)
        requires
            prec_ok(w as nat),
        ensures
            y.wf(),
            call_ensures(exp_reduced, (x, k, w), y),
    {
        exp_reduced(x, k, w)
    };
    let (s, zst) = ziv_round(eval, target, mode, EXP_ERROR_GUARD);
    let ghost t = choose|t: ZivTrace| t.0 == s && t.1 == zst && #[trigger] is_trace_of(eval, target as nat, mode, t)
        && ziv_on_schedule(t.2 as int, target as int);
    proof {
        assert(call_ensures(exp_reduced, (x, k, t.2), t.3));
        assert(rounds_to(t.3, target as nat, mode, s, zst));
    }
    let (result, sst) = s.scale_by_pow2(k);
    if sst.overflow() {
        return exp_certain_overflow(target, mode);
    }
    proof {
        assert(call_ensures(BigFloat::scale_by_pow2, (&s, k), (result, sst)));
    }
    let st = zst.merge(sst).merge(Status { bits: FLAG_INEXACT });
    proof {
        crate::types::lemma_or_inexact(zst.bits | sst.bits);
    }
    (result, st)
}

/// The extra bits the reduction of `x` carries: `x`'s exponent where
/// positive, capped at 1000, and none otherwise.
pub open spec fn reduction_extra(x: BigFloat) -> int {
    if x.class is Normal && x.class->Normal_exponent > 0 {
        if x.class->Normal_exponent > 1000 { 1000 } else { x.class->Normal_exponent as int }
    } else {
        0
    }
}

/// How [`exp_at_w`] evaluates `exp(x) = 2^k·exp(x − k·ln 2)`: at
/// `rp = w + reduction_extra(x) + 8` bits, `xw` is `x` rounded to
/// nearest, `l2` what [`ln_2_at`] gives, `k` what
/// [`round_bigfloat_to_i64`] gives at `xw/l2`, and the reduced argument
/// `xw − k·l2` is rounded to nearest at `w` bits; `y` is the Taylor sum
/// at it scaled by `2^k`.
pub open spec fn exp_at_w_form(x: BigFloat, w: u32, y: BigFloat) -> bool {
    exists|rp: u32, xw: BigFloat, l2: BigFloat, q: BigFloat, k: i64, kb: BigFloat, kl: BigFloat, rw: BigFloat, r: BigFloat,
        s: BigFloat, sst: Status|
        #![trigger rounded_near(x, rp as nat, xw), call_ensures(ln_2_at, (rp,), l2), divided(xw, l2, q), call_ensures(round_bigfloat_to_i64, (&q,), k), call_ensures(int_at, (k, rp), kb), multiplied(kb, l2, kl), subtracted(xw, kl, rw), rounded_near(rw, w as nat, r), call_ensures(exp_taylor, (&r, w), s), call_ensures(BigFloat::scale_by_pow2, (&s, k), (y, sst))]
        call_ensures(wadd, (w, (reduction_extra(x) + 8) as u64), rp) && rounded_near(x, rp as nat, xw)
            && call_ensures(ln_2_at, (rp,), l2) && divided(xw, l2, q) && call_ensures(round_bigfloat_to_i64, (&q,), k)
            && call_ensures(int_at, (k, rp), kb) && multiplied(kb, l2, kl) && subtracted(xw, kl, rw)
            && rounded_near(rw, w as nat, r) && call_ensures(exp_taylor, (&r, w), s)
            && call_ensures(BigFloat::scale_by_pow2, (&s, k), (y, sst))
}

/// `exp(x)` at working precision `w` by range reduction, the Taylor
/// series, and scaling by `2^k`.
pub fn exp_at_w(x: &BigFloat, w: u32) -> (y: BigFloat)
    requires
        x.wf(),
        prec_ok(w as nat),
    ensures
        y.wf(),
        exp_at_w_form(*x, w, y),
{
    let e_x = exponent_of(x);
    let extra: u64 = if e_x > 0 { if e_x > 1000 { 1000 } else { e_x as u64 } } else { 0 };
    let reduce_prec = wadd(w, extra + 8);
    let x_w = rne(x, reduce_prec);
    let ln_2 = ln_2_at(reduce_prec);
    let (q, _) = x_w.div(&ln_2, RoundingMode::NearestEven);
    let k = round_bigfloat_to_i64(&q);
    let k_big = int_at(k, reduce_prec);
    let (k_ln2, _) = k_big.mul(&ln_2, RoundingMode::NearestEven);
    let (r_wide, _) = x_w.sub(&k_ln2, RoundingMode::NearestEven);
    let r = rne(&r_wide, w);
    let s = exp_taylor(&r, w);
    let (y, sst) = s.scale_by_pow2(k);
    proof {
        assert(extra == reduction_extra(*x));
        assert(call_ensures(wadd, (w, (reduction_extra(*x) + 8) as u64), reduce_prec));
        assert(rounded_near(*x, reduce_prec as nat, x_w));
        assert(call_ensures(ln_2_at, (reduce_prec,), ln_2));
        assert(divided(x_w, ln_2, q));
        assert(call_ensures(round_bigfloat_to_i64, (&q,), k));
        assert(call_ensures(int_at, (k, reduce_prec), k_big));
        assert(multiplied(k_big, ln_2, k_ln2));
        assert(subtracted(x_w, k_ln2, r_wide));
        assert(rounded_near(r_wide, w as nat, r));
        assert(call_ensures(exp_taylor, (&r, w), s));
        assert(call_ensures(BigFloat::scale_by_pow2, (&s, k), (y, sst)));
    }
    y
}

/// `r` is `y` rounded to `p` bits under `mode` where that lands inside
/// the exponent range (flags of the rounding with INEXACT); a rounding
/// to an infinity gives the overflow result, one to zero the deep
/// underflow.
pub open spec fn positive_rounding_outcome(y: BigFloat, p: nat, mode: RoundingMode, r: BigFloat, st: Status) -> bool {
    exists|r0: BigFloat, s0: Status| #[trigger] rounds_to(y, p, mode, r0, s0) && {
        &&& (r0.class is Infinity ==> overflow_result(r, st, p, mode))
        &&& (r0.class is Zero ==> deep_underflow_result(r, st, p, mode))
        &&& (!(r0.class is Infinity) && !(r0.class is Zero) ==> r == r0 && st.bits == (s0.bits | FLAG_INEXACT))
    }
}

/// What `exp` gives at the normal arguments that are neither tiny nor
/// past `|x| ≥ 2^62`: the value [`exp_at_w`] computes at a working
/// precision of the Ziv schedule, rounded as
/// [`positive_rounding_outcome`] says.
pub open spec fn exp_value(x: BigFloat, r: BigFloat, st: Status, p: nat, mode: RoundingMode) -> bool {
    x.class is Normal && x.class->Normal_exponent < 62 && !(x.class->Normal_exponent <= -(p + 2))
        ==> exists|w: u32, y: BigFloat| #[trigger] call_ensures(exp_at_w, (&x, w), y)
            && ziv_on_schedule(w as int, p as int) && positive_rounding_outcome(y, p, mode, r, st)
}

/// What `exp` gives at a tiny argument `|x| < 2^−(p+1)`: one, moved
/// by an infinitesimal (down for `x < 0`, up for `x > 0`), rounded
/// under `mode`.
pub open spec fn exp_tiny(x: BigFloat, r: BigFloat, st: Status, p: nat, mode: RoundingMode) -> bool {
    x.class is Normal && x.class->Normal_exponent <= -(p + 2)
        ==> super::nudged_parts(vstd::arithmetic::power2::pow2((p - 1) as nat), 1 - p, false, x.spec_neg(), p, mode, r, st)
}

/// The outcome `exp` promises at the special inputs.
pub open spec fn exp_special(x: BigFloat, r: BigFloat, st: Status, p: nat) -> bool {
    &&& (x.class is Nan ==> nan_result(r, st, x, p))
    &&& (x.class is Zero ==> finite_value_is(r, 1, 0) && st.bits == 0)
    &&& (x.class == (Class::Infinity { sign: Sign::Positive }) ==> r.class == (Class::Infinity { sign: Sign::Positive }) && st.bits == 0)
    &&& (x.class == (Class::Infinity { sign: Sign::Negative }) ==> r.class == (Class::Zero { sign: Sign::Positive }) && st.bits == 0)
    &&& (x.class is Normal ==> has_inexact(st))
}

fn exp_kernel(x: &BigFloat, target: u32, mode: RoundingMode) -> (r: (BigFloat, Status))
    requires
        x.wf(),
        prec_ok(target as nat),
    ensures
        r.0.wf(),
        r.0.precision == target,
        exp_special(*x, r.0, r.1, target as nat),
        exp_rim(*x, r.0, r.1, target as nat, mode),
        exp_tiny(*x, r.0, r.1, target as nat, mode),
        exp_value(*x, r.0, r.1, target as nat, mode),
        exp_near_rim(*x, r.0, r.1, target as nat, mode),
{
    match &x.class {
        Class::Nan { .. } => return nan_in(x, target),
        Class::Zero { .. } => return (one_at(target), Status { bits: 0 }),
        Class::Infinity { sign: Sign::Positive } => return (inf_at(Sign::Positive, target), Status { bits: 0 }),
        Class::Infinity { sign: Sign::Negative } => return (zero_at(Sign::Positive, target), Status { bits: 0 }),
        Class::Normal { .. } => {},
    }
    let e_x = exponent_of(x);
    if e_x <= -(target as i64 + 2) {
        let one = one_at(target);
        let (v, st) = round_with_infinitesimal(&one, x.is_sign_negative(), target, mode);
        proof {
            crate::types::lemma_or_inexact(st.bits);
        }
        return (v, st);
    }
    if e_x >= 63 {
        let (v, st) = if x.is_sign_negative() { exp_deep_underflow(target, mode) } else { exp_certain_overflow(target, mode) };
        proof {
            crate::types::lemma_or_inexact(st.bits);
        }
        return (v, st);
    }
    if e_x == 62 {
        return exp_extreme(x, target, mode);
    }
    let eval = |w: u32| -> (y: BigFloat)
        requires
            prec_ok(w as nat),
        ensures
            y.wf(),
            call_ensures(exp_at_w, (x, w), y),
    {
        exp_at_w(x, w)
    };
    let (result, status) = ziv_round(eval, target, mode, EXP_ERROR_GUARD);
    let ghost t = choose|t: ZivTrace| t.0 == result && t.1 == status && #[trigger] is_trace_of(eval, target as nat, mode, t)
        && ziv_on_schedule(t.2 as int, target as int);
    proof {
        assert(call_ensures(exp_at_w, (x, t.2), t.3));
        assert(rounds_to(t.3, target as nat, mode, result, status));
    }
    if result.is_infinite() {
        let (v, st) = exp_certain_overflow(target, mode);
        proof {
            crate::types::lemma_or_inexact(st.bits);
        }
        return (v, st);
    }
    if result.is_zero() {
        let (v, st) = exp_deep_underflow(target, mode);
        proof {
            crate::types::lemma_or_inexact(st.bits);
        }
        return (v, st);
    }
    let st = status.merge(Status { bits: FLAG_INEXACT });
    proof {
        crate::types::lemma_or_inexact(status.bits);
    }
    (result, st)
}

impl BigFloat {
    /// `e^self` rounded under `mode` to the precision of
    /// `self`.
    pub fn exp(&self, mode: RoundingMode) -> (r: (BigFloat, Status))
        requires
            self.wf(),
        ensures
            r.0.wf(),
            r.0.precision == self.precision,
            exp_special(*self, r.0, r.1, self.precision as nat),
            exp_rim(*self, r.0, r.1, self.precision as nat, mode),
            exp_tiny(*self, r.0, r.1, self.precision as nat, mode),
            exp_value(*self, r.0, r.1, self.precision as nat, mode),
            exp_near_rim(*self, r.0, r.1, self.precision as nat, mode),
    {
        self.exp_round(self.precision, mode)
    }

    /// `e^self` rounded under `mode` to `target_precision`
    /// bits.
    pub fn exp_round(&self, target_precision: u32, mode: RoundingMode) -> (r: (BigFloat, Status))
        requires
            self.wf(),
            prec_ok(target_precision as nat),
        ensures
            r.0.wf(),
            r.0.precision == target_precision,
            exp_special(*self, r.0, r.1, target_precision as nat),
            exp_rim(*self, r.0, r.1, target_precision as nat, mode),
            exp_tiny(*self, r.0, r.1, target_precision as nat, mode),
            exp_value(*self, r.0, r.1, target_precision as nat, mode),
            exp_near_rim(*self, r.0, r.1, target_precision as nat, mode),
    {
        exp_kernel(self, target_precision, mode)
    }
}

impl<const PREC: u32> FixedFloat<PREC> {
    /// `e^self` at the fixed precision.
    pub fn exp(&self, mode: RoundingMode) -> (r: (FixedFloat<PREC>, Status))
        requires
            self.wf(),
        ensures
            r.0.wf(),
            exp_special(self.value(), r.0.value(), r.1, PREC as nat),
            exp_rim(self.value(), r.0.value(), r.1, PREC as nat, mode),
            exp_tiny(self.value(), r.0.value(), r.1, PREC as nat, mode),
            exp_value(self.value(), r.0.value(), r.1, PREC as nat, mode),
            exp_near_rim(self.value(), r.0.value(), r.1, PREC as nat, mode),
            call_ensures(BigFloat::exp, (&self.value(), mode), (r.0.value(), r.1)),
    {
        let (big, st) = self.big_ref().exp(mode);
        (FixedFloat::wrap(big), st)
    }
}

} // verus!

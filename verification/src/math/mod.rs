//! Elementary transcendental and special functions, rounded
//! through the Ziv interval test, and the mathematical constants they
//! share.

use vstd::prelude::*;
use vstd::arithmetic::power2::{pow2, lemma2_to64, lemma_pow2_pos, lemma_pow2_strictly_increases, lemma_pow2_unfold, lemma_pow2_adds};
use crate::limbs::{nat_of, is_zero};
use crate::types::{BigFloat, Class, Sign, RoundingMode, Status, MAX_PRECISION, EXP_MAX, EXP_MIN, FLAG_INEXACT, FLAG_INVALID, prec_ok, sign_of};
use crate::round::{round_sig, round_result};
use crate::float::{finite_value_is, nan_result};

pub mod ziv;
pub mod exp;
pub mod ln;
pub mod pow;
pub mod exp2;
pub mod exp10;
pub mod expm1;
pub mod log2;
pub mod log10;
pub mod log1p;
pub mod sinh;
pub mod cosh;
pub mod tanh;
pub mod trig_reduce;
pub mod sin;
pub mod cos;
pub mod tan;
pub mod erf;
pub mod erfc;
pub mod gamma_stirling;
pub mod lgamma;
pub mod gamma;
pub mod digamma;
pub mod beta;
pub mod ei;
pub mod li;
pub mod si;
pub mod ci;
pub mod zeta;
pub mod trig_reciprocal;
pub mod bessel_y;

verus! {

/// `x` clamped into the supported precisions `1..=MAX_PRECISION`.
pub open spec fn prec_clamp(x: int) -> int {
    if x < 1 { 1 } else if x > MAX_PRECISION { MAX_PRECISION as int } else { x }
}

/// A precision clamped into the supported range.
pub fn wp(x: u64) -> (r: u32)
    ensures
        prec_ok(r as nat),
        r == prec_clamp(x as int),
        1 <= x <= MAX_PRECISION ==> r == x,
        x > MAX_PRECISION ==> r == MAX_PRECISION,
{
    if x == 0 {
        1
    } else if x > MAX_PRECISION as u64 {
        MAX_PRECISION
    } else {
        x as u32
    }
}

/// `a + b` on precisions, clamped.
pub fn wadd(a: u32, b: u64) -> (r: u32)
    ensures
        prec_ok(r as nat),
        r == prec_clamp(a + b),
        1 <= a + b <= MAX_PRECISION ==> r == a + b,
{
    let s: u64 = if b > 0x1_0000_0000 { 0x1_0000_0000 } else { b };
    wp(a as u64 + s)
}

/// The integer `v` at precision `p` (exact when `p >= 64`).
pub fn int_at(v: i64, p: u32) -> (r: BigFloat)
    requires
        prec_ok(p as nat),
    ensures
        r.wf(),
        r.precision == p,
        v == 0 ==> r.class == (Class::Zero { sign: Sign::Positive }),
        v != 0 ==> r.class is Normal && r.spec_neg() == (v < 0),
        v != 0 && crate::round::bits(crate::float::abs_i64(v)) <= p ==> finite_value_is(r, v as int, 0)
            && r.class->Normal_exponent == crate::round::bits(crate::float::abs_i64(v)) - 1,
{
    match BigFloat::try_from_i64_round(v, p, RoundingMode::NearestEven) {
        Ok((x, _)) => {
            proof {
                if v != 0 {
                    let (sg, e) = crate::round::rounded(crate::float::abs_i64(v), false, 0, p as nat, v < 0, RoundingMode::NearestEven);
                    lemma_small_rounding_in_range(crate::float::abs_i64(v), p as nat);
                    if crate::round::bits(crate::float::abs_i64(v)) <= p {
                        let av = crate::float::abs_i64(v);
                        crate::round::lemma_exact_rounding(av, 0, p as nat, v < 0, RoundingMode::NearestEven);
                        assert(x.sig() == sg);
                        assert(x.lsb_exp() == e - p + 1);
                        let k1 = (x.lsb_exp() - 0) as nat;
                        let k2 = (0 - x.lsb_exp()) as nat;
                        assert((-(sg as int)) * pow2(k1) == -((sg * pow2(k1)) as int)) by (nonlinear_arith);
                        if v < 0 {
                            assert(-((av * pow2(k2)) as int) == (v as int) * pow2(k2)) by (nonlinear_arith)
                                requires av == -(v as int);
                        }
                    }
                }
            }
            x
        },
        Err(_) => {
            proof { assert(false); }
            BigFloat { class: Class::Zero { sign: Sign::Positive }, precision: p }
        },
    }
}

/// `x` against `n/2^k`, scaled to integers: `signed_sig(x)·2^(lsb+k) − n`
/// or `signed_sig(x) − n·2^(−lsb−k)`, whichever is integral.
pub open spec fn ratio_diff(x: BigFloat, n: int, k: nat) -> int {
    let s = crate::arith::signed_sig(x);
    let t = x.lsb_exp() + k;
    if t >= 0 { s * pow2(t as nat) - n } else { s - n * pow2((-t) as nat) }
}

/// `x ≥ n/2^k`.
pub open spec fn at_least_ratio(x: BigFloat, n: int, k: nat) -> bool {
    order_vs_ratio(x, n, k) matches Some(v) && v >= 0
}

/// `x ≤ n/2^k`.
pub open spec fn at_most_ratio(x: BigFloat, n: int, k: nat) -> bool {
    order_vs_ratio(x, n, k) matches Some(v) && v <= 0
}

/// The order of `x` against the positive ratio `n/2^k`; none for a NaN.
pub open spec fn order_vs_ratio(x: BigFloat, n: int, k: nat) -> Option<int> {
    if x.class is Nan {
        None
    } else if x.class is Infinity {
        Some(if x.spec_neg() { -1int } else { 1 })
    } else if x.class is Zero {
        Some(-1int)
    } else {
        Some(crate::arith::sgn(ratio_diff(x, n, k)))
    }
}

proof fn lemma_sgn_scale(a: int, m: int)
    requires
        m > 0,
    ensures
        crate::arith::sgn(a * m) == crate::arith::sgn(a),
{
    if a > 0 {
        assert(a * m > 0) by (nonlinear_arith) requires a > 0, m > 0;
    } else if a < 0 {
        assert(a * m < 0) by (nonlinear_arith) requires a < 0, m > 0;
    } else {
        assert(a * m == 0) by (nonlinear_arith) requires a == 0;
    }
}

/// Comparing with a positive value equal to `n/2^k` is comparing with
/// the ratio.
pub proof fn lemma_order_vs_ratio(x: BigFloat, q: BigFloat, n: int, k: nat)
    requires
        x.wf(),
        q.wf(),
        q.class is Normal,
        !q.spec_neg(),
        n > 0,
        finite_value_is(q, n, -(k as int)),
    ensures
        crate::arith::order_of(x, q) == order_vs_ratio(x, n, k),
{
    if x.class is Normal {
        let lx = x.lsb_exp();
        let lq = q.lsb_exp();
        let lo = crate::arith::low_exp(x, q);
        let l: int = if lo <= -(k as int) { lo } else { -(k as int) };
        let sx = crate::arith::signed_sig(x);
        let sq = q.sig() as int;
        assert(crate::arith::signed_sig(q) == sq);
        let big_x = sx * pow2((lx - l) as nat);
        let big_q = sq * pow2((lq - l) as nat);
        lemma_pow2_adds((lx - lo) as nat, (lo - l) as nat);
        lemma_pow2_adds((lq - lo) as nat, (lo - l) as nat);
        lemma_pow2_pos((lo - l) as nat);
        let ad = crate::arith::aligned_diff(x, q);
        assert(ad * pow2((lo - l) as nat) == big_x - big_q) by (nonlinear_arith)
            requires
                ad == sx * pow2((lx - lo) as nat) - sq * pow2((lq - lo) as nat),
                pow2((lx - l) as nat) == pow2((lx - lo) as nat) * pow2((lo - l) as nat),
                pow2((lq - l) as nat) == pow2((lq - lo) as nat) * pow2((lo - l) as nat),
                big_x == sx * pow2((lx - l) as nat),
                big_q == sq * pow2((lq - l) as nat);
        lemma_sgn_scale(ad, pow2((lo - l) as nat) as int);
        // big_q == n·2^(−k−l)
        let c = (-(k as int) - l) as nat;
        if lq >= -(k as int) {
            lemma_pow2_adds((lq + k) as nat, c);
            assert(big_q == n * pow2(c)) by (nonlinear_arith)
                requires
                    sq * pow2((lq + k) as nat) == n,
                    pow2((lq - l) as nat) == pow2((lq + k) as nat) * pow2(c),
                    big_q == sq * pow2((lq - l) as nat);
        } else {
            lemma_pow2_adds((-(k as int) - lq) as nat, (lq - l) as nat);
            assert(big_q == n * pow2(c)) by (nonlinear_arith)
                requires
                    sq == n * pow2((-(k as int) - lq) as nat),
                    pow2(c) == pow2((-(k as int) - lq) as nat) * pow2((lq - l) as nat),
                    big_q == sq * pow2((lq - l) as nat);
        }
        let t = lx + k;
        let rd = ratio_diff(x, n, k);
        if t >= 0 {
            lemma_pow2_adds(t as nat, c);
            lemma_pow2_pos(c);
            assert(big_x - big_q == rd * pow2(c)) by (nonlinear_arith)
                requires
                    rd == sx * pow2(t as nat) - n,
                    pow2((lx - l) as nat) == pow2(t as nat) * pow2(c),
                    big_x == sx * pow2((lx - l) as nat),
                    big_q == n * pow2(c);
            lemma_sgn_scale(rd, pow2(c) as int);
        } else {
            lemma_pow2_adds((-t) as nat, (lx - l) as nat);
            lemma_pow2_pos((lx - l) as nat);
            assert(big_x - big_q == rd * pow2((lx - l) as nat)) by (nonlinear_arith)
                requires
                    rd == sx - n * pow2((-t) as nat),
                    pow2(c) == pow2((-t) as nat) * pow2((lx - l) as nat),
                    big_x == sx * pow2((lx - l) as nat),
                    big_q == n * pow2(c);
            lemma_sgn_scale(rd, pow2((lx - l) as nat) as int);
        }
    }
}

/// Two at precision `p`, exactly.
pub fn int_at_exact_two(p: u32) -> (r: BigFloat)
    requires
        prec_ok(p as nat),
    ensures
        r.wf(),
        r.precision == p,
        finite_value_is(r, 2, 0),
{
    let o = one_at(p);
    let (t, st) = o.scale_by_pow2(1);
    proof {
        lemma2_to64();
        let sg = t.sig();
        assert(t.lsb_exp() == 2 - p);
        if p == 1 {
            assert(sg * pow2(1) == 2) by (nonlinear_arith)
                requires sg == 1, pow2(1) == 2;
        } else if p == 2 {
            assert(sg * pow2(0) == 2) by (nonlinear_arith)
                requires sg == 2, pow2(0) == 1;
        } else {
            lemma_pow2_unfold((p - 1) as nat);
            assert(sg as int == 2 * pow2((p - 2) as nat));
        }
    }
    t
}

/// One at precision `p`, exactly.
pub fn one_at(p: u32) -> (r: BigFloat)
    requires
        prec_ok(p as nat),
    ensures
        r.wf(),
        r.precision == p,
        finite_value_is(r, 1, 0),
        !r.spec_neg(),
        r.class is Normal,
        r.class->Normal_exponent == 0,
        r.sig() == vstd::arithmetic::power2::pow2((p - 1) as nat),
{
    match BigFloat::try_from_i64_exact(1, p) {
        Ok(x) => {
            proof {
                lemma_one_fields(x);
                let sg = x.sig() as int;
                if x.spec_neg() {
                    crate::float::lemma_sig_bounds(x);
                    vstd::arithmetic::power2::lemma_pow2_pos((x.precision - 1) as nat);
                    if x.lsb_exp() >= 0 {
                        let k = x.lsb_exp() as nat;
                        vstd::arithmetic::power2::lemma_pow2_pos(k);
                        assert((-sg) * vstd::arithmetic::power2::pow2(k) < 0) by (nonlinear_arith)
                            requires sg > 0, vstd::arithmetic::power2::pow2(k) > 0;
                    } else {
                        let k = (0 - x.lsb_exp()) as nat;
                        vstd::arithmetic::power2::lemma_pow2_pos(k);
                        assert(1 * vstd::arithmetic::power2::pow2(k) > 0) by (nonlinear_arith)
                            requires vstd::arithmetic::power2::pow2(k) > 0;
                    }
                }
            }
            x
        },
        Err(_) => {
            proof {
                vstd::arithmetic::power2::lemma2_to64();
                crate::round::lemma_bits_unique(1, 1);
            }
            proof { assert(false); }
            BigFloat { class: Class::Zero { sign: Sign::Positive }, precision: p }
        },
    }
}

/// The exact value one has exponent 0 and significand `2^(p-1)`.
proof fn lemma_one_fields(one: BigFloat)
    requires
        one.wf(),
        finite_value_is(one, 1, 0),
    ensures
        one.class->Normal_exponent == 0,
        one.sig() == vstd::arithmetic::power2::pow2((one.precision - 1) as nat),
{
    let p = one.precision;
    crate::float::lemma_sig_bounds(one);
    let e = one.class->Normal_exponent;
    let lsb = one.lsb_exp();
    lemma_pow2_pos((p - 1) as nat);
    lemma2_to64();
    if one.spec_neg() {
        if lsb >= 0 {
            lemma_pow2_pos(lsb as nat);
            assert((-(one.sig() as int)) * pow2(lsb as nat) < 0) by (nonlinear_arith)
                requires one.sig() > 0, pow2(lsb as nat) > 0;
        } else {
            lemma_pow2_pos((-lsb) as nat);
            assert(1 * pow2((-lsb) as nat) > 0) by (nonlinear_arith)
                requires pow2((-lsb) as nat) > 0;
        }
    }
    if lsb >= 0 {
        if lsb > 0 {
            lemma_pow2_pos(lsb as nat);
            assert(one.sig() * pow2(lsb as nat) >= pow2(lsb as nat)) by (nonlinear_arith)
                requires one.sig() >= 1;
            lemma_pow2_strictly_increases(0, lsb as nat);
        }
        assert(one.sig() == 1) by (nonlinear_arith)
            requires one.sig() * pow2(lsb as nat) == 1, pow2(0) == 1, lsb == 0;
        crate::round::lemma_bits_unique(1, 1);
    } else {
        let kk = (-lsb) as nat;
        assert(one.sig() == pow2(kk)) by (nonlinear_arith)
            requires one.sig() as int == 1 * pow2(kk);
        if kk < (p - 1) as nat {
            lemma_pow2_strictly_increases(kk, (p - 1) as nat);
        }
        if kk > (p - 1) as nat {
            if kk > p as nat {
                lemma_pow2_strictly_increases(p as nat, kk);
            }
        }
    }
}

proof fn lemma_small_rounding_in_range(n: nat, p: nat)
    requires
        0 < n < 0x1_0000_0000_0000_0000,
        prec_ok(p),
    ensures
        ({
            let (sg, e) = crate::round::rounded(n, false, 0, p, false, RoundingMode::NearestEven);
            EXP_MIN <= e <= EXP_MAX
        }),
        ({
            let (sg, e) = crate::round::rounded(n, false, 0, p, true, RoundingMode::NearestEven);
            EXP_MIN <= e <= EXP_MAX
        }),
{
    vstd::arithmetic::power2::lemma2_to64();
    crate::round::lemma_bits_le(n, 64);
    crate::round::lemma_bits_bounds(n);
}

/// `r` with status `st` is `x` rounded to `p` bits under `mode`:
/// zeros and infinities are kept, a NaN keeps its quietness and sign.
pub open spec fn rounds_to(x: BigFloat, p: nat, mode: RoundingMode, r: BigFloat, st: Status) -> bool {
    &&& r.wf()
    &&& r.precision == p
    &&& (x.class is Normal ==> round_result(r, st, x.sig(), false, x.lsb_exp(), p, x.spec_neg(), mode))
    &&& (x.class is Zero ==> r.class == x.class && st.bits == 0)
    &&& (x.class is Infinity ==> r.class == x.class && st.bits == 0)
    &&& (x.class is Nan ==> r.class is Nan && r.class->Nan_quiet == x.class->Nan_quiet && r.spec_neg() == x.spec_neg() && st.bits == 0)
}

/// The flags a rounding can raise: none, INEXACT, or INEXACT with
/// OVERFLOW or UNDERFLOW; never INVALID or DIV_BY_ZERO.
pub open spec fn rounding_flags(st: Status) -> bool {
    st.bits == 0 || st.bits == FLAG_INEXACT || st.bits == (crate::types::FLAG_OVERFLOW | FLAG_INEXACT)
        || st.bits == (crate::types::FLAG_UNDERFLOW | FLAG_INEXACT)
}

/// `r` is `a + t` rounded to nearest at the operands' precision.
pub open spec fn added(a: BigFloat, t: BigFloat, r: BigFloat) -> bool {
    exists|st: Status| #[trigger] crate::arith::add_spec(a, t, r, st, crate::arith::op_precision(a, t) as nat, RoundingMode::NearestEven)
}

/// `r` is `a · b` rounded to nearest at the operands' precision.
pub open spec fn multiplied(a: BigFloat, b: BigFloat, r: BigFloat) -> bool {
    exists|st: Status| #[trigger] crate::arith::mul_spec(a, b, r, st, crate::arith::op_precision(a, b) as nat, RoundingMode::NearestEven)
}

/// `r` is `a / b` rounded to nearest at the operands' precision.
pub open spec fn divided(a: BigFloat, b: BigFloat, r: BigFloat) -> bool {
    exists|st: Status| #[trigger] crate::arith::div_spec(a, b, r, st, crate::arith::op_precision(a, b) as nat, RoundingMode::NearestEven)
}

/// `r` is `a − b` rounded to nearest at the operands' precision.
pub open spec fn subtracted(a: BigFloat, b: BigFloat, r: BigFloat) -> bool {
    exists|m: BigFloat, st: Status|
        #![trigger crate::arith::negation_of(m, b), crate::arith::add_spec(a, m, r, st, crate::arith::op_precision(a, b) as nat, RoundingMode::NearestEven)]
        crate::arith::negation_of(m, b)
        && crate::arith::add_spec(a, m, r, st, crate::arith::op_precision(a, b) as nat, RoundingMode::NearestEven)
}

/// `r` is `x` rounded to nearest at `p` bits.
pub open spec fn rounded_near(x: BigFloat, p: nat, r: BigFloat) -> bool {
    exists|st: Status| #[trigger] rounds_to(x, p, RoundingMode::NearestEven, r, st)
}

/// `accs` are the partial sums of `a + terms[0] + terms[1] + …`, each
/// sum rounded to nearest: `accs[0] = a`, `accs[i+1] = accs[i] + terms[i]`.
pub open spec fn sum_chain(a: BigFloat, terms: Seq<BigFloat>, accs: Seq<BigFloat>) -> bool {
    &&& accs.len() == terms.len() + 1
    &&& accs[0] == a
    &&& forall|i: int| 0 <= i < terms.len() ==> added(accs[i], #[trigger] terms[i], accs[i + 1])
}

/// `y` has the magnitude of `e`: the same class, precision, and
/// significand and exponent where normal; the signs may differ.
pub open spec fn same_magnitude(y: BigFloat, e: BigFloat) -> bool {
    &&& y.precision == e.precision
    &&& y.class is Normal == e.class is Normal
    &&& y.class is Zero == e.class is Zero
    &&& y.class is Infinity == e.class is Infinity
    &&& y.class is Nan == e.class is Nan
    &&& (e.class is Normal ==> y.sig() == e.sig() && y.class->Normal_exponent == e.class->Normal_exponent)
}

/// `accs` are `a − terms[0] − terms[1] − …`, each difference rounded
/// to nearest: `accs[0] = a`, `accs[i+1] = accs[i] − terms[i]`.
pub open spec fn diff_chain(a: BigFloat, terms: Seq<BigFloat>, accs: Seq<BigFloat>) -> bool {
    &&& accs.len() == terms.len() + 1
    &&& accs[0] == a
    &&& forall|i: int| 0 <= i < terms.len() ==> subtracted(accs[i], #[trigger] terms[i], accs[i + 1])
}

/// A chain of differences extends by one term.
pub proof fn lemma_diff_chain_push(a: BigFloat, terms: Seq<BigFloat>, accs: Seq<BigFloat>, t: BigFloat, next: BigFloat)
    requires
        diff_chain(a, terms, accs),
        subtracted(accs.last(), t, next),
    ensures
        diff_chain(a, terms.push(t), accs.push(next)),
{
    let terms2 = terms.push(t);
    let accs2 = accs.push(next);
    assert forall|i: int| 0 <= i < terms2.len() implies subtracted(accs2[i], #[trigger] terms2[i], accs2[i + 1]) by {
        if i < terms.len() {
            assert(terms2[i] == terms[i]);
            assert(accs2[i] == accs[i] && accs2[i + 1] == accs[i + 1]);
        }
    }
}

/// A chain of partial sums extends by one term.
pub proof fn lemma_sum_chain_push(a: BigFloat, terms: Seq<BigFloat>, accs: Seq<BigFloat>, t: BigFloat, next: BigFloat)
    requires
        sum_chain(a, terms, accs),
        added(accs.last(), t, next),
    ensures
        sum_chain(a, terms.push(t), accs.push(next)),
        accs.push(next).last() == next,
{
    let terms2 = terms.push(t);
    let accs2 = accs.push(next);
    assert forall|i: int| 0 <= i < terms2.len() implies added(accs2[i], #[trigger] terms2[i], accs2[i + 1]) by {
        if i < terms.len() {
            assert(terms2[i] == terms[i]);
            assert(accs2[i] == accs[i] && accs2[i + 1] == accs[i + 1]);
        }
    }
}

/// A rounding keeps the sign.
pub proof fn lemma_rounds_to_sign(x: BigFloat, p: nat, mode: RoundingMode, r: BigFloat, st: Status)
    requires
        rounds_to(x, p, mode, r, st),
    ensures
        r.spec_neg() == x.spec_neg(),
{
    if x.class is Normal {
        let (sg, e) = crate::round::rounded(x.sig(), false, x.lsb_exp(), p, x.spec_neg(), mode);
    }
}

/// A rounding raises only rounding flags.
pub proof fn lemma_rounds_to_flags(x: BigFloat, p: nat, mode: RoundingMode, r: BigFloat, st: Status)
    requires
        rounds_to(x, p, mode, r, st),
    ensures
        rounding_flags(st),
{
    if x.class is Normal {
        lemma_round_result_flags(r, st, x.sig(), false, x.lsb_exp(), p, x.spec_neg(), mode);
    }
}

/// A rounding raises only rounding flags.
pub proof fn lemma_round_result_flags(x: BigFloat, st: Status, n: nat, sticky: bool, e0: int, p: nat, neg: bool, mode: RoundingMode)
    requires
        round_result(x, st, n, sticky, e0, p, neg, mode),
    ensures
        rounding_flags(st),
{
    let (sg, e) = crate::round::rounded(n, sticky, e0, p, neg, mode);
}

/// `x` rounded to `p` bits under `mode`.
pub fn rnd(x: &BigFloat, p: u32, mode: RoundingMode) -> (r: (BigFloat, Status))
    requires
        x.wf(),
        prec_ok(p as nat),
    ensures
        rounds_to(*x, p as nat, mode, r.0, r.1),
        r.0.wf(),
        r.0.precision == p,
        x.class is Normal ==> round_result(r.0, r.1, x.sig(), false, x.lsb_exp(), p as nat, x.spec_neg(), mode),
        x.class is Zero ==> r.0.class == x.class && r.1.bits == 0,
        x.class is Infinity ==> r.0.class == x.class && r.1.bits == 0,
        x.class is Nan ==> r.0.class is Nan && r.0.class->Nan_quiet == x.class->Nan_quiet && r.0.spec_neg() == x.spec_neg() && r.1.bits == 0,
{
    match x.round_to_precision(p, mode) {
        Ok(v) => v,
        Err(_) => {
            proof { assert(false); }
            (x.dup(), Status { bits: 0 })
        },
    }
}

/// `x` rounded to nearest at `p` bits, as a value.
pub fn rne(x: &BigFloat, p: u32) -> (r: BigFloat)
    requires
        x.wf(),
        prec_ok(p as nat),
    ensures
        r.wf(),
        r.precision == p,
        x.class is Zero ==> r.class == x.class,
        r.spec_neg() == x.spec_neg(),
        exists|st: Status| rounds_to(*x, p as nat, RoundingMode::NearestEven, r, st),
{
    let (v, _) = rnd(x, p, RoundingMode::NearestEven);
    proof {
        if x.class is Normal {
            let (sg, e) = crate::round::rounded(x.sig(), false, x.lsb_exp(), p as nat, x.spec_neg(), RoundingMode::NearestEven);
        }
    }
    v
}

pub fn zero_at(sign: Sign, p: u32) -> (r: BigFloat)
    requires
        prec_ok(p as nat),
    ensures
        r.wf(),
        r.precision == p,
        r.class == (Class::Zero { sign }),
{
    BigFloat { class: Class::Zero { sign }, precision: p }
}

pub fn inf_at(sign: Sign, p: u32) -> (r: BigFloat)
    requires
        prec_ok(p as nat),
    ensures
        r.wf(),
        r.precision == p,
        r.class == (Class::Infinity { sign }),
{
    BigFloat { class: Class::Infinity { sign }, precision: p }
}

/// The default quiet NaN.
pub fn qnan_at(p: u32) -> (r: BigFloat)
    requires
        prec_ok(p as nat),
    ensures
        r.wf(),
        r.precision == p,
        r.class is Nan && r.class->Nan_quiet && !r.spec_neg(),
{
    BigFloat { class: Class::Nan { quiet: true, sign: Sign::Positive, payload: Vec::new() }, precision: p }
}

/// The binary exponent of a normal value; 0 otherwise.
pub fn exponent_of(x: &BigFloat) -> (r: i64)
    ensures
        x.class is Normal ==> r == x.class->Normal_exponent,
        !(x.class is Normal) ==> r == 0,
{
    match &x.class {
        Class::Normal { exponent, .. } => *exponent,
        _ => 0,
    }
}

/// The directed modes swapped, the others kept.
pub open spec fn mirrored_mode(mode: RoundingMode) -> RoundingMode {
    match mode {
        RoundingMode::TowardPositive => RoundingMode::TowardNegative,
        RoundingMode::TowardNegative => RoundingMode::TowardPositive,
        m => m,
    }
}

/// The mode that rounds `-v` as `mode` rounds `v`.
pub fn mirror_mode_for_negation(mode: RoundingMode) -> (r: RoundingMode)
    ensures
        r == mirrored_mode(mode),
{
    match mode {
        RoundingMode::TowardPositive => RoundingMode::TowardNegative,
        RoundingMode::TowardNegative => RoundingMode::TowardPositive,
        m => m,
    }
}

/// `r` is `±sig·2^lsb` moved by an infinitesimal (toward zero when
/// `shrinks` holds, away from zero otherwise) and rounded to `p` bits
/// under `mode`.
pub open spec fn nudged_parts(sig: nat, lsb: int, neg: bool, shrinks: bool, p: nat, mode: RoundingMode, r: BigFloat, st: Status) -> bool {
    round_result(r, st, (sig * vstd::arithmetic::power2::pow2(p + 3) - (if shrinks { 1int } else { 0 })) as nat,
        true, lsb - (p + 3), p, neg, mode)
}

/// `r` is `v` moved by an infinitesimal and rounded to `p` bits.
pub open spec fn nudged(v: BigFloat, shrinks: bool, p: nat, mode: RoundingMode, r: BigFloat, st: Status) -> bool {
    nudged_parts(v.sig(), v.lsb_exp(), v.spec_neg(), shrinks, p, mode, r, st)
}

/// `v` perturbed by an infinitesimal, rounded to `p` bits: the
/// infinitesimal shrinks the magnitude when `shrinks` holds and grows it
/// otherwise.  The result is `(n + δ)·2^e0` with `n` the significand of
/// `v` scaled by `2^(p+3)`, less one when shrinking.
pub fn round_with_infinitesimal(v: &BigFloat, shrinks: bool, p: u32, mode: RoundingMode) -> (r: (BigFloat, Status))
    requires
        v.wf(),
        v.class is Normal,
        prec_ok(p as nat),
    ensures
        round_result(r.0, r.1, (v.sig() * vstd::arithmetic::power2::pow2(p as nat + 3) - (if shrinks { 1int } else { 0 })) as nat,
            true, v.lsb_exp() - (p as nat + 3), p as nat, v.spec_neg(), mode),
        nudged(*v, shrinks, p as nat, mode, r.0, r.1),
{
    crate::arith::nudge(v, shrinks, p, mode)
}

/// The outcome every NaN input of a one-argument function gets.
pub fn nan_in(x: &BigFloat, p: u32) -> (r: (BigFloat, Status))
    requires
        x.wf(),
        x.class is Nan,
        prec_ok(p as nat),
    ensures
        nan_result(r.0, r.1, *x, p as nat),
{
    x.nan_out(p)
}

/// The value `nat_of(limbs) · 2^(top - 64·len + 1)` of a stored
/// constant, rounded to nearest at `p` bits.
fn from_table(limbs: Vec<u64>, top: i64, p: u32) -> (r: BigFloat)
    requires
        prec_ok(p as nat),
        limbs.len() == 16 || limbs.len() == 64,
        -1000 <= top <= 1000,
    ensures
        r.wf(),
        r.precision == p,
{
    if is_zero(&limbs) {
        return BigFloat { class: Class::Zero { sign: Sign::Positive }, precision: p };
    }
    let e0: i64 = top - 64 * (limbs.len() as i64) + 1;
    let (v, _) = round_sig(false, &limbs, false, e0 as i128, p, RoundingMode::NearestEven);
    v
}

fn ln2_limbs() -> (r: Vec<u64>)
    ensures
        r.len() == 16,
{
    vec![0xDA2D97C50F3FD5C6, 0x655FA1872F20E3A2, 0xF5DFA6BD38303248, 0x72CE87B19D6548CA, 0x256FA0EC7657F74B, 0xB9EA9BC3B136603B, 0x1ACBDA11317C387E, 0x3E96CA16224AE8C5, 0x27573B291169B825, 0xED2EAE35C1382144, 0x559552FB4AFA1B10, 0xE7B876206DEBAC98, 0x8A0D175B8BAAFA2B, 0x40F343267298B62D, 0xC9E3B39803F2F6AF, 0xB17217F7D1CF79AB]
}

fn pi_limbs() -> (r: Vec<u64>)
    ensures
        r.len() == 16,
{
    vec![0x98DA48361C55D39A, 0xC2007CB8A163BF05, 0x49286651ECE45B3D, 0xAE9F24117C4B1FE6, 0xEE386BFB5A899FA5, 0x0BFF5CB6F406B7ED, 0xF44C42E9A637ED6B, 0xE485B576625E7EC6, 0x4FE1356D6D51C245, 0x302B0A6DF25F1437, 0xEF9519B3CD3A431B, 0x514A08798E3404DD, 0x020BBEA63B139B22, 0x29024E088A67CC74, 0xC4C6628B80DC1CD1, 0xC90FDAA22168C234]
}

fn two_over_pi_limbs() -> (r: Vec<u64>)
    ensures
        r.len() == 64,
{
    vec![0x36D9CAD2A8288D61, 0x818D67C12645CA55, 0x6F63A62DCBBFF4EF, 0x78738A5A8CAFBDD7, 0x775C83C2A3883C61, 0x0AB499D3F2A6067F, 0x425FAECE616AA428, 0x4A48D36710D8DDAA, 0xF57FB0ADF2E91E43, 0x6212830148835B8E, 0x1DF35BE01834132E, 0x08CB7DE050C017A7, 0x4D58E232CAC616E3, 0x9BDE2822D2E88628, 0x5DD7DE16DE3B5892, 0xCDC4EF09366CD43F, 0x652289E83260BFE6, 0x9947FBACD87F7EB7, 0xFF319F6A1E666157, 0x1F001B0AF1DFCE19, 0x24778AD623545AB9, 0xD9D63B3884A7CB23, 0xB07AE715175649C0, 0x64ABD770F87C6357, 0x1810A3FC764D2A9D, 0xA7B4D55537F63ED7, 0x9B0062337CD2B497, 0x467D862D71E39AC6, 0xC4AD414D2C5D000C, 0x15C614B59D19C3C2, 0xFA6ED5772D30433B, 0x87F121907C7C246A, 0x9F3A1F35CAF27F1D, 0xC33D26EF6B1E5EF8, 0x32C2DE4F98327DBB, 0xA5FF07053F7E33E8, 0xDDAF44D15719053E, 0x8359C4768B961CA6, 0x19C367CDDCE8092A, 0x60E27BC08C6B47C4, 0x06061556CA73A8C9, 0x8DFFD8804D732731, 0x6599855F14A06840, 0xA9E391615EE61B08, 0xF0CFBC209AF4361D, 0x56033046FC7B6BAB, 0x6BFB5FB11F8D5D08, 0x3D0739F78A5292EA, 0x7527BAC7EBE5F17B, 0x4F463F669E5FEA2D, 0x6D367ECF27CB09B7, 0xEF2F118B5A0A6D1F, 0x1FF897FFDE05980F, 0x9C845F8BBDF9283B, 0x3991D639835339F4, 0xE99C7026B45F7E41, 0xE88235F52EBB4484, 0xFE1DEB1CB129A73E, 0x06492EEA09D1921C, 0xB7246E3A424DD2E0, 0xFE5163ABDEBBC561, 0xDB6295993C439041, 0xFC2757D1F534DDC0, 0xA2F9836E4E441529]
}

/// `Σ_{k≥0} (±1)^k / ((2k+1) q^(2k+1))`: `atanh(1/q)`, or `atan(1/q)`
/// when `alternating`, at working precision `w`.
pub fn inverse_odd_series(q: i64, alternating: bool, w: u32) -> (r: BigFloat)
    requires
        prec_ok(w as nat),
        2 <= q <= 1000,
    ensures
        r.wf(),
{
    let one = one_at(w);
    let qb = int_at(q, w);
    assert(q * q <= 1000000) by (nonlinear_arith) requires 2 <= q <= 1000;
    let q2 = int_at(q * q, w);
    let (mut term, _) = one.div(&qb, RoundingMode::NearestEven);
    let mut sum = term.dup();
    let max_iter: u64 = 2 * (w as u64) + 16;
    let mut k: u64 = 1;
    let limit: i64 = -(w as i64) - 8;
    while k < max_iter
        invariant
            prec_ok(w as nat),
            term.wf(),
            sum.wf(),
            q2.wf(),
            max_iter == 2 * (w as u64) + 16,
        decreases max_iter - k,
    {
        let (t1, _) = term.div(&q2, RoundingMode::NearestEven);
        term = t1;
        let d = int_at((2 * k + 1) as i64, w);
        let (t2, _) = term.div(&d, RoundingMode::NearestEven);
        let (s2, _) = if alternating && k % 2 == 1 {
            sum.sub(&t2, RoundingMode::NearestEven)
        } else {
            sum.add(&t2, RoundingMode::NearestEven)
        };
        sum = s2;
        if !term.is_normal() || exponent_of(&term) < limit {
            break;
        }
        k = k + 1;
    }
    sum
}

/// `ln 2` by `2·atanh(1/3)` at precision `p`.
fn ln_2_series(p: u32) -> (r: BigFloat)
    requires
        prec_ok(p as nat),
    ensures
        r.wf(),
        r.precision == p,
{
    let w = wadd(p, 32);
    let s = inverse_odd_series(3, false, w);
    let two = int_at(2, w);
    let (v, _) = two.mul(&s, RoundingMode::NearestEven);
    rne(&v, p)
}

/// `π` by Machin's formula `16·atan(1/5) − 4·atan(1/239)` at
/// precision `p`.
fn pi_series(p: u32) -> (r: BigFloat)
    requires
        prec_ok(p as nat),
    ensures
        r.wf(),
        r.precision == p,
{
    let w = wadd(p, 32);
    let a = inverse_odd_series(5, true, w);
    let b = inverse_odd_series(239, true, w);
    let (a16, _) = a.mul(&int_at(16, w), RoundingMode::NearestEven);
    let (b4, _) = b.mul(&int_at(4, w), RoundingMode::NearestEven);
    let (v, _) = a16.sub(&b4, RoundingMode::NearestEven);
    rne(&v, p)
}

fn two_over_sqrt_pi_limbs() -> (r: Vec<u64>)
    ensures
        r.len() == 16,
{
    vec![0x18D3E91ADCFF6C04, 0x50754B409E94D32D, 0xAC2C88BBBA81B1C7, 0xEB9FEB2436F2F272, 0xD27A3282DADA7316, 0x9522F2F93E16B2A3, 0x9C22F47F7B7FB57C, 0x52561DCC244DC65E, 0x74F76F877FFEC251, 0xBD1F4EEE48E1CA78, 0x40C036096CC79AEB, 0xC0759CF859270F11, 0x39A15830CCE620B0, 0x1409A0EBAC3E7517, 0x71D48A7F6BFEC344, 0x906EBA8214DB688D]
}

/// `2/√π` rounded to nearest at precision `p`: from the 1024-bit table,
/// or past it by Newton's iteration `y ← y + y·(1 − π·y²)/2` for
/// `y = 1/√π`, which doubles the correct bits per step.
pub fn two_over_sqrt_pi_at(p: u32) -> (r: BigFloat)
    requires
        prec_ok(p as nat),
    ensures
        r.wf(),
        r.precision == p,
{
    if p <= 1024 {
        return from_table(two_over_sqrt_pi_limbs(), 0, p);
    }
    let w = wadd(p, 32);
    let pi = pi_at(w);
    let one = one_at(w);
    let mut y = from_table(two_over_sqrt_pi_limbs(), -1, w);
    let mut correct: u64 = 1024;
    let mut steps: u32 = 0;
    while correct < w as u64 + 32 && steps < 24
        invariant
            prec_ok(w as nat),
            y.wf(),
            pi.wf(),
            one.wf(),
            correct <= 0x4000_0000,
        decreases 24 - steps,
    {
        steps = steps + 1;
        let (t, _) = y.mul(&y, RoundingMode::NearestEven);
        let (u, _) = pi.mul(&t, RoundingMode::NearestEven);
        let (d, _) = one.sub(&u, RoundingMode::NearestEven);
        let (e, _) = y.mul(&d, RoundingMode::NearestEven);
        let (f, _) = e.scale_by_pow2(-1);
        let (y2, _) = y.add(&f, RoundingMode::NearestEven);
        y = y2;
        correct = 2 * correct;
    }
    let (v, _) = y.scale_by_pow2(1);
    rne(&v, p)
}

fn ln_2pi_limbs() -> (r: Vec<u64>)
    ensures
        r.len() == 16,
{
    vec![0x3BD6E6FBA48AA194, 0x54B6D36BEE63E04A, 0xC525605F70BB125E, 0xDED77FBEC954A0AF, 0x27086C366978E17E, 0x9254D1304A59FB7E, 0x307D867635C11696, 0x926770ECA54487A7, 0xCF66ECE1772BADF2, 0xB05CAB571B4CDA5B, 0x93EABF905C5569BB, 0x212F9D7FE00E86BF, 0xDEC6A3133DAA155D, 0xCFB08F8D13458B4D, 0x94BC900144192023, 0xEB3F8E4325F5A534]
}

/// `ln(2π)` rounded to nearest at precision `p`: from the 1024-bit
/// table, or past it as `ln 2 + ln π`.
pub fn ln_2pi_at(p: u32) -> (r: BigFloat)
    requires
        prec_ok(p as nat),
    ensures
        r.wf(),
        r.precision == p,
{
    if p <= 1024 {
        return from_table(ln_2pi_limbs(), 0, p);
    }
    let w = wadd(p, 32);
    let (ln_pi, _) = pi_at(w).ln(RoundingMode::NearestEven);
    let (v, _) = ln_2_at(w).add(&ln_pi, RoundingMode::NearestEven);
    rne(&v, p)
}

fn euler_gamma_limbs() -> (r: Vec<u64>)
    ensures
        r.len() == 16,
{
    vec![0x961542A3CE3BEA5E, 0x5E6AC2F0BD61C746, 0x3EC7C27182797722, 0xD2A1EA1DE62FF864, 0x0C09D4C8B6B7B86F, 0x8A96D1567899AAAE, 0xDBE7BF38154B36CF, 0x58DEB878CC86D733, 0xE43B4673D74BAFEA, 0x1056AE9132135A08, 0xD0649CCB621057D1, 0x8E4B59FA03A9F0EE, 0x0C03DF34709AFFBD, 0xA1CECC3AF65CC019, 0xD1BE3F810152CB56, 0x93C467E37DB0C7A4]
}

/// Euler's constant `γ` by the Brent–McMillan formula `γ ≈ U/V − ln n`
/// with `V = Σ (n^k/k!)²` and `U = Σ (n^k/k!)²·H_k`, `n` chosen so that
/// the error `π·e^(−4n)` lies below `2^−w`.
fn euler_gamma_brent_mcmillan(p: u32) -> (r: BigFloat)
    requires
        prec_ok(p as nat),
    ensures
        r.wf(),
        r.precision == p,
{
    let w = wadd(p, 64);
    let n: u64 = (w as u64) * 7 / 40 + 2;
    let nb = int_at(n as i64, w);
    let (n_sq, _) = nb.mul(&nb, RoundingMode::NearestEven);
    let (ln_n, _) = nb.ln(RoundingMode::NearestEven);
    let mut a = ln_n.negated();
    let mut b = one_at(w);
    let mut u = a.dup();
    let mut v = b.dup();
    let max_iter: u64 = 4 * n + 16;
    let limit: i64 = -(w as i64) - 8;
    let mut k: u64 = 1;
    while k <= max_iter
        invariant
            prec_ok(w as nat),
            n_sq.wf(),
            a.wf(),
            b.wf(),
            u.wf(),
            v.wf(),
            max_iter <= 0x1000_0000,
        decreases max_iter + 1 - k,
    {
        let kb = int_at(k as i64, w);
        let (k_sq, _) = kb.mul(&kb, RoundingMode::NearestEven);
        let (b1, _) = b.mul(&n_sq, RoundingMode::NearestEven);
        let (b2, _) = b1.div(&k_sq, RoundingMode::NearestEven);
        b = b2;
        let (a1, _) = a.mul(&n_sq, RoundingMode::NearestEven);
        let (a2, _) = a1.div(&kb, RoundingMode::NearestEven);
        let (a3, _) = a2.add(&b, RoundingMode::NearestEven);
        let (a4, _) = a3.div(&kb, RoundingMode::NearestEven);
        a = a4;
        let (u2, _) = u.add(&a, RoundingMode::NearestEven);
        u = u2;
        let (v2, _) = v.add(&b, RoundingMode::NearestEven);
        v = v2;
        let small_b = !b.is_normal() || (v.is_normal() && (exponent_of(&b) as i128) - (exponent_of(&v) as i128) < limit as i128);
        let small_a = !a.is_normal() || (u.is_normal() && (exponent_of(&a) as i128) - (exponent_of(&u) as i128) < limit as i128);
        if k > n && small_a && small_b {
            break;
        }
        k = k + 1;
    }
    let (g, _) = u.div(&v, RoundingMode::NearestEven);
    rne(&g, p)
}

/// Euler's constant `γ` rounded to nearest at precision `p`: from the
/// 1024-bit table, or past it by Brent–McMillan.
pub fn euler_gamma_at(p: u32) -> (r: BigFloat)
    requires
        prec_ok(p as nat),
    ensures
        r.wf(),
        r.precision == p,
{
    if p <= 1024 {
        from_table(euler_gamma_limbs(), -1, p)
    } else {
        euler_gamma_brent_mcmillan(p)
    }
}

/// `±π/2` at working precision `w`: the magnitude of
/// [`pi_over_2_at`] with the sign asked for.
pub fn signed_pi_over_2_at_w(negative: bool, w: u32) -> (y: BigFloat)
    requires
        prec_ok(w as nat),
    ensures
        y.wf(),
        y.spec_neg() == negative,
{
    let v = pi_over_2_at(w).abs();
    if negative { v.negated() } else { v }
}

/// `r` is [`signed_pi_over_2_at_w`] at a working precision of the Ziv
/// schedule, rounded to `p` bits under `mode`.
pub open spec fn signed_pi_over_2_value(negative: bool, r: BigFloat, st: Status, p: nat, mode: RoundingMode) -> bool {
    exists|w: u32, y: BigFloat| #[trigger] call_ensures(signed_pi_over_2_at_w, (negative, w), y)
        && ziv::ziv_on_schedule(w as int, p as int) && rounds_to(y, p, mode, r, st)
}

/// `±π/2` rounded under `mode` to `p` bits; the sign is the
/// one asked for.
pub fn signed_pi_over_2_round(negative: bool, p: u32, mode: RoundingMode) -> (r: (BigFloat, Status))
    requires
        prec_ok(p as nat),
    ensures
        r.0.wf(),
        r.0.precision == p,
        r.0.spec_neg() == negative,
        signed_pi_over_2_value(negative, r.0, r.1, p as nat, mode),
{
    let eval = |w: u32| -> (y: BigFloat)
        requires
            prec_ok(w as nat),
        ensures
            y.wf(),
            y.spec_neg() == negative,
            call_ensures(signed_pi_over_2_at_w, (negative, w), y),
    {
        signed_pi_over_2_at_w(negative, w)
    };
    let (r, st) = ziv::ziv_round(eval, p, mode, ziv::DEFAULT_ERROR_GUARD);
    proof {
        let (w, y) = choose|w: u32, y: BigFloat| #[trigger] eval.ensures((w,), y) && rounds_to(y, p as nat, mode, r, st);
        assert(y.spec_neg() == negative);
        let t = choose|t: ziv::ZivTrace| t.0 == r && t.1 == st && #[trigger] ziv::is_trace_of(eval, p as nat, mode, t)
            && ziv::ziv_on_schedule(t.2 as int, p as int);
        assert(call_ensures(signed_pi_over_2_at_w, (negative, t.2), t.3));
        assert(rounds_to(t.3, p as nat, mode, r, st));
    }
    (r, st)
}

/// `ln 2` rounded to nearest at precision `p`.
pub fn ln_2_at(p: u32) -> (r: BigFloat)
    requires
        prec_ok(p as nat),
    ensures
        r.wf(),
        r.precision == p,
{
    if p <= 1024 {
        from_table(ln2_limbs(), -1, p)
    } else {
        ln_2_series(p)
    }
}

/// `ln 10 = 3·ln 2 + 2·atanh(1/9)` rounded to nearest at precision `p`.
pub fn ln_10_at(p: u32) -> (r: BigFloat)
    requires
        prec_ok(p as nat),
    ensures
        r.wf(),
        r.precision == p,
{
    let w = wadd(p, 32);
    let l2 = ln_2_at(w);
    let s = inverse_odd_series(9, false, w);
    let (a, _) = l2.mul(&int_at(3, w), RoundingMode::NearestEven);
    let (b, _) = s.mul(&int_at(2, w), RoundingMode::NearestEven);
    let (v, _) = a.add(&b, RoundingMode::NearestEven);
    rne(&v, p)
}

/// `π` rounded to nearest at precision `p`.
pub fn pi_at(p: u32) -> (r: BigFloat)
    requires
        prec_ok(p as nat),
    ensures
        r.wf(),
        r.precision == p,
{
    if p <= 1024 {
        from_table(pi_limbs(), 1, p)
    } else {
        pi_series(p)
    }
}

/// `π/2` rounded to nearest at precision `p`.
pub fn pi_over_2_at(p: u32) -> (r: BigFloat)
    requires
        prec_ok(p as nat),
    ensures
        r.wf(),
        r.precision == p,
{
    if p <= 1024 {
        from_table(pi_limbs(), 0, p)
    } else {
        let v = pi_series(p);
        v.scale_by_pow2(-1).0
    }
}

/// `2/π` rounded to nearest at precision `p`.
pub fn two_over_pi_at(p: u32) -> (r: BigFloat)
    requires
        prec_ok(p as nat),
    ensures
        r.wf(),
        r.precision == p,
{
    if p <= 4096 {
        from_table(two_over_pi_limbs(), -1, p)
    } else {
        let w = wadd(p, 32);
        let pi = pi_series(w);
        let (v, _) = int_at(2, w).div(&pi, RoundingMode::NearestEven);
        rne(&v, p)
    }
}

/// A transcendental value at a finite nonzero argument is never exact:
/// a normal result carries INEXACT.
pub fn force_inexact(r: &BigFloat, st: Status) -> (s: Status)
    ensures
        r.class is Normal ==> s.bits == st.bits | FLAG_INEXACT,
        !(r.class is Normal) ==> s == st,
{
    if r.is_normal() {
        st.merge(Status { bits: FLAG_INEXACT })
    } else {
        st
    }
}

/// Whether `x` is a normal value whose significand is `2^(p-1)`: a
/// signed power of two.
pub fn sig_is_pow2(x: &BigFloat) -> (r: bool)
    requires
        x.wf(),
    ensures
        r == (x.class is Normal && x.sig() == vstd::arithmetic::power2::pow2((x.precision - 1) as nat)),
{
    match &x.class {
        Class::Normal { mantissa, .. } => {
            let s = crate::float::sig_limbs(mantissa, x.precision);
            let t = crate::round::pow2_limbs(x.precision - 1);
            !crate::limbs::lt(&s, &t) && !crate::limbs::lt(&t, &s)
        },
        _ => false,
    }
}

/// `x` is `±1` with the given sign: a normal value of exponent 0 whose
/// significand is `2^(p-1)`.
pub open spec fn is_unit(x: BigFloat, neg: bool) -> bool {
    &&& x.class is Normal
    &&& x.spec_neg() == neg
    &&& x.class->Normal_exponent == 0
    &&& x.sig() == vstd::arithmetic::power2::pow2((x.precision - 1) as nat)
}

/// Whether `x` is `±1` with the given sign.
pub fn is_unit_exec(x: &BigFloat, neg: bool) -> (r: bool)
    requires
        x.wf(),
    ensures
        r == is_unit(*x, neg),
{
    match &x.class {
        Class::Normal { sign, exponent, mantissa } => {
            let sn = match sign { Sign::Negative => true, Sign::Positive => false };
            if sn != neg || *exponent != 0 {
                return false;
            }
            let s = crate::float::sig_limbs(mantissa, x.precision);
            let t = crate::round::pow2_limbs(x.precision - 1);
            !crate::limbs::lt(&s, &t) && !crate::limbs::lt(&t, &s)
        },
        _ => false,
    }
}

} // verus!

//! `Γ(x)`: exact factorials at small positive integers, otherwise
//! `±exp(lgamma(x))` with the sign of `sin πx` on the negative axis;
//! rounded through the Ziv driver.

use vstd::prelude::*;
use crate::types::{BigFloat, BuildError, Class, Sign, RoundingMode, Status, FLAG_INVALID, FLAG_DIV_BY_ZERO, FLAG_INEXACT, prec_ok};
use crate::float::nan_result;
use crate::fixed::FixedFloat;
use super::{int_at, one_at, inf_at, qnan_at, nan_in, pi_at, force_inexact};
use super::exp::{has_inexact, abs_floor};
use super::pow::int_value;
use super::lgamma::{is_integer, lgamma_special};
use super::rounds_to;
use super::ziv::{ziv_round, DEFAULT_ERROR_GUARD, ZivTrace, is_trace_of, ziv_on_schedule};
use crate::types::{MAX_PRECISION, EXP_MIN, EXP_MAX};
use crate::round::{bits, rounded, round_result, rounding_inexact, drop_bits, lemma_bits_bounds, lemma_bits_unique, lemma_bits_le, lemma_exact_rounding};
use crate::float::{finite_value_is, lemma_sig_bounds};
use crate::arith::{order_of, sgn, signed_sig, low_exp, below_sight, aligned_sum};
use vstd::arithmetic::power2::{pow2, lemma_pow2_adds, lemma_pow2_pos, lemma2_to64};
use vstd::arithmetic::div_mod::{lemma_mod_multiples_basic, lemma_fundamental_div_mod, lemma_fundamental_div_mod_converse};

verus! {

/// Guard bits charged to one evaluation of the gamma kernel.
pub const GAMMA_ERROR_GUARD: u32 = DEFAULT_ERROR_GUARD;

/// The outcome `gamma` promises: NaNs propagate, `Γ(±0) = ±∞` with
/// DIV_BY_ZERO, `Γ(+∞) = +∞`, and `−∞` and the negative integers give
/// a quiet NaN with INVALID.
pub open spec fn gamma_special(x: BigFloat, r: BigFloat, st: Status, p: nat) -> bool {
    &&& (x.class is Nan ==> nan_result(r, st, x, p))
    &&& (x.class is Zero ==> r.class == (Class::Infinity { sign: x.class->Zero_sign }) && st.bits == FLAG_DIV_BY_ZERO)
    &&& (x.class == (Class::Infinity { sign: Sign::Positive }) ==> r.class == x.class && st.bits == 0)
    &&& ((x.class == (Class::Infinity { sign: Sign::Negative }) || (x.class is Normal && x.spec_neg() && int_value(x) is Some))
        ==> r.class is Nan && r.class->Nan_quiet && !r.spec_neg() && st.bits == FLAG_INVALID)
}

/// `n! = 1·2·…·n`.
pub open spec fn factorial(n: nat) -> nat
    decreases n,
{
    if n == 0 {
        1
    } else {
        n * factorial((n - 1) as nat)
    }
}

/// `v` has no set bit below its top `p` bits: it is exact at `p` bits.
pub open spec fn int_exact(v: nat, p: nat) -> bool {
    !rounding_inexact(v, false, p)
}

/// `j!` is exact at `p` bits.
pub open spec fn factorial_exact(j: nat, p: nat) -> bool {
    int_exact(factorial(j), p)
}

/// The inputs on which the exact factorial path succeeds: a positive
/// integer `n ≤ 513` such that every partial product `j!` (`j < n`)
/// and every factor `j` (`3 ≤ j ≤ n`) is exact at `p` bits.
pub open spec fn factorial_fits(x: BigFloat, p: nat) -> bool {
    int_value(x) matches Some(n) && 1 <= n <= 513
        && (forall|j: nat| 2 <= j < n ==> #[trigger] factorial_exact(j, p))
        && (forall|j: nat| 3 <= j <= n ==> #[trigger] int_exact(j, p))
}

/// `m · 2^e0 == v`, written without fractions.
pub open spec fn scaled_is(m: int, e0: int, v: int) -> bool {
    if e0 >= 0 {
        m * pow2(e0 as nat) == v
    } else {
        m == v * pow2((-e0) as nat)
    }
}

proof fn lemma_scaled_shift(m: int, e0: int, v: int, d: nat)
    requires
        scaled_is(m, e0, v),
    ensures
        scaled_is(m * pow2(d), e0 - d, v),
{
    if e0 >= 0 {
        if e0 - d >= 0 {
            lemma_pow2_adds(d, (e0 - d) as nat);
            assert(m * pow2(d) * pow2((e0 - d) as nat) == v) by (nonlinear_arith)
                requires
                    m * pow2(e0 as nat) == v,
                    pow2(e0 as nat) == pow2(d) * pow2((e0 - d) as nat);
        } else {
            lemma_pow2_adds(e0 as nat, (d - e0) as nat);
            assert(m * pow2(d) == v * pow2((d - e0) as nat)) by (nonlinear_arith)
                requires
                    m * pow2(e0 as nat) == v,
                    pow2(d) == pow2(e0 as nat) * pow2((d - e0) as nat);
        }
    } else {
        lemma_pow2_adds((-e0) as nat, d);
        assert(m * pow2(d) == v * pow2((d - e0) as nat)) by (nonlinear_arith)
            requires
                m == v * pow2((-e0) as nat),
                pow2((d - e0) as nat) == pow2((-e0) as nat) * pow2(d);
    }
}

proof fn lemma_scaled_add(a: int, b: int, e: int, va: int, vb: int)
    requires
        scaled_is(a, e, va),
        scaled_is(b, e, vb),
    ensures
        scaled_is(a + b, e, va + vb),
{
    if e >= 0 {
        assert((a + b) * pow2(e as nat) == va + vb) by (nonlinear_arith)
            requires
                a * pow2(e as nat) == va,
                b * pow2(e as nat) == vb;
    } else {
        assert(a + b == (va + vb) * pow2((-e) as nat)) by (nonlinear_arith)
            requires
                a == va * pow2((-e) as nat),
                b == vb * pow2((-e) as nat);
    }
}

proof fn lemma_scaled_mul_mixed(a: int, ea: int, va: int, b: int, eb: int, vb: int)
    requires
        ea >= 0,
        eb < 0,
        scaled_is(a, ea, va),
        scaled_is(b, eb, vb),
    ensures
        scaled_is(a * b, ea + eb, va * vb),
{
    let k = (-eb) as nat;
    if ea + eb >= 0 {
        let c = (ea + eb) as nat;
        lemma_pow2_adds(c, k);
        assert(a * b * pow2(c) == va * vb) by (nonlinear_arith)
            requires
                a * pow2(ea as nat) == va,
                b == vb * pow2(k),
                pow2(ea as nat) == pow2(c) * pow2(k);
    } else {
        let c = (-(ea + eb)) as nat;
        lemma_pow2_adds(ea as nat, c);
        assert(a * b == va * vb * pow2(c)) by (nonlinear_arith)
            requires
                a * pow2(ea as nat) == va,
                b == vb * pow2(k),
                pow2(k) == pow2(ea as nat) * pow2(c);
    }
}

pub proof fn lemma_scaled_mul(a: int, ea: int, va: int, b: int, eb: int, vb: int)
    requires
        scaled_is(a, ea, va),
        scaled_is(b, eb, vb),
    ensures
        scaled_is(a * b, ea + eb, va * vb),
{
    if ea >= 0 && eb >= 0 {
        lemma_pow2_adds(ea as nat, eb as nat);
        assert(a * b * pow2((ea + eb) as nat) == va * vb) by (nonlinear_arith)
            requires
                a * pow2(ea as nat) == va,
                b * pow2(eb as nat) == vb,
                pow2((ea + eb) as nat) == pow2(ea as nat) * pow2(eb as nat);
    } else if ea < 0 && eb < 0 {
        lemma_pow2_adds((-ea) as nat, (-eb) as nat);
        assert(a * b == va * vb * pow2((-(ea + eb)) as nat)) by (nonlinear_arith)
            requires
                a == va * pow2((-ea) as nat),
                b == vb * pow2((-eb) as nat),
                pow2((-(ea + eb)) as nat) == pow2((-ea) as nat) * pow2((-eb) as nat);
    } else if ea >= 0 {
        lemma_scaled_mul_mixed(a, ea, va, b, eb, vb);
    } else {
        lemma_scaled_mul_mixed(b, eb, vb, a, ea, va);
        assert(b * a == a * b) by (nonlinear_arith);
        assert(vb * va == va * vb) by (nonlinear_arith);
    }
}

/// Shifting left by `k` adds `k` bits.
proof fn lemma_bits_shift(m: nat, k: nat)
    requires
        m > 0,
    ensures
        bits(m * pow2(k)) == bits(m) + k,
{
    lemma_bits_bounds(m);
    let b = bits(m);
    lemma_pow2_adds((b - 1) as nat, k);
    lemma_pow2_adds(b, k);
    lemma_pow2_pos(k);
    assert(pow2((b - 1) as nat) * pow2(k) <= m * pow2(k)) by (nonlinear_arith)
        requires
            pow2((b - 1) as nat) <= m,
            pow2(k) > 0;
    assert(m * pow2(k) < pow2(b) * pow2(k)) by (nonlinear_arith)
        requires
            m < pow2(b),
            pow2(k) > 0;
    assert((b - 1) as nat + k == (b + k - 1) as nat);
    lemma_bits_unique(m * pow2(k), b + k);
}

pub proof fn lemma_bits_mono(a: nat, b: nat)
    requires
        0 < a <= b,
    ensures
        bits(a) <= bits(b),
{
    lemma_bits_bounds(b);
    lemma_bits_le(a, bits(b));
}

/// Rounding a positive integer of at most `p` bits is exact: the
/// result carries the integer and no flag.
pub proof fn lemma_round_integer(r: BigFloat, st: Status, m: nat, e0: int, p: nat, mode: RoundingMode, v: nat)
    requires
        round_result(r, st, m, false, e0, p, false, mode),
        m > 0,
        v > 0,
        1 <= p <= MAX_PRECISION,
        bits(v) <= p,
        scaled_is(m as int, e0, v as int),
    ensures
        r.class is Normal,
        !r.spec_neg(),
        st.bits == 0,
        r.class->Normal_exponent == bits(v) - 1,
        finite_value_is(r, v as int, 0),
{
    if e0 >= 0 {
        lemma_bits_shift(m, e0 as nat);
        assert(bits(m) <= p);
        assert(!rounding_inexact(m, false, p));
    } else {
        let k = (-e0) as nat;
        lemma_bits_shift(v, k);
        if bits(m) > p {
            let s = drop_bits(m, p);
            assert(s <= k);
            lemma_pow2_adds((k - s) as nat, s);
            lemma_pow2_pos(s);
            let q = v * pow2((k - s) as nat);
            assert(m == q * pow2(s)) by (nonlinear_arith)
                requires
                    m == v * pow2(k),
                    pow2(k) == pow2((k - s) as nat) * pow2(s),
                    q == v * pow2((k - s) as nat);
            lemma_mod_multiples_basic(q as int, pow2(s) as int);
        }
        assert(!rounding_inexact(m, false, p));
    }
    lemma_exact_rounding(m, e0, p, false, mode);
    lemma2_to64();
    let (sg, e) = rounded(m, false, e0, p, false, mode);
    assert(e == bits(v) - 1);
    lemma_bits_bounds(v);
    assert(EXP_MIN <= e <= EXP_MAX);
    let l = e - p + 1;
    let c = (-l) as nat;
    assert(r.sig() == sg);
    assert(r.lsb_exp() == l);
    if l >= e0 {
        let d = (l - e0) as nat;
        lemma_pow2_pos(d);
        if e0 >= 0 {
            assert(sg == v * pow2(c)) by (nonlinear_arith)
                requires
                    sg * pow2(d) == m,
                    m * pow2(e0 as nat) == v,
                    l == 0,
                    e0 == 0,
                    pow2(d) == 1,
                    pow2(c) == 1,
                    pow2(e0 as nat) == 1;
        } else {
            lemma_pow2_adds(c, d);
            assert(sg == v * pow2(c)) by (nonlinear_arith)
                requires
                    sg * pow2(d) == m,
                    m == v * pow2((-e0) as nat),
                    pow2((-e0) as nat) == pow2(c) * pow2(d),
                    pow2(d) > 0;
        }
    } else {
        let d = (e0 - l) as nat;
        if e0 >= 0 {
            lemma_pow2_adds(d, (-e0 + d) as nat);
            lemma_pow2_adds(e0 as nat, c);
            assert(sg == v * pow2(c)) by (nonlinear_arith)
                requires
                    sg == m * pow2(d),
                    m * pow2(e0 as nat) == v,
                    pow2(d) == pow2(e0 as nat) * pow2(c);
        } else {
            lemma_pow2_adds((-e0) as nat, d);
            assert(sg == v * pow2(c)) by (nonlinear_arith)
                requires
                    sg == m * pow2(d),
                    m == v * pow2((-e0) as nat),
                    pow2(c) == pow2((-e0) as nat) * pow2(d);
        }
    }
    assert(!r.spec_neg());
    if l >= 0 {
        assert(l == 0);
        assert(c == 0);
        assert(pow2(c) == 1);
        assert(sg == v) by (nonlinear_arith)
            requires
                sg == v * pow2(c),
                pow2(c) == 1;
        assert((r.lsb_exp() - 0) as nat == 0);
        assert((r.sig() as int) * pow2(0) == v);
    } else {
        assert((r.sig() as int) == v * pow2((0 - r.lsb_exp()) as nat));
    }
}

/// A positive value `v` of a normal float sits in binade `bits(v) − 1`.
pub proof fn lemma_value_exponent(x: BigFloat, v: int)
    requires
        x.wf(),
        x.class is Normal,
        finite_value_is(x, v, 0),
        v > 0,
    ensures
        !x.spec_neg(),
        x.class->Normal_exponent == bits(v as nat) - 1,
{
    lemma_sig_bounds(x);
    let sg = x.sig();
    let l = x.lsb_exp();
    if l >= 0 {
        let k = l as nat;
        lemma_pow2_pos(k);
        if x.spec_neg() {
            assert((-(sg as int)) * pow2(k) < 0) by (nonlinear_arith)
                requires
                    sg > 0,
                    pow2(k) > 0;
        }
        lemma_bits_shift(sg, k);
    } else {
        let k = (-l) as nat;
        lemma_pow2_pos(k);
        if x.spec_neg() {
            assert(v * pow2(k) > 0) by (nonlinear_arith)
                requires
                    v > 0,
                    pow2(k) > 0;
        }
        lemma_bits_shift(v as nat, k);
    }
}

/// A nonnegative normal integer value is its own `finite_value_is`.
pub proof fn lemma_int_value_is(x: BigFloat, n: int)
    requires
        x.wf(),
        x.class is Normal,
        !x.spec_neg(),
        int_value(x) == Some(n),
    ensures
        finite_value_is(x, n, 0),
{
    let l = x.lsb_exp();
    if l < 0 {
        let k = (-l) as nat;
        lemma_pow2_pos(k);
        lemma_fundamental_div_mod(x.sig() as int, pow2(k) as int);
        assert(x.sig() == n * pow2(k)) by (nonlinear_arith)
            requires
                x.sig() == pow2(k) * (x.sig() / pow2(k)) + x.sig() % pow2(k),
                x.sig() % pow2(k) == 0,
                n == x.sig() / pow2(k);
    }
}

/// Comparing two values known as integers compares the integers.
proof fn lemma_order_of_values(k: BigFloat, j: int, x: BigFloat, n: int)
    requires
        k.wf(),
        x.wf(),
        k.class is Normal,
        x.class is Normal,
        !x.spec_neg(),
        n > 0,
        finite_value_is(k, j, 0),
        finite_value_is(x, n, 0),
    ensures
        order_of(k, x) == Some(sgn(j - n)),
{
    super::lemma_order_vs_ratio(k, x, n, 0);
    let t = k.lsb_exp();
    let s = signed_sig(k);
    if t < 0 {
        let c = (-t) as nat;
        lemma_pow2_pos(c);
        assert(s - n * pow2(c) == (j - n) * pow2(c)) by (nonlinear_arith)
            requires
                s == j * pow2(c);
        super::lemma_sgn_scale(j - n, pow2(c) as int);
    }
}

proof fn lemma_factorial_pos(n: nat)
    ensures
        factorial(n) >= 1,
    decreases n,
{
    if n > 0 {
        lemma_factorial_pos((n - 1) as nat);
        assert(n * factorial((n - 1) as nat) >= 1) by (nonlinear_arith)
            requires
                n >= 1,
                factorial((n - 1) as nat) >= 1;
    }
}

/// `a · 2^d · 2^e == v` gives `a · 2^(e+d) == v`.
proof fn lemma_scaled_unshift(a: int, e: int, v: int, d: nat)
    requires
        scaled_is(a * pow2(d), e, v),
    ensures
        scaled_is(a, e + d, v),
{
    lemma_pow2_pos(d);
    if e >= 0 {
        lemma_pow2_adds(d, e as nat);
        assert(a * pow2((e + d) as nat) == v) by (nonlinear_arith)
            requires
                a * pow2(d) * pow2(e as nat) == v,
                pow2((e + d) as nat) == pow2(d) * pow2(e as nat);
    } else if e + d >= 0 {
        let c = (e + d) as nat;
        lemma_pow2_adds(c, (-e) as nat);
        lemma_pow2_pos((-e) as nat);
        assert(a * pow2(c) == v) by (nonlinear_arith)
            requires
                a * pow2(d) == v * pow2((-e) as nat),
                pow2(d) == pow2(c) * pow2((-e) as nat),
                pow2((-e) as nat) > 0;
    } else {
        let c = (-(e + d)) as nat;
        lemma_pow2_adds(c, d);
        assert(a == v * pow2(c)) by (nonlinear_arith)
            requires
                a * pow2(d) == v * pow2((-e) as nat),
                pow2((-e) as nat) == pow2(c) * pow2(d),
                pow2(d) > 0;
    }
}

/// Trailing zeros do not change whether a rounding to `p` bits is exact.
proof fn lemma_inexact_shift(n: nat, k: nat, p: nat)
    requires
        n > 0,
    ensures
        rounding_inexact(n * pow2(k), false, p) == rounding_inexact(n, false, p),
{
    lemma_bits_shift(n, k);
    lemma_pow2_pos(k);
    let b = bits(n);
    let nn = n * pow2(k);
    if b > p {
        let s = (b - p) as nat;
        lemma_pow2_pos(s);
        lemma_pow2_adds(s, k);
        assert(drop_bits(nn, p) == s + k);
        lemma_fundamental_div_mod(n as int, pow2(s) as int);
        let q = n / pow2(s);
        let r = n % pow2(s);
        assert(nn == q * pow2(s + k) + r * pow2(k)) by (nonlinear_arith)
            requires
                n == pow2(s) * q + r,
                nn == n * pow2(k),
                pow2(s + k) == pow2(s) * pow2(k);
        assert(r * pow2(k) < pow2(s + k)) by (nonlinear_arith)
            requires
                r < pow2(s),
                pow2(k) > 0,
                pow2(s + k) == pow2(s) * pow2(k);
        assert(0 <= r * pow2(k)) by (nonlinear_arith)
            requires
                r >= 0,
                pow2(k) > 0;
        lemma_fundamental_div_mod_converse(nn as int, pow2(s + k) as int, q as int, (r * pow2(k)) as int);
        if r != 0 {
            assert(r * pow2(k) != 0) by (nonlinear_arith)
                requires
                    r > 0,
                    pow2(k) > 0;
        } else {
            assert(r * pow2(k) == 0) by (nonlinear_arith)
                requires
                    r == 0;
        }
    } else if b + k > p {
        let s = (b + k - p) as nat;
        assert(drop_bits(nn, p) == s);
        lemma_pow2_adds((k - s) as nat, s);
        lemma_pow2_pos(s);
        let q = n * pow2((k - s) as nat);
        assert(nn == q * pow2(s)) by (nonlinear_arith)
            requires
                nn == n * pow2(k),
                pow2(k) == pow2((k - s) as nat) * pow2(s),
                q == n * pow2((k - s) as nat);
        lemma_mod_multiples_basic(q as int, pow2(s) as int);
    }
}

/// `j! ≤ 2^(10 j)` for `j ≤ 1024`.
proof fn lemma_factorial_bound(j: nat)
    requires
        j <= 1024,
    ensures
        factorial(j) <= pow2(10 * j),
        bits(factorial(j)) <= 10 * j + 1,
    decreases j,
{
    lemma2_to64();
    if j == 0 {
        assert(factorial(0) == 1);
    } else {
        lemma_factorial_bound((j - 1) as nat);
        lemma_pow2_adds(10, 10 * (j - 1) as nat);
        assert(10 + 10 * (j - 1) as nat == 10 * j);
        assert(factorial(j) == j * factorial((j - 1) as nat));
        assert(j * factorial((j - 1) as nat) <= pow2(10) * pow2(10 * (j - 1) as nat)) by (nonlinear_arith)
            requires
                j <= pow2(10),
                factorial((j - 1) as nat) <= pow2(10 * (j - 1) as nat);
    }
    lemma_factorial_pos(j);
    vstd::arithmetic::power2::lemma_pow2_strictly_increases(10 * j, 10 * j + 1);
    lemma_bits_le(factorial(j), 10 * j + 1);
}

/// Rounding a positive integer `v` decides its exactness at `p` bits:
/// exact, the result carries `v` and no flag; inexact, only INEXACT.
pub proof fn lemma_round_integer_exactness(r: BigFloat, st: Status, m: nat, e0: int, p: nat, mode: RoundingMode, v: nat)
    requires
        round_result(r, st, m, false, e0, p, false, mode),
        m > 0,
        v > 0,
        1 <= p <= MAX_PRECISION,
        bits(v) <= 0x10_0000,
        scaled_is(m as int, e0, v as int),
    ensures
        int_exact(v, p) ==> r.class is Normal && !r.spec_neg() && st.bits == 0 && finite_value_is(r, v as int, 0),
        !int_exact(v, p) ==> st.bits == FLAG_INEXACT,
{
    lemma2_to64();
    if e0 >= 0 {
        lemma_bits_shift(m, e0 as nat);
        lemma_inexact_shift(m, e0 as nat, p);
    } else {
        let k = (-e0) as nat;
        lemma_bits_shift(v, k);
        lemma_inexact_shift(v, k, p);
    }
    assert(rounding_inexact(m, false, p) == !int_exact(v, p));
    let (sg, e) = rounded(m, false, e0, p, false, mode);
    assert(e == e0 + bits(m) - 1 || e == e0 + bits(m));
    assert(e0 + bits(m) == bits(v));
    lemma_bits_bounds(v);
    assert(EXP_MIN <= e <= EXP_MAX);
    if int_exact(v, p) {
        lemma_exact_rounding(m, e0, p, false, mode);
        let l = e - p + 1;
        if l >= e0 {
            let d = (l - e0) as nat;
            assert(scaled_is((sg as int) * pow2(d), e0, v as int));
            lemma_scaled_unshift(sg as int, e0, v as int, d);
        } else {
            lemma_scaled_shift(m as int, e0, v as int, (e0 - l) as nat);
        }
        assert(scaled_is(sg as int, l, v as int));
        assert(r.sig() == sg);
        assert(r.lsb_exp() == l);
    }
}

/// `(x−1)!` for a positive integer `x` when every partial product and
/// every factor is exact at `target` bits and `x ≤ 513`.
#[verifier::spinoff_prover]
fn try_gamma_pos_integer_exact(x: &BigFloat, target: u32) -> (r: Option<BigFloat>)
    requires
        x.wf(),
        prec_ok(target as nat),
    ensures
        r is Some <==> (x.class is Normal && !x.spec_neg() && factorial_fits(*x, target as nat)),
        r matches Some(v) ==> v.wf() && v.precision == target
            && finite_value_is(v, factorial((int_value(*x)->0 - 1) as nat) as int, 0),
{
    if x.is_sign_negative() || x.is_zero() || !is_integer(x) {
        return None;
    }
    let ghost n: int = int_value(*x)->0;
    proof {
        super::pow::lemma_int_magnitude(*x);
        lemma_pow2_pos(x.class->Normal_exponent as nat);
        assert(n >= 1);
        lemma_int_value_is(*x, n);
    }
    let one = one_at(target);
    let mut acc = one.dup();
    let mut k = super::int_at_exact_two(target);
    proof {
        assert(factorial(1) == 1 * factorial(0));
        assert(acc.sig() == one.sig());
        assert(acc.lsb_exp() == one.lsb_exp());
        lemma_value_exponent(k, 2);
    }
    let mut i: u32 = 0;
    while i < 512
        invariant
            prec_ok(target as nat),
            x.wf(),
            x.class is Normal,
            !x.spec_neg(),
            int_value(*x) == Some(n),
            n >= 1,
            finite_value_is(*x, n, 0),
            acc.wf(),
            acc.precision == target,
            k.wf(),
            k.precision == target,
            k.class is Normal,
            finite_value_is(k, i + 2, 0),
            acc.class is Normal,
            finite_value_is(acc, factorial((i + 1) as nat) as int, 0),
            i == 0 || i + 2 <= n,
            forall|j: nat| 2 <= j <= i + 1 ==> #[trigger] factorial_exact(j, target as nat),
            forall|j: nat| 3 <= j <= i + 2 ==> #[trigger] int_exact(j, target as nat),
        decreases 512 - i,
    {
        let less = match k.compare(x) {
            Some(v) => v < 0,
            None => false,
        };
        proof {
            lemma_order_of_values(k, i + 2, *x, n);
        }
        if !less {
            proof {
                if i + 2 != n {
                    assert(factorial(1) == 1 * factorial(0));
                }
                assert(factorial_fits(*x, target as nat));
            }
            return Some(acc);
        }
        let (next_acc, status) = acc.mul(&k, RoundingMode::NearestEven);
        let ghost j: nat = (i + 2) as nat;
        proof {
            let f = factorial((i + 1) as nat);
            assert(factorial(j) == j * factorial((j - 1) as nat));
            lemma_factorial_pos((i + 1) as nat);
            assert(f > 0);
            lemma_factorial_pos(j);
            lemma_factorial_bound(j);
            lemma_value_exponent(acc, f as int);
            lemma_value_exponent(k, j as int);
            lemma_sig_bounds(acc);
            lemma_sig_bounds(k);
            assert(scaled_is(acc.sig() as int, acc.lsb_exp(), f as int));
            assert(scaled_is(k.sig() as int, k.lsb_exp(), j as int));
            lemma_scaled_mul(acc.sig() as int, acc.lsb_exp(), f as int, k.sig() as int, k.lsb_exp(), j as int);
            assert(f * j == factorial(j)) by (nonlinear_arith)
                requires
                    factorial(j) == j * f;
            assert(acc.sig() * k.sig() > 0) by (nonlinear_arith)
                requires
                    acc.sig() > 0,
                    k.sig() > 0;
            lemma_round_integer_exactness(next_acc, status, acc.sig() * k.sig(), acc.lsb_exp() + k.lsb_exp(),
                target as nat, RoundingMode::NearestEven, factorial(j));
            let sb: u8 = status.bits;
            assert(sb == 0 ==> sb & FLAG_INEXACT == 0) by (bit_vector);
            assert(sb == FLAG_INEXACT ==> sb & FLAG_INEXACT != 0) by (bit_vector);
        }
        if status.inexact() {
            proof {
                assert(!factorial_exact(j, target as nat));
                assert(!factorial_fits(*x, target as nat));
            }
            return None;
        }
        acc = next_acc;
        let next_int: i64 = i as i64 + 3;
        let (next_k, k_status) = match BigFloat::try_from_i64_round(next_int, target, RoundingMode::NearestEven) {
            Ok(v) => v,
            Err(_) => {
                proof {
                    assert(false);
                }
                return None;
            },
        };
        proof {
            let jj = (i + 3) as nat;
            lemma2_to64();
            assert(jj < 1024);
            lemma_bits_le(jj, 10);
            assert(crate::float::abs_i64(next_int) == jj);
            assert(pow2(0) == 1);
            assert(jj as int * pow2(0) == jj as int) by (nonlinear_arith)
                requires pow2(0) == 1;
            assert(scaled_is(jj as int, 0, jj as int));
            lemma_round_integer_exactness(next_k, k_status, jj, 0, target as nat, RoundingMode::NearestEven, jj);
            let sb: u8 = k_status.bits;
            assert(sb == 0 ==> sb & FLAG_INEXACT == 0) by (bit_vector);
            assert(sb == FLAG_INEXACT ==> sb & FLAG_INEXACT != 0) by (bit_vector);
        }
        if k_status.inexact() {
            proof {
                assert(!int_exact((i + 3) as nat, target as nat));
                assert(!factorial_fits(*x, target as nat));
            }
            return None;
        }
        k = next_k;
        i = i + 1;
    }
    None
}

/// `Γ(x)` is negative: `x` is a negative non-integer whose floor
/// `⌊x⌋ = −⌊|x|⌋ − 1` is odd, i.e. `⌊|x|⌋` is even (`sin πx < 0`).
pub open spec fn gamma_negative_at(x: BigFloat) -> bool {
    x.class is Normal && x.spec_neg() && int_value(x) is None && abs_floor(x) % 2 == 0
}

/// Whether `⌊|x|⌋` is even, for a normal `x`.
pub fn abs_floor_is_even(x: &BigFloat) -> (r: bool)
    requires
        x.wf(),
        x.class is Normal,
    ensures
        r == (abs_floor(*x) % 2 == 0),
{
    match &x.class {
        Class::Normal { exponent, mantissa, .. } => {
            let p = x.precision;
            let scale: i128 = *exponent as i128 - p as i128 + 1;
            proof {
                lemma_sig_bounds(*x);
                assert(scale == x.lsb_exp());
            }
            if scale > 0 {
                proof {
                    let k = scale as nat;
                    vstd::arithmetic::power2::lemma_pow2_unfold(k);
                    let h = pow2((k - 1) as nat);
                    assert(x.sig() * pow2(k) == (x.sig() * h) * 2) by (nonlinear_arith)
                        requires pow2(k) == 2 * h;
                    lemma_mod_multiples_basic((x.sig() * h) as int, 2);
                }
                return true;
            }
            if -scale >= p as i128 {
                proof {
                    let k = (-scale) as nat;
                    if k > p as nat {
                        vstd::arithmetic::power2::lemma_pow2_strictly_increases(p as nat, k);
                    }
                    vstd::arithmetic::div_mod::lemma_basic_div(x.sig() as int, pow2(k) as int);
                }
                return true;
            }
            let sig = crate::float::sig_limbs(mantissa, p);
            let (q, _) = crate::limbs::shr(&sig, (-scale) as u64);
            let (q2, b) = crate::limbs::div_small(&q, 2);
            proof {
                assert(crate::limbs::nat_of(sig@) == x.sig());
                lemma_fundamental_div_mod_converse(crate::limbs::nat_of(q@) as int, 2,
                    crate::limbs::nat_of(q2@) as int, b as int);
                if scale == 0 {
                    assert(pow2(0) == 1) by { vstd::arithmetic::power2::lemma2_to64(); }
                    let sg = x.sig();
                    let p0 = pow2(0);
                    assert(sg * p0 == sg) by (nonlinear_arith) requires p0 == 1;
                    assert(sg / p0 == sg) by (nonlinear_arith) requires p0 == 1;
                }
                assert(crate::limbs::nat_of(q@) == abs_floor(*x));
            }
            b == 0
        },
        _ => true,
    }
}

/// The sign of `Γ(x)`: positive off the negative axis and at the
/// poles; on the negative axis that of `sin πx`, negative exactly where
/// `⌊x⌋` is odd.
pub fn gamma_sign_of(x: &BigFloat, _w: u32) -> (s: Sign)
    requires
        x.wf(),
    ensures
        s == (if gamma_negative_at(*x) { Sign::Negative } else { Sign::Positive }),
        !x.spec_neg() ==> s == Sign::Positive,
{
    if !x.is_normal() || !x.is_sign_negative() || is_integer(x) {
        return Sign::Positive;
    }
    if abs_floor_is_even(x) { Sign::Negative } else { Sign::Positive }
}

/// `Γ(x)` at working precision `w`: the magnitude of what `exp` gives at
/// what `lgamma` gives at `x`, with the sign of
/// [`gamma_sign_of`].
pub fn gamma_at_w(x: &BigFloat, w: u32) -> (y: BigFloat)
    requires
        x.wf(),
        prec_ok(w as nat),
    ensures
        y.wf(),
        y.spec_neg() == gamma_negative_at(*x),
        exists|lg: BigFloat, ls: Status, e: BigFloat, es: Status|
            #![trigger call_ensures(BigFloat::lgamma_round, (x, w, RoundingMode::NearestEven), Ok::<(BigFloat, Status), BuildError>((lg, ls))), call_ensures(BigFloat::exp, (&lg, RoundingMode::NearestEven), (e, es))]
            call_ensures(BigFloat::lgamma_round, (x, w, RoundingMode::NearestEven), Ok::<(BigFloat, Status), BuildError>((lg, ls)))
                && call_ensures(BigFloat::exp, (&lg, RoundingMode::NearestEven), (e, es)) && super::same_magnitude(y, e),
{
    let lr = x.lgamma_round(w, RoundingMode::NearestEven);
    let (ln_abs_gamma, ls) = match lr {
        Ok(v) => v,
        Err(_) => {
            proof {
                assert(false);
            }
            (qnan_at(w), Status { bits: 0 })
        },
    };
    let (e_val, es) = ln_abs_gamma.exp(RoundingMode::NearestEven);
    proof {
        assert(call_ensures(BigFloat::lgamma_round, (x, w, RoundingMode::NearestEven), Ok::<(BigFloat, Status), BuildError>((ln_abs_gamma, ls))));
        assert(call_ensures(BigFloat::exp, (&ln_abs_gamma, RoundingMode::NearestEven), (e_val, es)));
    }
    let abs_gamma = e_val.abs();
    if gamma_sign_of(x, w) == Sign::Negative {
        abs_gamma.negated()
    } else {
        abs_gamma
    }
}

/// The sign `Γ` gives on the negative axis: at a negative non-integer
/// `x` the result is negative exactly where `⌊|x|⌋` is even, that is
/// where `⌊x⌋` is odd.
pub open spec fn gamma_sign(x: BigFloat, r: BigFloat) -> bool {
    x.class is Normal && x.spec_neg() && int_value(x) is None ==> (r.spec_neg() <==> abs_floor(x) % 2 == 0)
}

/// What `Γ` gives at a positive integer `n` whose factorials fit the
/// precision (see [`factorial_fits`]): `(n − 1)!` exactly, with no flag.
pub open spec fn gamma_exact(x: BigFloat, r: BigFloat, st: Status, p: nat) -> bool {
    x.class is Normal && !x.spec_neg() && factorial_fits(x, p)
        ==> finite_value_is(r, factorial((int_value(x)->0 - 1) as nat) as int, 0) && st.bits == 0
}

/// What `Γ` gives at the other normal arguments: the value
/// [`gamma_at_w`] computes at a working precision of the Ziv schedule,
/// rounded to `p` bits under `mode`.
pub open spec fn gamma_value(x: BigFloat, r: BigFloat, st: Status, p: nat, mode: RoundingMode) -> bool {
    x.class is Normal && !(x.spec_neg() && int_value(x) is Some) && !(!x.spec_neg() && factorial_fits(x, p))
        ==> exists|w: u32, y: BigFloat, s0: Status| #![trigger call_ensures(gamma_at_w, (&x, w), y), rounds_to(y, p, mode, r, s0)]
            call_ensures(gamma_at_w, (&x, w), y) && ziv_on_schedule(w as int, p as int) && rounds_to(y, p, mode, r, s0)
}

fn gamma_kernel(x: &BigFloat, target: u32, mode: RoundingMode) -> (r: (BigFloat, Status))
    requires
        x.wf(),
        prec_ok(target as nat),
    ensures
        r.0.wf(),
        r.0.precision == target,
        gamma_special(*x, r.0, r.1, target as nat),
        gamma_exact(*x, r.0, r.1, target as nat),
        gamma_sign(*x, r.0),
        gamma_value(*x, r.0, r.1, target as nat, mode),
{
    match &x.class {
        Class::Nan { .. } => return nan_in(x, target),
        Class::Zero { sign } => return (inf_at(*sign, target), Status { bits: FLAG_DIV_BY_ZERO }),
        Class::Infinity { sign: Sign::Positive } => return (inf_at(Sign::Positive, target), Status { bits: 0 }),
        Class::Infinity { sign: Sign::Negative } => return (qnan_at(target), Status { bits: FLAG_INVALID }),
        Class::Normal { .. } => {},
    }
    if x.is_sign_negative() && is_integer(x) {
        return (qnan_at(target), Status { bits: FLAG_INVALID });
    }
    match try_gamma_pos_integer_exact(x, target) {
        Some(v) => return (v, Status { bits: 0 }),
        None => {},
    }
    let eval = |w: u32| -> (y: BigFloat)
        requires
            prec_ok(w as nat),
        ensures
            y.wf(),
            call_ensures(gamma_at_w, (x, w), y),
    {
        gamma_at_w(x, w)
    };
    let (result, status) = ziv_round(eval, target, mode, GAMMA_ERROR_GUARD);
    proof {
        let t = choose|t: ZivTrace| t.0 == result && t.1 == status && #[trigger] is_trace_of(eval, target as nat, mode, t)
            && ziv_on_schedule(t.2 as int, target as int);
        assert(call_ensures(gamma_at_w, (x, t.2), t.3));
        assert(rounds_to(t.3, target as nat, mode, result, status));
        super::lemma_rounds_to_sign(t.3, target as nat, mode, result, status);
    }
    let st = force_inexact(&result, status);
    (result, st)
}

impl BigFloat {
    /// `Γ(self)` rounded under `mode` to the precision of
    /// `self`.
    pub fn gamma(&self, mode: RoundingMode) -> (r: (BigFloat, Status))
        requires
            self.wf(),
        ensures
            r.0.wf(),
            r.0.precision == self.precision,
            gamma_special(*self, r.0, r.1, self.precision as nat),
            gamma_value(*self, r.0, r.1, self.precision as nat, mode),
            gamma_exact(*self, r.0, r.1, self.precision as nat),
            gamma_sign(*self, r.0),
    {
        gamma_kernel(self, self.precision, mode)
    }

    /// `Γ(self)` rounded under `mode` to `target_precision`
    /// bits.
    pub fn gamma_round(&self, target_precision: u32, mode: RoundingMode) -> (r: Result<(BigFloat, Status), BuildError>)
        requires
            self.wf(),
        ensures
            r is Ok <==> prec_ok(target_precision as nat),
            target_precision == 0 ==> r == Err::<(BigFloat, Status), BuildError>(BuildError::PrecisionZero),
            r matches Ok(v) ==> v.0.wf() && v.0.precision == target_precision
                && gamma_special(*self, v.0, v.1, target_precision as nat)
                && gamma_exact(*self, v.0, v.1, target_precision as nat)
                && gamma_sign(*self, v.0)
                && gamma_value(*self, v.0, v.1, target_precision as nat, mode),
    {
        BigFloat::check_precision(target_precision)?;
        Ok(gamma_kernel(self, target_precision, mode))
    }
}

impl<const PREC: u32> FixedFloat<PREC> {
    /// `Γ(self)` at the fixed precision.
    pub fn gamma(&self, mode: RoundingMode) -> (r: (FixedFloat<PREC>, Status))
        requires
            self.wf(),
        ensures
            r.0.wf(),
            gamma_special(self.value(), r.0.value(), r.1, PREC as nat),
            gamma_value(self.value(), r.0.value(), r.1, PREC as nat, mode),
            gamma_exact(self.value(), r.0.value(), r.1, PREC as nat),
            gamma_sign(self.value(), r.0.value()),
            call_ensures(BigFloat::gamma, (&self.value(), mode), (r.0.value(), r.1)),
    {
        let (big, st) = self.big_ref().gamma(mode);
        (FixedFloat::wrap(big), st)
    }
}

} // verus!

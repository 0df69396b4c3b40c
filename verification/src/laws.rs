//! Properties that hold across the operations of the library.

use vstd::prelude::*;
use vstd::arithmetic::power2::*;
use crate::types::{BigFloat, Class, Sign, RoundingMode, Status, EXP_MIN, EXP_MAX, sign_of};
use crate::arith::{mul_spec, div_spec, div_shift, add_spec, add_normals_spec, aligned_sum, below_sight};
use crate::arith::{order_of, aligned_diff, low_exp, signed_sig, sgn};
use crate::round::{rounded, round_result, round_inc, rounded_q, is_normal_with, rounds_outward, rounds_up_tiny,
    drop_bits, round_bit, below_bits, rounding_inexact, bits};
use vstd::arithmetic::div_mod::{lemma_fundamental_div_mod, lemma_mod_breakdown, lemma_mod_pos_bound};
use crate::float::lemma_sig_bounds;
use crate::math::{rounds_to, mirrored_mode};

verus! {

/// Comparison is antisymmetric: swapping the operands negates the
/// order, and a NaN on either side leaves both unordered.
pub proof fn law_order_antisymmetric(a: BigFloat, b: BigFloat)
    ensures
        order_of(a, b) is None <==> order_of(b, a) is None,
        order_of(a, b) matches Some(v) ==> order_of(b, a) == Some(-v),
{
    if !(a.class is Nan || b.class is Nan) && a.class is Normal && b.class is Normal {
        assert(low_exp(a, b) == low_exp(b, a));
        assert(aligned_diff(b, a) == -aligned_diff(a, b));
    }
}

/// Every value that is not a NaN compares equal to itself.
pub proof fn law_order_reflexive(a: BigFloat)
    requires
        !(a.class is Nan),
    ensures
        order_of(a, a) == Some(0int),
{
    if a.class is Normal {
        assert(aligned_diff(a, a) == 0);
    }
}

/// Rounding a value to its own precision returns it unchanged and
/// raises nothing, under every mode.
pub proof fn law_round_to_own_precision(x: BigFloat, mode: RoundingMode, r: BigFloat, st: Status)
    requires
        x.wf(),
        rounds_to(x, x.precision as nat, mode, r, st),
    ensures
        st.bits == 0,
        x.class is Normal ==> is_normal_with(r, x.spec_neg(), x.sig(), x.class->Normal_exponent as int),
        !(x.class is Normal) ==> r.class is Nan == x.class is Nan,
        x.class is Zero || x.class is Infinity ==> r.class == x.class,
{
    if x.class is Normal {
        lemma_sig_bounds(x);
        let p = x.precision as nat;
        lemma2_to64();
        assert(x.sig() * pow2(0) == x.sig()) by (nonlinear_arith)
            requires pow2(0) == 1;
        assert(rounded(x.sig(), false, x.lsb_exp(), p, x.spec_neg(), mode) == (x.sig(), x.class->Normal_exponent as int));
    }
}

/// Rounding a value to a precision at least its own keeps its value
/// exactly, the significand widened by zero bits, and raises nothing,
/// under every mode.
pub proof fn law_round_to_wider_precision(x: BigFloat, p: nat, mode: RoundingMode, r: BigFloat, st: Status)
    requires
        x.wf(),
        p >= x.precision,
        rounds_to(x, p, mode, r, st),
    ensures
        st.bits == 0,
        x.class is Normal ==> is_normal_with(r, x.spec_neg(), x.sig() * pow2((p - x.precision) as nat),
            x.class->Normal_exponent as int),
        !(x.class is Normal) ==> r.class is Nan == x.class is Nan,
        x.class is Zero || x.class is Infinity ==> r.class == x.class,
{
    if x.class is Normal {
        lemma_sig_bounds(x);
        let xp = x.precision as nat;
        crate::round::lemma_bits_unique(x.sig(), xp);
        assert(bits(x.sig()) == xp);
        assert(rounded(x.sig(), false, x.lsb_exp(), p, x.spec_neg(), mode)
            == (x.sig() * pow2((p - xp) as nat), x.class->Normal_exponent as int));
    }
}

/// Rounding a negated value under a mode equals negating the rounding
/// of the value under the mirrored mode: the directed modes swap and
/// the others stay.
pub proof fn law_round_mirror(n: nat, sticky: bool, e0: int, p: nat, neg: bool, mode: RoundingMode)
    ensures
        rounded(n, sticky, e0, p, !neg, mirrored_mode(mode)) == rounded(n, sticky, e0, p, neg, mode),
        rounds_outward(!neg, mirrored_mode(mode)) == rounds_outward(neg, mode),
        rounds_up_tiny(!neg, mirrored_mode(mode)) == rounds_up_tiny(neg, mode),
{
    assert(rounded_q(n, sticky, p, !neg, mirrored_mode(mode)) == rounded_q(n, sticky, p, neg, mode));
}

/// Rounding brackets the exact value `n + δ` (`0 < δ < 1` when
/// `sticky`): truncation gives `lo` with `lo·2^s ≤ n < (lo+1)·2^s`,
/// where `s` is the number of dropped bits; every mode gives `lo` or
/// `lo + 1`; and the mode that rounds away from zero for this sign
/// gives `lo + 1` exactly when the rounding is inexact; an exact
/// rounding gives `lo` under every mode.
pub proof fn law_rounding_brackets(n: nat, sticky: bool, p: nat, neg: bool, mode: RoundingMode)
    ensures
        ({
            let s = drop_bits(n, p);
            let lo = rounded_q(n, sticky, p, neg, RoundingMode::TowardZero);
            let away = if neg { RoundingMode::TowardNegative } else { RoundingMode::TowardPositive };
            &&& lo * pow2(s) <= n < (lo + 1) * pow2(s)
            &&& rounded_q(n, sticky, p, neg, mode) == lo || rounded_q(n, sticky, p, neg, mode) == lo + 1
            &&& rounded_q(n, sticky, p, neg, away) == (if rounding_inexact(n, sticky, p) { lo + 1 } else { lo })
            &&& !rounding_inexact(n, sticky, p) ==> rounded_q(n, sticky, p, neg, mode) == lo
        }),
{
    let s = drop_bits(n, p);
    let d = pow2(s);
    lemma_pow2_pos(s);
    let lo = n / d;
    lemma_fundamental_div_mod(n as int, d as int);
    lemma_mod_pos_bound(n as int, d as int);
    assert(lo * d <= n < (lo + 1) * d) by (nonlinear_arith)
        requires
            n == d * lo + n % d,
            0 <= n % d < d;
    if s > 0 {
        let h = pow2((s - 1) as nat);
        lemma_pow2_pos((s - 1) as nat);
        lemma_pow2_unfold(s);
        assert(d == h * 2);
        lemma_mod_breakdown(n as int, h as int, 2);
        lemma_mod_pos_bound(n as int, h as int);
        assert((n % d != 0) <==> (round_bit(n, s) || n % h != 0)) by (nonlinear_arith)
            requires
                n % d == h * ((n / h) % 2) + n % h,
                h > 0,
                0 <= n % h,
                (n / h) % 2 == 0 || (n / h) % 2 == 1,
                round_bit(n, s) == ((n / h) % 2 == 1);
        assert(bits(n) > p);
    } else {
        assert(n % 1 == 0);
    }
}

/// The sign of `s` reversed.
pub open spec fn flipped(s: Sign) -> Sign {
    if s == Sign::Negative { Sign::Positive } else { Sign::Negative }
}

/// `x` with its sign reversed; a NaN is left as it is.
pub open spec fn neg_value(x: BigFloat) -> BigFloat {
    BigFloat {
        class: match x.class {
            Class::Zero { sign } => Class::Zero { sign: flipped(sign) },
            Class::Infinity { sign } => Class::Infinity { sign: flipped(sign) },
            Class::Normal { sign, exponent, mantissa } => Class::Normal { sign: flipped(sign), exponent, mantissa },
            Class::Nan { .. } => x.class,
        },
        precision: x.precision,
    }
}

/// Rounding `−(n + δ)·2^e0` under the mirrored mode yields the negation
/// of what rounding `+(n + δ)·2^e0` yields, with the same flags: at the
/// exponent rims too.
pub proof fn law_round_result_mirror(x: BigFloat, st: Status, n: nat, sticky: bool, e0: int, p: nat, neg: bool,
    mode: RoundingMode)
    requires
        round_result(x, st, n, sticky, e0, p, neg, mode),
    ensures
        round_result(neg_value(x), st, n, sticky, e0, p, !neg, mirrored_mode(mode)),
{
    law_round_mirror(n, sticky, e0, p, neg, mode);
    let y = neg_value(x);
    assert(y.wf() == x.wf());
    assert(x.class is Normal ==> y.sig() == x.sig());
}

/// Negating a factor negates the product under the mirrored mode, with
/// the same flags, for every operand that is not a NaN.
pub proof fn law_mul_negation(a: BigFloat, b: BigFloat, r: BigFloat, st: Status, p: nat, mode: RoundingMode)
    requires
        !(a.class is Nan),
        !(b.class is Nan),
        mul_spec(a, b, r, st, p, mode),
    ensures
        mul_spec(neg_value(a), b, neg_value(r), st, p, mirrored_mode(mode)),
{
    let na = neg_value(a);
    assert(na.spec_neg() == !a.spec_neg());
    assert(a.class is Normal ==> na.sig() == a.sig() && na.lsb_exp() == a.lsb_exp());
    if a.class is Normal && b.class is Normal {
        law_round_result_mirror(r, st, a.sig() * b.sig(), false, a.lsb_exp() + b.lsb_exp(), p,
            a.spec_neg() != b.spec_neg(), mode);
    }
    assert(neg_value(r).wf() == r.wf());
}

/// Negating the dividend negates the quotient under the mirrored mode,
/// with the same flags, for every operand that is not a NaN.
pub proof fn law_div_negation(a: BigFloat, b: BigFloat, r: BigFloat, st: Status, p: nat, mode: RoundingMode)
    requires
        !(a.class is Nan),
        !(b.class is Nan),
        div_spec(a, b, r, st, p, mode),
    ensures
        div_spec(neg_value(a), b, neg_value(r), st, p, mirrored_mode(mode)),
{
    let na = neg_value(a);
    assert(na.spec_neg() == !a.spec_neg());
    assert(a.class is Normal ==> na.sig() == a.sig() && na.lsb_exp() == a.lsb_exp());
    if a.class is Normal && b.class is Normal {
        let k = div_shift(p, b);
        law_round_result_mirror(r, st, (a.sig() * pow2(k)) / b.sig(), (a.sig() * pow2(k)) % b.sig() != 0,
            a.lsb_exp() - b.lsb_exp() - k, p, a.spec_neg() != b.spec_neg(), mode);
    }
    assert(neg_value(r).wf() == r.wf());
}

/// Addition is commutative: swapping two operands that are not NaNs
/// leaves the specified sum and its flags unchanged.
pub proof fn law_add_commutative(a: BigFloat, b: BigFloat, r: BigFloat, st: Status, p: nat, mode: RoundingMode)
    requires
        a.wf(),
        b.wf(),
        p >= 1,
        !(a.class is Nan),
        !(b.class is Nan),
    ensures
        add_spec(a, b, r, st, p, mode) == add_spec(b, a, r, st, p, mode),
{
    if a.class is Normal && b.class is Normal {
        assert(low_exp(a, b) == low_exp(b, a));
        assert(aligned_sum(a, b) == aligned_sum(b, a));
        if a.class->Normal_exponent == b.class->Normal_exponent {
            lemma_sig_bounds(a);
            lemma_sig_bounds(b);
            assert(!below_sight(a, b, p));
            assert(!below_sight(b, a, p));
        }
        assert(add_normals_spec(a, b, r, st, p, mode) == add_normals_spec(b, a, r, st, p, mode));
    }
}

/// Multiplication is commutative: swapping two operands that are not
/// NaNs leaves the specified product and its flags unchanged.
pub proof fn law_mul_commutative(a: BigFloat, b: BigFloat, r: BigFloat, st: Status, p: nat, mode: RoundingMode)
    requires
        !(a.class is Nan),
        !(b.class is Nan),
    ensures
        mul_spec(a, b, r, st, p, mode) == mul_spec(b, a, r, st, p, mode),
{
    assert(a.sig() * b.sig() == b.sig() * a.sig()) by (nonlinear_arith);
}

/// `a` and `b` are the same number at the same precision: the same
/// class and sign, and for normal values the same significand and
/// exponent; two NaNs agree in quietness, sign and payload.
pub open spec fn same_value(a: BigFloat, b: BigFloat) -> bool {
    &&& a.precision == b.precision
    &&& match (a.class, b.class) {
        (Class::Zero { sign: s1 }, Class::Zero { sign: s2 }) => s1 == s2,
        (Class::Infinity { sign: s1 }, Class::Infinity { sign: s2 }) => s1 == s2,
        (Class::Normal { .. }, Class::Normal { .. }) => a.spec_neg() == b.spec_neg() && a.sig() == b.sig()
            && a.class->Normal_exponent == b.class->Normal_exponent,
        (Class::Nan { quiet: q1, sign: s1, payload: p1 }, Class::Nan { quiet: q2, sign: s2, payload: p2 }) =>
            q1 == q2 && s1 == s2 && p1@ == p2@,
        _ => false,
    }
}

/// A rounding is determined by what it rounds: two results of rounding
/// the same `±(n + δ)·2^e0` to `p` bits under one mode are the same
/// number, with the same flags.
pub proof fn law_round_result_unique(r1: BigFloat, s1: Status, r2: BigFloat, s2: Status, n: nat, sticky: bool,
    e0: int, p: nat, neg: bool, mode: RoundingMode)
    requires
        round_result(r1, s1, n, sticky, e0, p, neg, mode),
        round_result(r2, s2, n, sticky, e0, p, neg, mode),
    ensures
        same_value(r1, r2),
        s1.bits == s2.bits,
{
    let (sg, e) = rounded(n, sticky, e0, p, neg, mode);
}

/// `sinh` is odd at tiny arguments: the result at `−x` under a mode is
/// the negation of the result at `x` under the mirrored mode.
pub proof fn law_sinh_odd_tiny(x: BigFloat, p: nat, mode: RoundingMode, r1: BigFloat, s1: Status, r2: BigFloat, s2: Status)
    requires
        x.wf(),
        x.class is Normal,
        x.class->Normal_exponent <= -(p + 2),
        -2 * x.class->Normal_exponent >= x.precision + 6,
        crate::math::sinh::sinh_tiny(x, r1, s1, p, mirrored_mode(mode)),
        crate::math::sinh::sinh_tiny(neg_value(x), r2, s2, p, mode),
    ensures
        same_value(r2, neg_value(r1)),
{
    let nx = neg_value(x);
    assert(nx.sig() == x.sig() && nx.lsb_exp() == x.lsb_exp() && nx.spec_neg() == !x.spec_neg());
    let t1 = choose|st0: Status| crate::math::nudged(x, false, p, mirrored_mode(mode), r1, st0);
    let t2 = choose|st0: Status| crate::math::nudged(nx, false, p, mode, r2, st0);
    let n = (x.sig() * pow2(p + 3)) as nat;
    law_round_result_mirror(r1, t1, n, true, x.lsb_exp() - (p + 3), p, x.spec_neg(), mirrored_mode(mode));
    assert(mirrored_mode(mirrored_mode(mode)) == mode);
    law_round_result_unique(r2, t2, neg_value(r1), t1, n, true, x.lsb_exp() - (p + 3), p, !x.spec_neg(), mode);
}

/// `tanh` is odd at tiny arguments, flags included.
pub proof fn law_tanh_odd_tiny(x: BigFloat, p: nat, mode: RoundingMode, r1: BigFloat, s1: Status, r2: BigFloat, s2: Status)
    requires
        x.wf(),
        x.class is Normal,
        x.class->Normal_exponent <= -(p + 2),
        crate::math::tanh::tanh_tiny(x, r1, s1, p, mirrored_mode(mode)),
        crate::math::tanh::tanh_tiny(neg_value(x), r2, s2, p, mode),
    ensures
        same_value(r2, neg_value(r1)),
        s2.bits == s1.bits,
{
    let nx = neg_value(x);
    assert(nx.sig() == x.sig() && nx.lsb_exp() == x.lsb_exp() && nx.spec_neg() == !x.spec_neg());
    let n = (x.sig() * pow2(p + 3) - 1) as nat;
    law_round_result_mirror(r1, s1, n, true, x.lsb_exp() - (p + 3), p, x.spec_neg(), mirrored_mode(mode));
    assert(mirrored_mode(mirrored_mode(mode)) == mode);
    law_round_result_unique(r2, s2, neg_value(r1), s1, n, true, x.lsb_exp() - (p + 3), p, !x.spec_neg(), mode);
}

/// `Si` is odd at tiny arguments.
pub proof fn law_si_odd_tiny(x: BigFloat, p: nat, mode: RoundingMode, r1: BigFloat, s1: Status, r2: BigFloat, s2: Status)
    requires
        x.wf(),
        x.class is Normal,
        x.class->Normal_exponent <= -(p + 2),
        -2 * x.class->Normal_exponent >= x.precision + 6,
        crate::math::si::si_tiny(x, r1, s1, p, mirrored_mode(mode)),
        crate::math::si::si_tiny(neg_value(x), r2, s2, p, mode),
    ensures
        same_value(r2, neg_value(r1)),
{
    let nx = neg_value(x);
    assert(nx.sig() == x.sig() && nx.lsb_exp() == x.lsb_exp() && nx.spec_neg() == !x.spec_neg());
    let t1 = choose|st0: Status| crate::math::nudged(x, true, p, mirrored_mode(mode), r1, st0);
    let t2 = choose|st0: Status| crate::math::nudged(nx, true, p, mode, r2, st0);
    let n = (x.sig() * pow2(p + 3) - 1) as nat;
    law_round_result_mirror(r1, t1, n, true, x.lsb_exp() - (p + 3), p, x.spec_neg(), mirrored_mode(mode));
    assert(mirrored_mode(mirrored_mode(mode)) == mode);
    law_round_result_unique(r2, t2, neg_value(r1), t1, n, true, x.lsb_exp() - (p + 3), p, !x.spec_neg(), mode);
}

/// `B(a, b) = B(b, a)` with the same flags wherever the operands alone
/// decide the result (infinities, poles, a non-positive integer sum).
pub proof fn law_beta_symmetric_decided(a: BigFloat, b: BigFloat, r1: BigFloat, s1: Status, r2: BigFloat, s2: Status)
    requires
        a.wf(),
        b.wf(),
        !(a.class is Nan),
        !(b.class is Nan),
        crate::math::beta::beta_decided(a, b),
        r1.precision == crate::arith::op_precision(a, b),
        r2.precision == crate::arith::op_precision(b, a),
        crate::math::beta::beta_special(a, b, r1, s1),
        crate::math::beta::beta_special(b, a, r2, s2),
    ensures
        same_value(r1, r2),
        s1.bits == s2.bits,
{
    assert(crate::arith::op_precision(a, b) == crate::arith::op_precision(b, a));
    assert forall|s: BigFloat, st: Status|
        add_spec(a, b, s, st, crate::arith::op_precision(a, b) as nat, RoundingMode::NearestEven)
            == #[trigger] add_spec(b, a, s, st, crate::arith::op_precision(b, a) as nat, RoundingMode::NearestEven) by {
        law_add_commutative(a, b, s, st, crate::arith::op_precision(a, b) as nat, RoundingMode::NearestEven);
    }
    if r1.class is Nan && r2.class is Nan {
        assert(r1.class->Nan_payload@ =~= r2.class->Nan_payload@);
    }
}

/// `erf` is odd at the signed zeros and infinities:
/// `erf(−x) = −erf(x)` there, with the same flags.
pub proof fn law_erf_odd_decided(x: BigFloat, p: nat, r1: BigFloat, s1: Status, r2: BigFloat, s2: Status)
    requires
        x.wf(),
        x.class is Zero || x.class is Infinity,
        crate::math::erf::erf_special(x, r1, s1, p),
        crate::math::erf::erf_special(neg_value(x), r2, s2, p),
    ensures
        r1.class is Zero ==> r2.class == neg_value(r1).class,
        forall|v: int| crate::float::finite_value_is(r1, v, 0) ==> #[trigger] crate::float::finite_value_is(r2, -v, 0),
        s2.bits == s1.bits,
{
    if x.class is Infinity {
        let w: int = if x.class == (Class::Infinity { sign: Sign::Positive }) { 1 } else { -1 };
        assert(neg_value(x).class == (Class::Infinity { sign: flipped(x.class->Infinity_sign) }));
        assert(crate::float::finite_value_is(r1, w, 0));
        assert(crate::float::finite_value_is(r2, -w, 0));
        assert forall|v: int| crate::float::finite_value_is(r1, v, 0) implies #[trigger] crate::float::finite_value_is(r2, -v, 0) by {
            let sg = if r1.spec_neg() { -(r1.sig() as int) } else { r1.sig() as int };
            if r1.lsb_exp() >= 0 {
                assert(sg * pow2((r1.lsb_exp() - 0) as nat) == v);
                assert(sg * pow2((r1.lsb_exp() - 0) as nat) == w);
            } else {
                assert(sg == v * pow2((0 - r1.lsb_exp()) as nat));
                assert(sg == w * pow2((0 - r1.lsb_exp()) as nat));
                lemma_pow2_pos((0 - r1.lsb_exp()) as nat);
                vstd::arithmetic::mul::lemma_mul_is_distributive_sub_other_way(pow2((0 - r1.lsb_exp()) as nat) as int, v, w);
                vstd::arithmetic::mul::lemma_mul_nonzero(pow2((0 - r1.lsb_exp()) as nat) as int, v - w);
            }
        }
    }
}

/// `cosh` is even at the signed zeros and infinities: `cosh(−x) = cosh(x)`
/// there, with the same flags.
pub proof fn law_cosh_even_decided(x: BigFloat, p: nat, r1: BigFloat, s1: Status, r2: BigFloat, s2: Status)
    requires
        x.wf(),
        x.class is Zero || x.class is Infinity,
        crate::math::cosh::cosh_special(x, r1, s1, p),
        crate::math::cosh::cosh_special(neg_value(x), r2, s2, p),
    ensures
        r1.class is Infinity ==> r2.class == r1.class,
        forall|v: int| crate::float::finite_value_is(r1, v, 0) ==> #[trigger] crate::float::finite_value_is(r2, v, 0),
        s2.bits == s1.bits,
{
    if x.class is Zero {
        assert(neg_value(x).class is Zero);
        assert(crate::float::finite_value_is(r1, 1, 0));
        assert(crate::float::finite_value_is(r2, 1, 0));
        assert forall|v: int| crate::float::finite_value_is(r1, v, 0) implies #[trigger] crate::float::finite_value_is(r2, v, 0) by {
            let sg = if r1.spec_neg() { -(r1.sig() as int) } else { r1.sig() as int };
            if r1.lsb_exp() >= 0 {
                assert(sg * pow2((r1.lsb_exp() - 0) as nat) == v);
                assert(sg * pow2((r1.lsb_exp() - 0) as nat) == 1);
            } else {
                assert(sg == v * pow2((0 - r1.lsb_exp()) as nat));
                assert(sg == 1 * pow2((0 - r1.lsb_exp()) as nat));
                lemma_pow2_pos((0 - r1.lsb_exp()) as nat);
                vstd::arithmetic::mul::lemma_mul_is_distributive_sub_other_way(pow2((0 - r1.lsb_exp()) as nat) as int, v, 1);
                vstd::arithmetic::mul::lemma_mul_nonzero(pow2((0 - r1.lsb_exp()) as nat) as int, v - 1);
            }
        }
    } else {
        assert(neg_value(x).class is Infinity);
    }
}

/// `Y₋ₙ = (−1)ⁿ·Yₙ` at the pole `±0`: the infinities there carry the
/// reflected sign, with the same flags.
pub proof fn law_bessel_y_reflection_decided(n: int, x: BigFloat, p: nat, r1: BigFloat, s1: Status, r2: BigFloat, s2: Status)
    requires
        x.wf(),
        0 <= n <= crate::math::bessel_y::MAX_BESSEL_ORDER,
        x.class is Zero,
        crate::math::bessel_y::bessel_y_special(n, x, r1, s1, p),
        crate::math::bessel_y::bessel_y_special(-n, x, r2, s2, p),
    ensures
        r2.class == (if n % 2 == 1 { neg_value(r1).class } else { r1.class }),
        s2.bits == s1.bits,
{
    if n % 2 == 1 {
        assert((-n) % 2 == 1);
    } else {
        assert((-n) % 2 == 0);
    }
}

/// On the negative axis `Γ` takes the sign of `sin πx`: at a negative
/// non-integer `x` it is negative exactly where `⌊x⌋` is odd, on
/// `(−1, 0)`, `(−3, −2)`, …, and positive on `(−2, −1)`, `(−4, −3)`, ….
pub proof fn law_gamma_sign_on_negative_axis(x: BigFloat, mode: RoundingMode, r: BigFloat, st: Status)
    requires
        x.wf(),
        x.class is Normal,
        x.spec_neg(),
        crate::math::pow::int_value(x) is None,
        call_ensures(BigFloat::gamma, (&x, mode), (r, st)),
    ensures
        r.spec_neg() <==> (-(crate::math::exp::abs_floor(x) as int) - 1) % 2 == 1,
{
    let a = crate::math::exp::abs_floor(x) as int;
    assert((-a - 1) % 2 == 1 <==> a % 2 == 0) by (nonlinear_arith)
        requires a >= 0;
}

/// The series of `Ei` sums `γ + ln|x| + Σ_{k≥1} x^k/(k·k!)`: its
/// partial sums start at `γ + ln|x|` (the constant plus what `ln` gives
/// at `|x|`, at the working precision) and add `t₁ = x`,
/// `t_k = t_{k−1}·x·(k−1)/k²`, each step rounded to nearest.
pub proof fn law_ei_series_sums_gamma_ln_and_terms(x: BigFloat, p: u32, s: BigFloat)
    requires
        x.wf(),
        crate::types::prec_ok(p as nat),
        call_ensures(crate::math::ei::ei_series, (&x, p), s),
    ensures
        exists|w: u32, xw: BigFloat, ax: BigFloat, l: BigFloat, ls: Status, g: BigFloat, a: BigFloat,
            terms: Seq<BigFloat>, accs: Seq<BigFloat>|
            #![trigger crate::math::rounded_near(x, w as nat, xw), call_ensures(BigFloat::abs, (&xw,), ax), call_ensures(BigFloat::ln, (&ax, RoundingMode::NearestEven), (l, ls)), call_ensures(crate::math::euler_gamma_at, (w,), g), crate::math::sum_chain(a, terms, accs)]
            crate::types::prec_ok(w as nat) && crate::math::rounded_near(x, w as nat, xw) && call_ensures(BigFloat::abs, (&xw,), ax)
                && call_ensures(BigFloat::ln, (&ax, RoundingMode::NearestEven), (l, ls))
                && call_ensures(crate::math::euler_gamma_at, (w,), g) && crate::math::added(g, l, a)
                && crate::math::sum_chain(a, terms, accs) && accs.last() == s
                && terms.len() >= 1 && crate::float::same(terms[0], xw)
                && (forall|i: int| 1 <= i < terms.len() ==> crate::math::ei::ei_term_step(terms[i - 1], xw, (i + 1) as i64, i as i64, w, #[trigger] terms[i])),
{
    assert(crate::math::ei::ei_series_sum(x, s));
}

/// The series of `Ci` sums `γ + ln x + Σ_{k≥1} (−1)^k x^{2k}/(2k·(2k)!)`:
/// its partial sums start at `γ + ln x` (the constant plus what `ln`
/// gives at `x`, at the working precision) and add `t₁ = −x²/4`,
/// `t_k = −t_{k−1}·x²·(2k−2)/(2k·2k·(2k−1))`, each step rounded to
/// nearest.
pub proof fn law_ci_series_sums_gamma_ln_and_terms(x: BigFloat, p: u32, r: (BigFloat, i64))
    requires
        x.wf(),
        crate::types::prec_ok(p as nat),
        call_ensures(crate::math::ci::ci_series, (&x, p), r),
    ensures
        exists|w: u32, xw: BigFloat, xsq: BigFloat, l: BigFloat, ls: Status, g: BigFloat, a: BigFloat, four: BigFloat,
            q: BigFloat, terms: Seq<BigFloat>, accs: Seq<BigFloat>|
            #![trigger crate::math::rounded_near(x, w as nat, xw), crate::math::multiplied(xw, xw, xsq), call_ensures(BigFloat::ln, (&xw, RoundingMode::NearestEven), (l, ls)), call_ensures(crate::math::euler_gamma_at, (w,), g), call_ensures(crate::math::int_at, (4i64, w), four), crate::math::divided(xsq, four, q), crate::math::sum_chain(a, terms, accs)]
            crate::types::prec_ok(w as nat) && crate::math::rounded_near(x, w as nat, xw) && crate::math::multiplied(xw, xw, xsq)
                && call_ensures(BigFloat::ln, (&xw, RoundingMode::NearestEven), (l, ls))
                && call_ensures(crate::math::euler_gamma_at, (w,), g) && crate::math::added(g, l, a)
                && call_ensures(crate::math::int_at, (4i64, w), four) && crate::math::divided(xsq, four, q)
                && crate::math::sum_chain(a, terms, accs) && accs.last() == r.0
                && terms.len() >= 1 && crate::arith::negation_of(terms[0], q)
                && (forall|i: int| 1 <= i < terms.len() ==> crate::math::ci::ci_term_step(terms[i - 1], xsq, (2 * i) as i64,
                    (2 * i + 2) as i64, (2 * i + 1) as i64, w, #[trigger] terms[i])),
{
    assert(crate::math::ci::ci_series_sum(x, r.0));
}

/// The asymptotic expansion of `erfc` is
/// `e^(−x²)/(x√π)·Σ_k (−1)^k (2k−1)!!/(2x²)^k`: the envelope is what
/// `exp` gives at `−x²` times `(2/√π)/(2x)`, the sum starts at one and
/// adds `m₁ = 1/(2x²)`, `m_k = m_{k−1}·(2k−1)/(2x²)` with alternating
/// signs, the first negative, and the result is the envelope times the
/// sum; each operation rounded to nearest at the working precision.
pub proof fn law_erfc_asymptotic_expansion(x: BigFloat, w: u32, s: BigFloat)
    requires
        x.wf(),
        crate::types::prec_ok(w as nat),
        call_ensures(crate::math::erfc::erfc_asymptotic, (&x, w), s),
    ensures
        exists|xw: BigFloat, xsq: BigFloat, nxsq: BigFloat, v: BigFloat, vs: Status, c: BigFloat, two: BigFloat,
            two_x: BigFloat, leading: BigFloat, envelope: BigFloat, two_x_sq: BigFloat, one: BigFloat, t: BigFloat,
            mags: Seq<BigFloat>, terms: Seq<BigFloat>, accs: Seq<BigFloat>|
            #![trigger crate::math::rounded_near(x, w as nat, xw), crate::math::multiplied(xw, xw, xsq), crate::arith::negation_of(nxsq, xsq), call_ensures(BigFloat::exp, (&nxsq, RoundingMode::NearestEven), (v, vs)), call_ensures(crate::math::two_over_sqrt_pi_at, (w,), c), call_ensures(crate::math::int_at, (2i64, w), two), crate::math::multiplied(two, xw, two_x), crate::math::divided(c, two_x, leading), crate::math::multiplied(v, leading, envelope), crate::math::multiplied(two, xsq, two_x_sq), call_ensures(crate::math::one_at, (w,), one), crate::math::divided(one, two_x_sq, t), crate::math::sum_chain(one, terms, accs), mags.len()]
            crate::math::rounded_near(x, w as nat, xw) && crate::math::multiplied(xw, xw, xsq) && crate::arith::negation_of(nxsq, xsq)
                && call_ensures(BigFloat::exp, (&nxsq, RoundingMode::NearestEven), (v, vs))
                && call_ensures(crate::math::two_over_sqrt_pi_at, (w,), c) && call_ensures(crate::math::int_at, (2i64, w), two)
                && crate::math::multiplied(two, xw, two_x) && crate::math::divided(c, two_x, leading)
                && crate::math::multiplied(v, leading, envelope)
                && crate::math::multiplied(two, xsq, two_x_sq) && call_ensures(crate::math::one_at, (w,), one)
                && crate::math::divided(one, two_x_sq, t)
                && mags.len() == terms.len() + 1 && crate::float::same(mags[0], one)
                && crate::math::erfc::erfc_mags(mags, t, w) && crate::math::erfc::erfc_signs(terms, mags)
                && crate::math::sum_chain(one, terms, accs) && crate::math::multiplied(envelope, accs.last(), s),
{
    assert(crate::math::erfc::erfc_asymptotic_form(x, w, s));
}

/// On the negative axis `ψ` is evaluated by the reflection
/// `ψ(x) = ψ(1 − x) − π·cot(πx)`: the value is what `ψ` gives at
/// `1 − x` minus `π` times the quotient of what `cos` and `sin` give at
/// `π·x`, each operation rounded to nearest at the working precision.
pub proof fn law_digamma_reflection(x: BigFloat, w: u32, r: BigFloat)
    requires
        x.wf(),
        crate::types::prec_ok(w as nat),
        call_ensures(crate::math::digamma::digamma_negative_value, (&x, w), r),
    ensures
        exists|w2: u32, one: BigFloat, y: BigFloat, pi: BigFloat, pix: BigFloat, sv: BigFloat, ss: Status, cv: BigFloat,
            cs: Status, cot: BigFloat, pic: BigFloat, ps: BigFloat, pss: Status|
            #![trigger call_ensures(crate::math::one_at, (w2,), one), crate::math::subtracted(one, x, y), call_ensures(crate::math::pi_at, (w2,), pi), crate::math::multiplied(pi, x, pix), call_ensures(BigFloat::sin, (&pix, RoundingMode::NearestEven), (sv, ss)), call_ensures(BigFloat::cos, (&pix, RoundingMode::NearestEven), (cv, cs)), crate::math::divided(cv, sv, cot), crate::math::multiplied(pi, cot, pic), call_ensures(crate::math::digamma::digamma_positive_kernel, (&y, w2, RoundingMode::NearestEven), (ps, pss))]
            call_ensures(crate::math::one_at, (w2,), one) && crate::math::subtracted(one, x, y)
                && call_ensures(crate::math::pi_at, (w2,), pi) && crate::math::multiplied(pi, x, pix)
                && call_ensures(BigFloat::sin, (&pix, RoundingMode::NearestEven), (sv, ss))
                && call_ensures(BigFloat::cos, (&pix, RoundingMode::NearestEven), (cv, cs))
                && crate::math::divided(cv, sv, cot) && crate::math::multiplied(pi, cot, pic)
                && call_ensures(crate::math::digamma::digamma_positive_kernel, (&y, w2, RoundingMode::NearestEven), (ps, pss))
                && crate::math::subtracted(ps, pic, r),
{
    let w2 = choose|w2: u32| #[trigger] crate::math::digamma::digamma_reflection(x, w2, r);
    assert(crate::math::digamma::digamma_reflection(x, w2, r));
}

/// Below the series' reach `ψ` is lifted by
/// `ψ(x) = ψ(x + n) − Σ_{k<n} 1/(x + k)`: where the yardstick of the
/// rounded argument `xw` falls short of `z_min` by `n`, the value is
/// what Stirling's series gives at `xw + n` minus the sum, from `+0`,
/// of the reciprocals `1/(xw + k)`, `k = 0, …, n − 1`; each operation
/// rounded to nearest at the working precision.
pub proof fn law_digamma_shift_recurrence(x: BigFloat, z_min: u32, w: u32, r: (BigFloat, i64))
    requires
        x.wf(),
        crate::types::prec_ok(w as nat),
        w <= crate::math::lgamma::STIRLING_REACH_THRESHOLD,
        call_ensures(crate::math::digamma::digamma_positive_at_w, (&x, z_min, w), r),
    ensures
        exists|xw: BigFloat| #[trigger] crate::math::rounded_near(x, w as nat, xw)
            && (crate::math::gamma_stirling::shift_magnitude(xw) < z_min ==>
                exists|nb: BigFloat, z: BigFloat, pz: BigFloat, one: BigFloat, zero: BigFloat, terms: Seq<BigFloat>, accs: Seq<BigFloat>|
                    #![trigger call_ensures(crate::math::int_at, ((z_min - crate::math::gamma_stirling::shift_magnitude(xw)) as u32 as i64, w), nb), crate::math::added(xw, nb, z), call_ensures(crate::math::gamma_stirling::stirling_digamma, (&z, w), pz), call_ensures(crate::math::one_at, (w,), one), call_ensures(crate::math::zero_at, (Sign::Positive, w), zero), crate::math::sum_chain(zero, terms, accs)]
                    call_ensures(crate::math::int_at, ((z_min - crate::math::gamma_stirling::shift_magnitude(xw)) as u32 as i64, w), nb)
                        && crate::math::added(xw, nb, z)
                        && call_ensures(crate::math::gamma_stirling::stirling_digamma, (&z, w), pz)
                        && call_ensures(crate::math::one_at, (w,), one) && call_ensures(crate::math::zero_at, (Sign::Positive, w), zero)
                        && terms.len() == (z_min - crate::math::gamma_stirling::shift_magnitude(xw)) as u32
                        && crate::math::sum_chain(zero, terms, accs)
                        && (forall|k: int| 0 <= k < terms.len() ==> crate::math::digamma::shift_reciprocal(xw, one, k, w, #[trigger] terms[k]))
                        && crate::math::subtracted(pz, accs.last(), r.0)),
{
    let xw = choose|xw: BigFloat| #[trigger] crate::math::rounded_near(x, w as nat, xw)
        && crate::math::digamma::digamma_at_w_form(xw, z_min, w, r);
    assert(crate::math::rounded_near(x, w as nat, xw));
}

/// Below the series' reach `ln Γ` is lifted by
/// `ln Γ(x) = ln Γ(x + n) − ln(x·(x+1)···(x+n−1))`: where the yardstick
/// of the rounded argument `xw` falls short of `z_min` by `n`, the value
/// is what Stirling's series gives at `xw + n` minus what `ln` gives at
/// the running product of `xw` and the factors `xw + k`,
/// `k = 1, …, n − 1`; each operation rounded to nearest at the working
/// precision.
pub proof fn law_lgamma_shift_recurrence(x: BigFloat, z_min: u32, w: u32, r: (BigFloat, i64))
    requires
        x.wf(),
        crate::types::prec_ok(w as nat),
        w <= crate::math::lgamma::STIRLING_REACH_THRESHOLD,
        call_ensures(crate::math::lgamma::lgamma_positive_at_w, (&x, z_min, w), r),
    ensures
        exists|xw: BigFloat| #[trigger] crate::math::rounded_near(x, w as nat, xw)
            && (crate::math::gamma_stirling::shift_magnitude(xw) < z_min ==>
                exists|nb: BigFloat, z: BigFloat, lz: BigFloat, factors: Seq<BigFloat>, prods: Seq<BigFloat>, lp: BigFloat, ls: Status|
                    #![trigger call_ensures(crate::math::int_at, ((z_min - crate::math::gamma_stirling::shift_magnitude(xw)) as u32 as i64, w), nb), crate::math::added(xw, nb, z), call_ensures(crate::math::gamma_stirling::stirling_lgamma, (&z, w), lz), crate::math::lgamma::product_chain(xw, factors, prods), call_ensures(BigFloat::ln, (&prods.last(), RoundingMode::NearestEven), (lp, ls))]
                    call_ensures(crate::math::int_at, ((z_min - crate::math::gamma_stirling::shift_magnitude(xw)) as u32 as i64, w), nb)
                        && crate::math::added(xw, nb, z)
                        && call_ensures(crate::math::gamma_stirling::stirling_lgamma, (&z, w), lz)
                        && factors.len() + 1 == (z_min - crate::math::gamma_stirling::shift_magnitude(xw)) as u32
                        && prods.len() == factors.len() + 1 && crate::float::same(prods[0], xw)
                        && (forall|i: int| 0 <= i < factors.len() ==> crate::math::multiplied(prods[i], #[trigger] factors[i], prods[i + 1]))
                        && (forall|j: int| 0 <= j < factors.len() ==> crate::math::lgamma::shift_factor(xw, j + 1, w, #[trigger] factors[j]))
                        && call_ensures(BigFloat::ln, (&prods.last(), RoundingMode::NearestEven), (lp, ls))
                        && crate::math::subtracted(lz, lp, r.0)),
{
    let xw = choose|xw: BigFloat| #[trigger] crate::math::rounded_near(x, w as nat, xw)
        && crate::math::lgamma::lgamma_at_w_form(xw, z_min, w, r);
    assert(crate::math::rounded_near(x, w as nat, xw));
    if crate::math::gamma_stirling::shift_magnitude(xw) < z_min {
        let n = (z_min - crate::math::gamma_stirling::shift_magnitude(xw)) as u32;
        let (z, lz, lp) = choose|z: BigFloat, lz: BigFloat, lp: BigFloat|
            #![trigger call_ensures(crate::math::lgamma::shift_up, (&xw, n, w), z), call_ensures(crate::math::gamma_stirling::stirling_lgamma, (&z, w), lz), call_ensures(crate::math::lgamma::product_ln, (&xw, n, w), lp)]
            call_ensures(crate::math::lgamma::shift_up, (&xw, n, w), z)
                && call_ensures(crate::math::gamma_stirling::stirling_lgamma, (&z, w), lz)
                && call_ensures(crate::math::lgamma::product_ln, (&xw, n, w), lp)
                && crate::math::subtracted(lz, lp, r.0);
        assert(crate::math::lgamma::product_ln_form(xw, n, w, lp));
        assert(n >= 1);
    }
}

} // verus!

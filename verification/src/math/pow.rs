//! `pow(x, y) = x^y`: the IEEE 754 special-case table, an integer
//! exponent by square-and-multiply, and `exp(y·ln x)` otherwise, each
//! rounded to the target by a recompute-and-compare Ziv driver.

use vstd::prelude::*;
use vstd::arithmetic::power2::*;
use vstd::arithmetic::div_mod::*;
use vstd::arithmetic::mul::*;
use crate::limbs::{nat_of, shl, shr, div_small, low_word, from_u64, mul_small, limb_cap, lemma_nat_of_bound};
use crate::types::{BigFloat, BuildError, Class, Sign, RoundingMode, Status, FLAG_INVALID, FLAG_DIV_BY_ZERO, prec_ok, MAX_PRECISION};
use crate::round::{bits, round_sig, rounded, rounding_inexact, lemma_exact_rounding, lemma_bits_le, lemma_bits_bounds};
use crate::float::{finite_value_is, sig_limbs, lemma_sig_bounds, is_quiet_nan_with};
use crate::fixed::FixedFloat;
use super::gamma::{scaled_is, lemma_scaled_mul, lemma_round_integer, lemma_int_value_is, lemma_bits_mono, lemma_value_exponent};
use super::{wadd, one_at, rnd, rne, zero_at, inf_at, qnan_at, exponent_of, is_unit, is_unit_exec};

verus! {

/// Parity of an integer.
#[derive(Clone, Copy, Debug, PartialEq, Eq, Structural)]
pub enum Parity {
    Even,
    Odd,
}

/// The magnitude `sig·2^lsb` of a normal value, when that is an integer.
pub open spec fn int_magnitude(y: BigFloat) -> Option<nat> {
    if y.lsb_exp() >= 0 {
        Some(y.sig() * pow2(y.lsb_exp() as nat))
    } else if y.sig() % pow2((-y.lsb_exp()) as nat) == 0 {
        Some(y.sig() / pow2((-y.lsb_exp()) as nat))
    } else {
        None
    }
}

/// The integer a value denotes, when it denotes one: zero is 0, a
/// normal value is one when no set bit lies below the binary point.
pub open spec fn int_value(y: BigFloat) -> Option<int> {
    match y.class {
        Class::Zero { .. } => Some(0int),
        Class::Normal { .. } => match int_magnitude(y) {
            Some(m) => Some(if y.spec_neg() { -(m as int) } else { m as int }),
            None => None,
        },
        _ => None,
    }
}

pub open spec fn parity_of(v: int) -> Parity {
    if v % 2 == 0 { Parity::Even } else { Parity::Odd }
}

/// Whether `y` is an odd integer.
pub open spec fn is_odd_int(y: BigFloat) -> bool {
    int_value(y) matches Some(v) && v % 2 == 1
}

/// The integer `y` denotes when it lies strictly between `-2^63` and
/// `2^63`.
pub open spec fn small_int(y: BigFloat) -> Option<i64> {
    match int_value(y) {
        Some(v) => if -0x8000_0000_0000_0000 < v < 0x8000_0000_0000_0000 { Some(v as i64) } else { None },
        None => None,
    }
}

pub proof fn lemma_pow2_le(a: nat, b: nat)
    requires
        a <= b,
    ensures
        pow2(a) <= pow2(b),
{
    if a < b {
        lemma_pow2_strictly_increases(a, b);
    }
}

proof fn lemma_neg_parity(m: int)
    ensures
        (-m) % 2 == m % 2,
{
    lemma_fundamental_div_mod(m, 2);
    lemma_fundamental_div_mod_converse(-m, 2, -(m / 2) - (if m % 2 == 0 { 0int } else { 1int }), if m % 2 == 0 { 0int } else { 1int });
}

/// A normal value of negative exponent is no integer; the integer
/// magnitude of one of exponent `e ≥ 0` lies in `[2^e, 2^(e+1))`.
pub proof fn lemma_int_magnitude(y: BigFloat)
    requires
        y.wf(),
        y.class is Normal,
    ensures
        y.class->Normal_exponent < 0 ==> int_magnitude(y) is None,
        int_magnitude(y) matches Some(m) ==> pow2(y.class->Normal_exponent as nat) <= m
            && m < pow2((y.class->Normal_exponent + 1) as nat),
{
    lemma_sig_bounds(y);
    let e = y.class->Normal_exponent;
    let p = y.precision as nat;
    let sig = y.sig();
    let lsb = y.lsb_exp();
    if lsb >= 0 {
        let s = lsb as nat;
        lemma_pow2_adds((p - 1) as nat, s);
        lemma_pow2_adds(p, s);
        assert((p - 1) as nat + s == e as nat);
        assert(p + s == (e + 1) as nat);
        lemma_pow2_pos(s);
        lemma_mul_inequality(pow2((p - 1) as nat) as int, sig as int, pow2(s) as int);
        lemma_mul_strict_inequality(sig as int, pow2(p) as int, pow2(s) as int);
        lemma_mul_is_commutative(sig as int, pow2(s) as int);
        lemma_mul_is_commutative(pow2(p) as int, pow2(s) as int);
        lemma_mul_is_commutative(pow2((p - 1) as nat) as int, pow2(s) as int);
        assert(pow2(e as nat) <= sig * pow2(s));
        assert(sig * pow2(s) < pow2((e + 1) as nat));
    } else {
        let k = (-lsb) as nat;
        lemma_pow2_pos(k);
        if e < 0 {
            if k > p {
                lemma_pow2_strictly_increases(p, k);
            }
            lemma_small_mod(sig, pow2(k));
        } else {
            let en = e as nat;
            lemma_pow2_adds(en, k);
            lemma_pow2_adds(en + 1, k);
            assert(en + k == (p - 1) as nat);
            assert(en + 1 + k == p);
            lemma_div_is_ordered((pow2(en) * pow2(k)) as int, sig as int, pow2(k) as int);
            lemma_div_by_multiple(pow2(en) as int, pow2(k) as int);
            lemma_div_by_multiple_is_strongly_ordered(sig as int, (pow2(en + 1) * pow2(k)) as int, pow2(en + 1) as int, pow2(k) as int);
            lemma_div_by_multiple(pow2(en + 1) as int, pow2(k) as int);
            assert((e + 1) as nat == en + 1);
        }
    }
}

/// The parity of `y` when it is an integer, `None` otherwise.
pub fn integer_parity(y: &BigFloat) -> (r: Option<Parity>)
    requires
        y.wf(),
    ensures
        r == (match int_value(*y) {
            Some(v) => Some(parity_of(v)),
            None => None::<Parity>,
        }),
{
    match &y.class {
        Class::Zero { .. } => Some(Parity::Even),
        Class::Normal { exponent, mantissa, sign } => {
            let p = y.precision;
            let scale: i128 = *exponent as i128 - p as i128 + 1;
            proof {
                lemma_sig_bounds(*y);
                let m = int_magnitude(*y);
                if m is Some {
                    lemma_neg_parity(m->0 as int);
                }
            }
            if scale > 0 {
                proof {
                    let s = scale as nat;
                    lemma_pow2_unfold(s);
                    let h = pow2((s - 1) as nat);
                    assert(y.sig() * pow2(s) == (y.sig() * h) * 2) by (nonlinear_arith)
                        requires pow2(s) == 2 * h;
                    lemma_mod_multiples_basic((y.sig() * h) as int, 2);
                }
                return Some(Parity::Even);
            }
            let sig = sig_limbs(mantissa, p);
            if scale == 0 {
                let (q, b) = div_small(&sig, 2);
                proof {
                    lemma2_to64();
                    assert(y.sig() * pow2(0) == y.sig()) by (nonlinear_arith)
                        requires pow2(0) == 1;
                    lemma_fundamental_div_mod_converse(y.sig() as int, 2, nat_of(q@) as int, b as int);
                }
                return Some(if b == 1 { Parity::Odd } else { Parity::Even });
            }
            if -scale >= p as i128 {
                proof {
                    let k = (-scale) as nat;
                    if k > p as nat {
                        lemma_pow2_strictly_increases(p as nat, k);
                    }
                    lemma_small_mod(y.sig(), pow2(k));
                }
                return None;
            }
            let (q, rem) = shr(&sig, (-scale) as u64);
            if rem {
                return None;
            }
            let (q2, b) = div_small(&q, 2);
            proof {
                lemma_fundamental_div_mod_converse(nat_of(q@) as int, 2, nat_of(q2@) as int, b as int);
            }
            Some(if b == 1 { Parity::Odd } else { Parity::Even })
        },
        _ => None,
    }
}

/// The integer `y` denotes, when it is one strictly inside the `i64`
/// range bounded by `±2^63`.
pub fn integer_exponent(y: &BigFloat) -> (r: Option<i64>)
    requires
        y.wf(),
    ensures
        r == small_int(*y),
{
    match &y.class {
        Class::Zero { .. } => Some(0),
        Class::Normal { sign, exponent, mantissa } => {
            let e = *exponent;
            proof {
                lemma_int_magnitude(*y);
                lemma2_to64();
                lemma2_to64_rest();
                if e > 62 {
                    lemma_pow2_le(63, e as nat);
                    assert(pow2(63) == 0x8000_0000_0000_0000);
                    if int_magnitude(*y) is Some {
                        let m = int_magnitude(*y)->0;
                        assert(m >= pow2(e as nat));
                        assert(m >= 0x8000_0000_0000_0000);
                    }
                }
            }
            if e < 0 || e > 62 {
                return None;
            }
            let p = y.precision;
            proof {
                lemma_pow2_le((e + 1) as nat, 63);
            }
            let sig = sig_limbs(mantissa, p);
            let scale: i64 = e - p as i64 + 1;
            let mag: u64;
            if scale >= 0 {
                let t = shl(&sig, scale as u64);
                mag = low_word(&t);
                proof {
                    assert(nat_of(sig@) == y.sig());
                    assert(int_magnitude(*y) == Some(nat_of(t@)));
                }
            } else {
                let (q, rem) = shr(&sig, (-scale) as u64);
                proof {
                    assert(nat_of(sig@) == y.sig());
                    assert((-scale) as u64 as nat == (-y.lsb_exp()) as nat);
                }
                if rem {
                    assert(int_magnitude(*y) is None);
                    return None;
                }
                mag = low_word(&q);
                proof {
                    assert(int_magnitude(*y) == Some(nat_of(q@)));
                }
            }
            let neg = match sign {
                Sign::Negative => true,
                Sign::Positive => false,
            };
            proof {
                let m = int_magnitude(*y)->0;
                assert(m < 0x8000_0000_0000_0000);
                assert(mag as nat == m);
            }
            Some(if neg { -(mag as i64) } else { mag as i64 })
        },
        _ => None,
    }
}


/// `10^k`, when exactly representable in `p` bits.
pub fn ten_pow_if_fits(k: u64, p: u32) -> (r: Option<BigFloat>)
    requires
        prec_ok(p as nat),
    ensures
        r matches Some(v) ==> v.wf() && v.precision == p && !v.spec_neg()
            && finite_value_is(v, vstd::arithmetic::power::pow(10, k as nat), 0),
        r is Some <==> (k < p && !rounding_inexact(vstd::arithmetic::power::pow(10, k as nat) as nat, false, p as nat)),
{
    if k >= p as u64 {
        return None;
    }
    let mut n = from_u64(1);
    let mut i: u64 = 0;
    proof {
        reveal(vstd::arithmetic::power::pow);
    }
    while i < k
        invariant
            i <= k < p,
            prec_ok(p as nat),
            nat_of(n@) == vstd::arithmetic::power::pow(10, i as nat),
            n.len() == i + 1,
        decreases k - i,
    {
        n = mul_small(&n, 10);
        proof {
            reveal(vstd::arithmetic::power::pow);
            assert(vstd::arithmetic::power::pow(10, (i + 1) as nat) == 10 * vstd::arithmetic::power::pow(10, i as nat));
        }
        i = i + 1;
    }
    let ghost nv = nat_of(n@);
    proof {
        vstd::arithmetic::power::lemma_pow_positive(10, k as nat);
        lemma_nat_of_bound(n@);
        lemma_bits_le(nv, (64 * n.len()) as nat);
        lemma_bits_bounds(nv);
    }
    let (v, st) = round_sig(false, &n, false, 0, p, RoundingMode::NearestEven);
    if st.bits != 0 {
        return None;
    }
    proof {
        lemma_exact_rounding(nv, 0, p as nat, false, RoundingMode::NearestEven);
    }
    Some(v)
}

/// `|x| > 1` for a value that is not a NaN.
pub open spec fn mag_gt_one(x: BigFloat) -> bool {
    match x.class {
        Class::Infinity { .. } => true,
        Class::Normal { exponent, .. } => exponent >= 1 || (exponent == 0 && x.sig() != pow2((x.precision - 1) as nat)),
        _ => false,
    }
}

pub fn mag_gt_one_exec(x: &BigFloat) -> (r: bool)
    requires
        x.wf(),
    ensures
        r == mag_gt_one(*x),
{
    match &x.class {
        Class::Infinity { .. } => true,
        Class::Normal { exponent, .. } => *exponent >= 1 || (*exponent == 0 && !is_unit_exec(x, x.is_sign_negative())),
        _ => false,
    }
}

/// A quiet NaN of the given sign with no payload.
pub open spec fn is_plain_nan(r: BigFloat, neg: bool) -> bool {
    is_quiet_nan_with(r, neg) && r.class->Nan_payload@.len() == 0
}

pub fn plain_nan(neg: bool, p: u32) -> (r: BigFloat)
    requires
        prec_ok(p as nat),
    ensures
        r.wf(),
        r.precision == p,
        is_plain_nan(r, neg),
{
    let sign = if neg { Sign::Negative } else { Sign::Positive };
    BigFloat { class: Class::Nan { quiet: true, sign, payload: Vec::new() }, precision: p }
}

/// The IEEE 754 special cases of `pow(x, y)`, in the order they are
/// decided; a finite nonzero base with a finite nonzero exponent that
/// is not refused goes to the numeric paths.
pub open spec fn pow_special(x: BigFloat, y: BigFloat, r: BigFloat, st: Status) -> bool {
    if (x.class is Nan && !x.class->Nan_quiet) || (y.class is Nan && !y.class->Nan_quiet) {
        is_plain_nan(r, false) && st.bits == FLAG_INVALID
    } else if y.class is Zero || is_unit(x, false) {
        finite_value_is(r, 1, 0) && !r.spec_neg() && st.bits == 0
    } else if x.class is Nan {
        is_plain_nan(r, x.spec_neg()) && st.bits == 0
    } else if y.class is Nan {
        is_plain_nan(r, y.spec_neg()) && st.bits == 0
    } else if y.class is Infinity {
        st.bits == 0 && if is_unit(x, true) {
            finite_value_is(r, 1, 0) && !r.spec_neg()
        } else if mag_gt_one(x) == !y.spec_neg() {
            r.class == (Class::Infinity { sign: Sign::Positive })
        } else {
            r.class == (Class::Zero { sign: Sign::Positive })
        }
    } else if x.class is Zero {
        let s = crate::types::sign_of(x.spec_neg() && is_odd_int(y));
        if y.spec_neg() {
            r.class == (Class::Infinity { sign: s }) && st.bits == FLAG_DIV_BY_ZERO
        } else {
            r.class == (Class::Zero { sign: s }) && st.bits == 0
        }
    } else if x.class is Infinity {
        let s = crate::types::sign_of(x.spec_neg() && is_odd_int(y));
        st.bits == 0 && if y.spec_neg() {
            r.class == (Class::Zero { sign: s })
        } else {
            r.class == (Class::Infinity { sign: s })
        }
    } else if x.spec_neg() && int_value(y) is None {
        is_plain_nan(r, false) && st.bits == FLAG_INVALID
    } else {
        true
    }
}

/// Two values rounded to one precision are the same number.
fn same_rounded(a: &BigFloat, b: &BigFloat) -> (r: bool)
    requires
        a.wf(),
        b.wf(),
    ensures
        r == (crate::arith::order_of(*a, *b) == Some(0int)),
{
    match a.compare(b) {
        Some(v) => v == 0,
        None => false,
    }
}

/// Round `eval`'s value to `target` bits under `mode` by
/// recompute-and-compare: two consecutive guards whose roundings at
/// `target` agree settle the result; otherwise the guard doubles, a
/// bounded number of times, and the last rounding is returned.
pub fn pow_ziv<F: Fn(u32) -> BigFloat>(eval: F, target: u32, mode: RoundingMode) -> (r: (BigFloat, Status))
    requires
        prec_ok(target as nat),
        forall|w: u32| prec_ok(w as nat) ==> #[trigger] eval.requires((w,)),
        forall|w: u32, y: BigFloat| prec_ok(w as nat) && #[trigger] eval.ensures((w,), y) ==> y.wf(),
    ensures
        r.0.wf(),
        r.0.precision == target,
        exists|w: u32, y: BigFloat| #[trigger] eval.ensures((w,), y) && w as int >= super::prec_clamp(target + 64)
            && super::rounds_to(y, target as nat, mode, r.0, r.1),
{
    let mut guard: u32 = super::ziv::ZIV_BASE_GUARD;
    let mut prev: Option<BigFloat> = None;
    let mut last: Option<(BigFloat, Status)> = None;
    let mut i: u32 = 0;
    while i < super::ziv::ZIV_MAX_ITERS
        invariant
            prec_ok(target as nat),
            forall|w: u32| prec_ok(w as nat) ==> #[trigger] eval.requires((w,)),
            forall|w: u32, y: BigFloat| prec_ok(w as nat) && #[trigger] eval.ensures((w,), y) ==> y.wf(),
            64 <= guard <= super::ziv::ZIV_GUARD_CAP,
            prev matches Some(v) ==> v.wf(),
            last matches Some(v) ==> v.0.wf() && v.0.precision == target
                && exists|w: u32, y: BigFloat| #[trigger] eval.ensures((w,), y) && w as int >= super::prec_clamp(target + 64)
                    && super::rounds_to(y, target as nat, mode, v.0, v.1),
            i > 0 ==> last is Some,
        decreases super::ziv::ZIV_MAX_ITERS - i,
    {
        let working = wadd(target, guard as u64);
        let hi = eval(working);
        let (cand, status) = rnd(&hi, target, mode);
        match &prev {
            Some(pv) => {
                if same_rounded(&cand, pv) {
                    return (cand, status);
                }
            },
            None => {},
        }
        prev = Some(cand.dup());
        last = Some((cand, status));
        guard = if guard >= super::ziv::ZIV_GUARD_CAP / 2 { super::ziv::ZIV_GUARD_CAP } else { guard * 2 };
        i = i + 1;
    }
    match last {
        Some(v) => v,
        None => {
            proof {
                assert(false);
            }
            let y = eval(target);
            rnd(&y, target, mode)
        },
    }
}

/// The magnitude of a normal value's binary exponent.
pub open spec fn exp_size(y: BigFloat) -> int {
    let e = y.class->Normal_exponent as int;
    if e < 0 { -e } else { e }
}

/// Rounding `n·2^e0` lands in binade `e0 + bits(n) − 1` or the one
/// above, when both lie in range.
proof fn lemma_rounded_binade(r: BigFloat, st: Status, n: nat, sticky: bool, e0: int, p: nat, neg: bool, mode: RoundingMode)
    requires
        crate::round::round_result(r, st, n, sticky, e0, p, neg, mode),
        n > 0,
        crate::types::EXP_MIN <= e0 + bits(n) - 1,
        e0 + bits(n) <= crate::types::EXP_MAX,
    ensures
        r.class is Normal,
        e0 + bits(n) - 1 <= r.class->Normal_exponent <= e0 + bits(n),
{
    let (sg, e) = rounded(n, sticky, e0, p, neg, mode);
    assert(e == e0 + bits(n) - 1 || e == e0 + bits(n));
}

/// A product of normals sits in binade `ea + eb`, `ea + eb + 1` or
/// `ea + eb + 2`.
proof fn lemma_mul_binade(a: BigFloat, b: BigFloat, r: BigFloat, st: Status, p: nat, mode: RoundingMode)
    requires
        a.wf(),
        b.wf(),
        a.class is Normal,
        b.class is Normal,
        crate::arith::mul_spec(a, b, r, st, p, mode),
        crate::types::EXP_MIN <= a.class->Normal_exponent + b.class->Normal_exponent,
        a.class->Normal_exponent + b.class->Normal_exponent + 2 <= crate::types::EXP_MAX,
    ensures
        r.class is Normal,
        a.class->Normal_exponent + b.class->Normal_exponent <= r.class->Normal_exponent,
        r.class->Normal_exponent <= a.class->Normal_exponent + b.class->Normal_exponent + 2,
{
    lemma_sig_bounds(a);
    lemma_sig_bounds(b);
    let pa = a.precision as nat;
    let pb = b.precision as nat;
    let n = a.sig() * b.sig();
    lemma_pow2_adds((pa - 1) as nat, (pb - 1) as nat);
    lemma_pow2_adds(pa, pb);
    assert(pow2((pa - 1) as nat) * pow2((pb - 1) as nat) <= n) by (nonlinear_arith)
        requires
            pow2((pa - 1) as nat) <= a.sig(),
            pow2((pb - 1) as nat) <= b.sig(),
            n == a.sig() * b.sig();
    assert(n < pow2(pa) * pow2(pb)) by (nonlinear_arith)
        requires
            a.sig() < pow2(pa),
            b.sig() < pow2(pb),
            n == a.sig() * b.sig();
    assert((pa - 1) as nat + (pb - 1) as nat == (pa + pb - 2) as nat);
    if n < pow2((pa + pb - 1) as nat) {
        crate::round::lemma_bits_unique(n, (pa + pb - 1) as nat);
    } else {
        crate::round::lemma_bits_unique(n, pa + pb);
    }
    lemma_rounded_binade(r, st, n, false, a.lsb_exp() + b.lsb_exp(), p, a.spec_neg() != b.spec_neg(), mode);
}

/// A quotient of normals sits within one binade of `ea − eb`.
proof fn lemma_div_binade(a: BigFloat, b: BigFloat, r: BigFloat, st: Status, p: nat, mode: RoundingMode)
    requires
        a.wf(),
        b.wf(),
        a.class is Normal,
        b.class is Normal,
        prec_ok(p),
        crate::arith::div_spec(a, b, r, st, p, mode),
        crate::types::EXP_MIN <= a.class->Normal_exponent - b.class->Normal_exponent - 1,
        a.class->Normal_exponent - b.class->Normal_exponent + 1 <= crate::types::EXP_MAX,
    ensures
        r.class is Normal,
        a.class->Normal_exponent - b.class->Normal_exponent - 1 <= r.class->Normal_exponent,
        r.class->Normal_exponent <= a.class->Normal_exponent - b.class->Normal_exponent + 1,
{
    lemma_sig_bounds(a);
    lemma_sig_bounds(b);
    let pa = a.precision as nat;
    let pb = b.precision as nat;
    let k = crate::arith::div_shift(p, b);
    let sa = a.sig();
    let sb = b.sig();
    let big = sa * pow2(k);
    let n = big / sb;
    let lo_b = (pa - 1 + k - pb) as nat;
    let hi_b = (pa + k - pb + 1) as nat;
    lemma_pow2_pos(k);
    lemma_pow2_pos(pb);
    lemma_pow2_pos((pb - 1) as nat);
    lemma_pow2_adds((pa - 1) as nat, k);
    lemma_pow2_adds(pa, k);
    lemma_pow2_adds(lo_b, pb);
    lemma_pow2_adds(hi_b, (pb - 1) as nat);
    assert(pow2((pa - 1) as nat) * pow2(k) <= big) by (nonlinear_arith)
        requires
            pow2((pa - 1) as nat) <= sa,
            big == sa * pow2(k),
            pow2(k) > 0;
    assert(big < pow2(pa) * pow2(k)) by (nonlinear_arith)
        requires
            sa < pow2(pa),
            big == sa * pow2(k),
            pow2(k) > 0;
    assert(lo_b + pb == (pa - 1) as nat + k);
    assert(hi_b + (pb - 1) as nat == pa + k);
    // lower bound: n ≥ big / 2^pb ≥ 2^lo_b
    lemma_div_is_ordered_by_denominator(big as int, sb as int, pow2(pb) as int);
    lemma_div_is_ordered((pow2(lo_b) * pow2(pb)) as int, big as int, pow2(pb) as int);
    lemma_div_by_multiple(pow2(lo_b) as int, pow2(pb) as int);
    assert(n >= pow2(lo_b));
    // upper bound: n ≤ big / 2^(pb-1) < 2^hi_b
    lemma_div_is_ordered_by_denominator(big as int, pow2((pb - 1) as nat) as int, sb as int);
    assert(pow2(hi_b) * pow2((pb - 1) as nat) == pow2(pa) * pow2(k));
    assert(big < pow2(hi_b) * pow2((pb - 1) as nat));
    lemma_div_by_multiple_is_strongly_ordered(big as int, (pow2(hi_b) * pow2((pb - 1) as nat)) as int,
        pow2(hi_b) as int, pow2((pb - 1) as nat) as int);
    lemma_div_by_multiple(pow2(hi_b) as int, pow2((pb - 1) as nat) as int);
    assert((big as int) / (pow2((pb - 1) as nat) as int) < pow2(hi_b));
    assert((big as int) / (sb as int) <= (big as int) / (pow2((pb - 1) as nat) as int));
    assert(n == (big as int) / (sb as int));
    assert(n < pow2(hi_b));
    lemma_pow2_pos(lo_b);
    if n < pow2((lo_b + 1) as nat) {
        crate::round::lemma_bits_unique(n, (lo_b + 1) as nat);
    } else {
        crate::round::lemma_bits_unique(n, hi_b);
    }
    lemma_rounded_binade(r, st, n, (sa * pow2(k)) % sb != 0, a.lsb_exp() - b.lsb_exp() - k, p,
        a.spec_neg() != b.spec_neg(), mode);
}

/// `x` rounded to `p` bits sits in its own binade or the one above.
proof fn lemma_rounds_to_binade(x: BigFloat, p: nat, mode: RoundingMode, r: BigFloat, st: Status)
    requires
        x.wf(),
        x.class is Normal,
        super::rounds_to(x, p, mode, r, st),
        x.class->Normal_exponent + 1 <= crate::types::EXP_MAX,
    ensures
        r.class is Normal,
        x.class->Normal_exponent <= r.class->Normal_exponent <= x.class->Normal_exponent + 1,
{
    lemma_sig_bounds(x);
    lemma_rounded_binade(r, st, x.sig(), false, x.lsb_exp(), p, x.spec_neg(), mode);
}

/// `x` is a positive integer `v` whose power `v^n` (`n ≥ 1`) fits in
/// `w` bits.
pub open spec fn int_power_fits(x: BigFloat, n: nat, w: nat) -> bool {
    &&& x.class is Normal
    &&& !x.spec_neg()
    &&& int_value(x) is Some
    &&& 1 <= n
    &&& bits(vstd::arithmetic::power::pow(int_value(x)->0, n) as nat) <= w
}

/// A smaller power of a positive integer fits wherever a larger one does.
proof fn lemma_int_power_bits(v: int, a: nat, n: nat, w: nat)
    requires
        v >= 1,
        a <= n,
        bits(vstd::arithmetic::power::pow(v, n) as nat) <= w,
    ensures
        bits(vstd::arithmetic::power::pow(v, a) as nat) <= w,
        vstd::arithmetic::power::pow(v, a) >= 1,
{
    vstd::arithmetic::power::lemma_pow_positive(v, a);
    vstd::arithmetic::power::lemma_pow_increases(v as nat, a, n);
    lemma_bits_mono(vstd::arithmetic::power::pow(v, a) as nat, vstd::arithmetic::power::pow(v, n) as nat);
}

/// A product of two positive integers that fits in `w` bits is exact.
proof fn lemma_mul_exact(a: BigFloat, va: int, b: BigFloat, vb: int, r: BigFloat, st: Status, w: nat)
    requires
        a.wf(),
        b.wf(),
        a.class is Normal,
        b.class is Normal,
        va >= 1,
        vb >= 1,
        finite_value_is(a, va, 0),
        finite_value_is(b, vb, 0),
        a.precision == w,
        b.precision == w,
        crate::arith::mul_spec(a, b, r, st, w, RoundingMode::NearestEven),
        bits((va * vb) as nat) <= w,
    ensures
        r.class is Normal,
        !r.spec_neg(),
        finite_value_is(r, va * vb, 0),
{
    lemma_value_exponent(a, va);
    lemma_value_exponent(b, vb);
    lemma_sig_bounds(a);
    lemma_sig_bounds(b);
    lemma_pow2_pos((a.precision - 1) as nat);
    lemma_pow2_pos((b.precision - 1) as nat);
    assert(scaled_is(a.sig() as int, a.lsb_exp(), va));
    assert(scaled_is(b.sig() as int, b.lsb_exp(), vb));
    lemma_scaled_mul(a.sig() as int, a.lsb_exp(), va, b.sig() as int, b.lsb_exp(), vb);
    assert(a.sig() * b.sig() > 0) by (nonlinear_arith)
        requires
            a.sig() > 0,
            b.sig() > 0;
    assert(va * vb >= 1) by (nonlinear_arith)
        requires
            va >= 1,
            vb >= 1;
    lemma_round_integer(r, st, a.sig() * b.sig(), a.lsb_exp() + b.lsb_exp(), w, RoundingMode::NearestEven, (va * vb) as nat);
}

/// `x^n_abs` by square-and-multiply at working precision `w`.
pub fn pow_int(x: &BigFloat, n_abs: u64, w: u32) -> (r: BigFloat)
    requires
        x.wf(),
        prec_ok(w as nat),
    ensures
        r.wf(),
        r.precision == w,
        n_abs == 0 ==> finite_value_is(r, 1, 0),
        x.class is Normal && n_abs * (exp_size(*x) + 3) <= 0x1000_0000
            ==> r.class is Normal && exp_size(r) <= n_abs * (exp_size(*x) + 3),
        int_power_fits(*x, n_abs as nat, w as nat)
            ==> finite_value_is(r, vstd::arithmetic::power::pow(int_value(*x)->0, n_abs as nat), 0),
{
    let mut result = one_at(w);
    let mut base = rne(x, w);
    let mut e: u64 = n_abs;
    let ghost bb: int = exp_size(*x) + 3;
    let ghost good: bool = x.class is Normal && 1 <= n_abs && n_abs * bb <= 0x1000_0000;
    let ghost mut pw: int = 1;
    let ghost ex: bool = int_power_fits(*x, n_abs as nat, w as nat);
    let ghost v: int = int_value(*x)->0;
    let ghost mut rexp: nat = 0;
    let ghost mut bexp: nat = 1;
    proof {
        if ex {
            lemma_int_magnitude(*x);
            lemma_pow2_pos(x.class->Normal_exponent as nat);
            assert(v >= 1);
            lemma_int_value_is(*x, v);
            vstd::arithmetic::power::lemma_pow0(v);
            vstd::arithmetic::power::lemma_pow1(v);
            let st = choose|st: Status| super::rounds_to(*x, w as nat, RoundingMode::NearestEven, base, st);
            lemma_int_power_bits(v, 1, n_abs as nat, w as nat);
            crate::float::lemma_sig_bounds(*x);
            lemma_pow2_pos((x.precision - 1) as nat);
            lemma_round_integer(base, st, x.sig(), x.lsb_exp(), w as nat, RoundingMode::NearestEven, v as nat);
        }
    }
    proof {
        if good {
            assert(n_abs * bb >= bb) by (nonlinear_arith)
                requires
                    n_abs >= 1,
                    bb >= 0;
            let st = choose|st: Status| super::rounds_to(*x, w as nat, RoundingMode::NearestEven, base, st);
            lemma_rounds_to_binade(*x, w as nat, RoundingMode::NearestEven, base, st);
        }
    }
    while e > 0
        invariant
            prec_ok(w as nat),
            result.wf(),
            result.precision == w,
            base.wf(),
            base.precision == w,
            e <= n_abs,
            e == n_abs ==> finite_value_is(result, 1, 0),
            e == n_abs ==> result.class is Normal && result.class->Normal_exponent == 0,
            bb == exp_size(*x) + 3,
            good == (x.class is Normal && 1 <= n_abs && n_abs * bb <= 0x1000_0000),
            good ==> pw >= 1 && e * pw <= n_abs,
            good ==> base.class is Normal && exp_size(base) + 2 <= pw * bb,
            good ==> result.class is Normal && exp_size(result) + 2 <= (n_abs - e * pw) * bb + 2,
            ex == int_power_fits(*x, n_abs as nat, w as nat),
            ex ==> v == int_value(*x)->0 && v >= 1,
            ex ==> rexp + e * bexp == n_abs && bexp >= 1,
            ex ==> base.class is Normal && !base.spec_neg() && finite_value_is(base, vstd::arithmetic::power::pow(v, bexp), 0),
            ex ==> result.class is Normal && !result.spec_neg() && finite_value_is(result, vstd::arithmetic::power::pow(v, rexp), 0),
        decreases e,
    {
        let ghost e_old: int = e as int;
        if e % 2 == 1 {
            let ghost res_old = result;
            let (prod, prod_st) = result.mul(&base, RoundingMode::NearestEven);
            proof {
                if good {
                    assert(pw <= n_abs) by (nonlinear_arith)
                        requires
                            e_old >= 1,
                            pw >= 1,
                            e_old * pw <= n_abs;
                    assert(pw * bb <= n_abs * bb) by (nonlinear_arith)
                        requires
                            pw <= n_abs,
                            bb >= 0;
                    assert((n_abs - e_old * pw) * bb <= n_abs * bb) by (nonlinear_arith)
                        requires
                            e_old * pw >= 0,
                            bb >= 0;
                    lemma_mul_binade(res_old, base, prod, prod_st, w as nat, RoundingMode::NearestEven);
                    assert((n_abs - e_old * pw) * bb + pw * bb == (n_abs - (e_old - 1) * pw) * bb) by (nonlinear_arith);
                }
            }
            proof {
                if ex {
                    assert(rexp + bexp <= n_abs) by (nonlinear_arith)
                        requires
                            rexp + e_old * bexp == n_abs,
                            e_old >= 1,
                            bexp >= 1;
                    lemma_int_power_bits(v, rexp + bexp, n_abs as nat, w as nat);
                    vstd::arithmetic::power::lemma_pow_adds(v, rexp, bexp);
                    vstd::arithmetic::power::lemma_pow_positive(v, rexp);
                    vstd::arithmetic::power::lemma_pow_positive(v, bexp);
                    lemma_mul_exact(res_old, vstd::arithmetic::power::pow(v, rexp), base, vstd::arithmetic::power::pow(v, bexp),
                        prod, prod_st, w as nat);
                    rexp = rexp + bexp;
                    assert(rexp + (e_old - 1) * bexp == n_abs) by (nonlinear_arith)
                        requires
                            rexp - bexp + e_old * bexp == n_abs;
                }
            }
            result = prod;
        }
        e = e / 2;
        proof {
            if ex {
                if e_old % 2 == 1 {
                    assert(rexp + (2 * e) * bexp == n_abs) by (nonlinear_arith)
                        requires
                            rexp + (e_old - 1) * bexp == n_abs,
                            e_old - 1 == 2 * e;
                } else {
                    assert(rexp + (2 * e) * bexp == n_abs) by (nonlinear_arith)
                        requires
                            rexp + e_old * bexp == n_abs,
                            e_old == 2 * e;
                }
            }
        }
        proof {
            if good {
                assert(e_old - e_old % 2 == 2 * e);
                if e_old % 2 == 1 {
                    assert(exp_size(result) + 2 <= (n_abs - (e_old - 1) * pw) * bb + 2);
                }
                assert(exp_size(result) + 2 <= (n_abs - (2 * e) * pw) * bb + 2) by (nonlinear_arith)
                    requires
                        e_old % 2 == 1 ==> exp_size(result) + 2 <= (n_abs - (e_old - 1) * pw) * bb + 2,
                        e_old % 2 == 0 ==> exp_size(result) + 2 <= (n_abs - e_old * pw) * bb + 2,
                        e_old - e_old % 2 == 2 * e,
                        e_old % 2 == 0 || e_old % 2 == 1;
                assert((2 * e) * pw <= n_abs) by (nonlinear_arith)
                    requires
                        e_old * pw <= n_abs,
                        2 * e <= e_old,
                        pw >= 1,
                        e >= 0;
            }
        }
        if e > 0 {
            let (sq, sq_st) = base.mul(&base, RoundingMode::NearestEven);
            proof {
                if good {
                    assert(2 * pw <= n_abs) by (nonlinear_arith)
                        requires
                            e >= 1,
                            pw >= 1,
                            (2 * e) * pw <= n_abs;
                    assert(2 * (pw * bb) <= n_abs * bb) by (nonlinear_arith)
                        requires
                            2 * pw <= n_abs,
                            bb >= 0;
                    assert(pw * bb <= 0x1000_0000);
                    assert(exp_size(base) <= 0x1000_0000);
                    lemma_mul_binade(base, base, sq, sq_st, w as nat, RoundingMode::NearestEven);
                    assert(exp_size(sq) + 2 <= 2 * (pw * bb));
                    assert((2 * pw) * bb == 2 * (pw * bb)) by (nonlinear_arith);
                    assert(e * (2 * pw) == (2 * e) * pw) by (nonlinear_arith);
                    pw = 2 * pw;
                }
                if ex {
                    assert(bexp + bexp <= n_abs) by (nonlinear_arith)
                        requires
                            rexp + (2 * e) * bexp == n_abs,
                            e >= 1,
                            bexp >= 1;
                    lemma_int_power_bits(v, bexp + bexp, n_abs as nat, w as nat);
                    vstd::arithmetic::power::lemma_pow_adds(v, bexp, bexp);
                    vstd::arithmetic::power::lemma_pow_positive(v, bexp);
                    lemma_mul_exact(base, vstd::arithmetic::power::pow(v, bexp), base, vstd::arithmetic::power::pow(v, bexp),
                        sq, sq_st, w as nat);
                    bexp = bexp + bexp;
                    assert(rexp + e * bexp == n_abs) by (nonlinear_arith)
                        requires
                            rexp + (2 * e) * (bexp / 2) == n_abs,
                            bexp % 2 == 0;
                }
            }
            base = sq;
        } else {
            proof {
                if good {
                    assert((2 * e) * pw == 0) by (nonlinear_arith)
                        requires
                            e == 0;
                    assert(e * pw == 0) by (nonlinear_arith)
                        requires
                            e == 0;
                }
                if ex {
                    assert(rexp == n_abs) by (nonlinear_arith)
                        requires
                            rexp + (2 * e) * bexp == n_abs,
                            e == 0;
                    assert(rexp + e * bexp == n_abs) by (nonlinear_arith)
                        requires
                            rexp == n_abs,
                            e == 0;
                }
            }
        }
    }
    proof {
        if x.class is Normal && n_abs * (exp_size(*x) + 3) <= 0x1000_0000 && !good {
            assert(n_abs == 0);
        }
        if ex {
            assert(rexp == n_abs) by (nonlinear_arith)
                requires
                    rexp + e * bexp == n_abs,
                    e == 0;
        }
    }
    result
}

/// Exponents past this bound on the predicted result exponent take
/// the `exp·ln` path.
pub const POW_INT_RESULT_EXPONENT_CAP: i128 = 0x100_0000;

/// `r` with status `st` is the rounding at `p` bits under `mode` of a
/// value equal to the integer `v`.
pub open spec fn rounds_value(v: int, p: nat, mode: RoundingMode, r: BigFloat, st: Status) -> bool {
    exists|y: BigFloat| y.wf() && finite_value_is(y, v, 0) && super::rounds_to(y, p, mode, r, st)
}

/// Whether the integer path takes `x^n`: `x` is normal and the
/// predicted result exponent `|n·(|e_x|+1)|` stays within the cap.
pub open spec fn pow_int_applies(x: BigFloat, n: int) -> bool {
    x.class is Normal && -POW_INT_RESULT_EXPONENT_CAP <= n * (exp_size(x) + 1) <= POW_INT_RESULT_EXPONENT_CAP
}

/// `x^n` through square-and-multiply and [`pow_ziv`]; `None` exactly
/// when `x` is not normal or the predicted result exponent
/// `|n|·(|e_x|+1)` passes the cap: within the cap no partial product
/// over- or underflows, so the rounded result is always normal.
fn pow_int_path(x: &BigFloat, n: i64, target: u32, mode: RoundingMode) -> (r: Option<(BigFloat, Status)>)
    requires
        x.wf(),
        prec_ok(target as nat),
    ensures
        r is Some <==> pow_int_applies(*x, n as int),
        r matches Some(v) ==> v.0.wf() && v.0.precision == target && v.0.class is Normal,
        n >= 1 && pow_int_applies(*x, n as int) && int_power_fits(*x, n as nat, super::prec_clamp(target + 64) as nat)
            ==> (r matches Some(v) && rounds_value(vstd::arithmetic::power::pow(int_value(*x)->0, n as nat), target as nat, mode, v.0, v.1)),
{
    let e_x = match &x.class {
        Class::Normal { exponent, .. } => *exponent,
        _ => return None,
    };
    let ex_abs: i128 = if e_x < 0 { -(e_x as i128) } else { e_x as i128 };
    let nn: i128 = n as i128;
    assert(-0x8000_0000_0000_0000 * (0x8000_0000_0000_0001int) <= nn * (ex_abs + 1) <= 0x8000_0000_0000_0000 * (0x8000_0000_0000_0001int))
        by (nonlinear_arith)
        requires
            -0x8000_0000_0000_0000 <= nn <= 0x7fff_ffff_ffff_ffff,
            0 <= ex_abs <= 0x8000_0000_0000_0000;
    let est: i128 = nn * (ex_abs + 1);
    let est_abs: i128 = if est < 0 { -est } else { est };
    if est_abs > POW_INT_RESULT_EXPONENT_CAP {
        return None;
    }
    let n_abs: u64 = if n < 0 { (-nn) as u64 } else { n as u64 };
    let neg_n = n < 0;
    proof {
        assert(ex_abs == exp_size(*x));
        assert(n_abs * (ex_abs + 1) == est_abs) by (nonlinear_arith)
            requires
                n_abs == (if nn < 0 { -nn } else { nn as int }),
                est == nn * (ex_abs + 1),
                est_abs == (if est < 0 { -est } else { est as int }),
                ex_abs >= 0;
        assert(n_abs * (exp_size(*x) + 3) <= 0x1000_0000) by (nonlinear_arith)
            requires
                n_abs * (ex_abs + 1) <= POW_INT_RESULT_EXPONENT_CAP,
                ex_abs == exp_size(*x),
                ex_abs >= 0,
                n_abs >= 0;
    }
    let eval = |w: u32| -> (y: BigFloat)
        requires
            prec_ok(w as nat),
        ensures
            y.wf(),
            y.class is Normal,
            exp_size(y) <= n_abs * (exp_size(*x) + 3) + 1,
            int_power_fits(*x, n_abs as nat, w as nat) && !neg_n
                ==> finite_value_is(y, vstd::arithmetic::power::pow(int_value(*x)->0, n_abs as nat), 0),
    {
        let p = pow_int(x, n_abs, w);
        if neg_n {
            let one = one_at(w);
            let (q, q_st) = one.div(&p, RoundingMode::NearestEven);
            proof {
                lemma_div_binade(one, p, q, q_st, w as nat, RoundingMode::NearestEven);
            }
            q
        } else {
            p
        }
    };
    let (bf, status) = pow_ziv(eval, target, mode);
    proof {
        let (w, y) = choose|w: u32, y: BigFloat| #[trigger] eval.ensures((w,), y) && w as int >= super::prec_clamp(target + 64)
            && super::rounds_to(y, target as nat, mode, bf, status);
        lemma_rounds_to_binade(y, target as nat, mode, bf, status);
        if n >= 1 && int_power_fits(*x, n as nat, super::prec_clamp(target + 64) as nat) {
            assert(n_abs == n);
            assert(int_power_fits(*x, n_abs as nat, w as nat));
            assert(rounds_value(vstd::arithmetic::power::pow(int_value(*x)->0, n as nat), target as nat, mode, bf, status));
        }
    }
    if bf.is_infinite() || bf.is_zero() {
        None
    } else {
        Some((bf, status))
    }
}

/// The exact integer powers `pow` settles: a positive integer base
/// `v ≥ 2` raised to an integer `n ≥ 1` inside the integer path's cap,
/// whose power fits in `p + 64` bits, is rounded to `p` bits
/// under `mode`.
pub open spec fn pow_int_exact_case(x: BigFloat, y: BigFloat, p: nat, mode: RoundingMode, r: BigFloat, st: Status) -> bool {
    (small_int(y) matches Some(n) && n >= 1 && pow_int_applies(x, n as int)
        && int_power_fits(x, n as nat, super::prec_clamp(p as int + 64) as nat) && int_value(x)->0 >= 2)
        ==> rounds_value(vstd::arithmetic::power::pow(int_value(x)->0, small_int(y)->0 as nat), p, mode, r, st)
}

/// The exact integer powers `pow` settles on a negative base `−v`
/// (`v ≥ 2`): an even power is `v^n` rounded under `mode`;
/// an odd one is the negation of `v^n` rounded under the
/// mirrored mode, that is `−v^n` rounded under `mode`.
pub open spec fn pow_neg_int_exact_case(x: BigFloat, y: BigFloat, p: nat, mode: RoundingMode, r: BigFloat, st: Status) -> bool {
    (small_int(y) matches Some(n) && n >= 1 && x.class is Normal && x.spec_neg() && int_value(x) is Some
        && pow_int_applies(x, n as int) && -(int_value(x)->0) >= 2
        && bits(vstd::arithmetic::power::pow(-(int_value(x)->0), n as nat) as nat) <= super::prec_clamp(p as int + 64))
    ==> {
        let v = vstd::arithmetic::power::pow(-(int_value(x)->0), small_int(y)->0 as nat);
        if small_int(y)->0 % 2 == 1 {
            exists|m: BigFloat| #[trigger] crate::arith::negation_of(r, m)
                && rounds_value(v, p, super::mirrored_mode(mode), m, st)
        } else {
            rounds_value(v, p, mode, r, st)
        }
    }
}

/// `x^y` for a positive finite `x` and a finite `y`: the integer path
/// where it applies, otherwise `exp(y·ln x)`.
fn pow_positive(x: &BigFloat, y: &BigFloat, target: u32, mode: RoundingMode) -> (r: (BigFloat, Status))
    requires
        x.wf(),
        y.wf(),
        prec_ok(target as nat),
    ensures
        r.0.wf(),
        r.0.precision == target,
        pow_int_exact_case(*x, *y, target as nat, mode, r.0, r.1),
        pow_value(*x, *y, r.0, r.1, target as nat, mode),
{
    match integer_exponent(y) {
        Some(n) => {
            match pow_int_path(x, n, target, mode) {
                Some(v) => return v,
                None => {},
            }
        },
        None => {},
    }
    let eval = |w: u32| -> (v: BigFloat)
        requires
            prec_ok(w as nat),
        ensures
            v.wf(),
            call_ensures(pow_at_w, (x, y, w), v),
    {
        pow_at_w(x, y, w)
    };
    pow_ziv(eval, target, mode)
}

/// `x^y = e^(y·ln x)` at working precision `w`.
pub fn pow_at_w(x: &BigFloat, y: &BigFloat, w: u32) -> (v: BigFloat)
    requires
        x.wf(),
        y.wf(),
        prec_ok(w as nat),
    ensures
        v.wf(),
        exists|xw: BigFloat, yw: BigFloat, lx: BigFloat, ls: Status, pr: BigFloat, es: Status|
            #![trigger super::rounded_near(*x, w as nat, xw), super::rounded_near(*y, w as nat, yw), call_ensures(BigFloat::ln, (&xw, RoundingMode::NearestEven), (lx, ls)), super::multiplied(yw, lx, pr), call_ensures(BigFloat::exp, (&pr, RoundingMode::NearestEven), (v, es))]
            super::rounded_near(*x, w as nat, xw) && super::rounded_near(*y, w as nat, yw)
                && call_ensures(BigFloat::ln, (&xw, RoundingMode::NearestEven), (lx, ls)) && super::multiplied(yw, lx, pr)
                && call_ensures(BigFloat::exp, (&pr, RoundingMode::NearestEven), (v, es)),
{
    let x_w = rne(x, w);
    let y_w = rne(y, w);
    let (ln_x, ls) = x_w.ln(RoundingMode::NearestEven);
    let (product, _) = y_w.mul(&ln_x, RoundingMode::NearestEven);
    let (result, es) = product.exp(RoundingMode::NearestEven);
    proof {
        assert(super::rounded_near(*x, w as nat, x_w));
        assert(super::rounded_near(*y, w as nat, y_w));
        assert(call_ensures(BigFloat::ln, (&x_w, RoundingMode::NearestEven), (ln_x, ls)));
        assert(super::multiplied(y_w, ln_x, product));
        assert(call_ensures(BigFloat::exp, (&product, RoundingMode::NearestEven), (result, es)));
    }
    result
}

/// What `pow` gives for a positive normal base other than one and a
/// normal exponent that is not an integer: the value [`pow_at_w`]
/// computes at a working precision of at least `p + 64` bits, rounded
/// to `p` bits under `mode`.
pub open spec fn pow_value(x: BigFloat, y: BigFloat, r: BigFloat, st: Status, p: nat, mode: RoundingMode) -> bool {
    x.class is Normal && !x.spec_neg() && !super::is_unit(x, false) && y.class is Normal && small_int(y) is None
        ==> exists|w: u32, v: BigFloat| #[trigger] call_ensures(pow_at_w, (&x, &y, w), v)
            && w as int >= super::prec_clamp(p as int + 64) && super::rounds_to(v, p, mode, r, st)
}

fn pow_x_infinite_y(x: &BigFloat, y_neg: bool, target: u32) -> (r: (BigFloat, Status))
    requires
        x.wf(),
        !(x.class is Nan),
        prec_ok(target as nat),
    ensures
        r.0.wf(),
        r.0.precision == target,
        r.1.bits == 0,
        is_unit(*x, true) ==> finite_value_is(r.0, 1, 0) && !r.0.spec_neg(),
        !is_unit(*x, true) ==> r.0.class == (if mag_gt_one(*x) == !y_neg {
            Class::Infinity { sign: Sign::Positive }
        } else {
            Class::Zero { sign: Sign::Positive }
        }),
{
    if is_unit_exec(x, true) {
        return (one_at(target), Status { bits: 0 });
    }
    if mag_gt_one_exec(x) == !y_neg {
        (inf_at(Sign::Positive, target), Status { bits: 0 })
    } else {
        (zero_at(Sign::Positive, target), Status { bits: 0 })
    }
}

fn odd_int_exec(y: &BigFloat) -> (r: bool)
    requires
        y.wf(),
    ensures
        r == is_odd_int(*y),
{
    match integer_parity(y) {
        Some(p) => p == Parity::Odd,
        None => false,
    }
}

fn pow_zero_base(x_neg: bool, y: &BigFloat, target: u32) -> (r: (BigFloat, Status))
    requires
        y.wf(),
        prec_ok(target as nat),
    ensures
        r.0.wf(),
        r.0.precision == target,
        ({
            let s = crate::types::sign_of(x_neg && is_odd_int(*y));
            if y.spec_neg() {
                r.0.class == (Class::Infinity { sign: s }) && r.1.bits == FLAG_DIV_BY_ZERO
            } else {
                r.0.class == (Class::Zero { sign: s }) && r.1.bits == 0
            }
        }),
{
    let sign = if x_neg && odd_int_exec(y) { Sign::Negative } else { Sign::Positive };
    if y.is_sign_negative() {
        (inf_at(sign, target), Status { bits: FLAG_DIV_BY_ZERO })
    } else {
        (zero_at(sign, target), Status { bits: 0 })
    }
}

fn pow_infinite_base(x_neg: bool, y: &BigFloat, target: u32) -> (r: (BigFloat, Status))
    requires
        y.wf(),
        prec_ok(target as nat),
    ensures
        r.0.wf(),
        r.0.precision == target,
        r.1.bits == 0,
        ({
            let s = crate::types::sign_of(x_neg && is_odd_int(*y));
            if y.spec_neg() {
                r.0.class == (Class::Zero { sign: s })
            } else {
                r.0.class == (Class::Infinity { sign: s })
            }
        }),
{
    let sign = if x_neg && odd_int_exec(y) { Sign::Negative } else { Sign::Positive };
    if y.is_sign_negative() {
        (zero_at(sign, target), Status { bits: 0 })
    } else {
        (inf_at(sign, target), Status { bits: 0 })
    }
}

fn pow_kernel(x: &BigFloat, y: &BigFloat, target: u32, mode: RoundingMode) -> (r: (BigFloat, Status))
    requires
        x.wf(),
        y.wf(),
        prec_ok(target as nat),
    ensures
        r.0.wf(),
        r.0.precision == target,
        pow_special(*x, *y, r.0, r.1),
        pow_int_exact_case(*x, *y, target as nat, mode, r.0, r.1),
        pow_neg_int_exact_case(*x, *y, target as nat, mode, r.0, r.1),
        pow_value(*x, *y, r.0, r.1, target as nat, mode),
{
    proof {
        if x.class is Normal {
            lemma_int_magnitude(*x);
            lemma2_to64();
        }
    }
    if x.is_signaling_nan() || y.is_signaling_nan() {
        return (plain_nan(false, target), Status { bits: FLAG_INVALID });
    }
    if y.is_zero() || is_unit_exec(x, false) {
        return (one_at(target), Status { bits: 0 });
    }
    if x.is_nan() {
        return (plain_nan(x.is_sign_negative(), target), Status { bits: 0 });
    }
    if y.is_nan() {
        return (plain_nan(y.is_sign_negative(), target), Status { bits: 0 });
    }
    if y.is_infinite() {
        return pow_x_infinite_y(x, y.is_sign_negative(), target);
    }
    if x.is_zero() {
        return pow_zero_base(x.is_sign_negative(), y, target);
    }
    if x.is_infinite() {
        return pow_infinite_base(x.is_sign_negative(), y, target);
    }
    if x.is_sign_negative() {
        match integer_parity(y) {
            Some(parity) => {
                let abs_x = x.abs();
                proof {
                    lemma_int_magnitude(abs_x);
                    assert(int_magnitude(abs_x) == int_magnitude(*x));
                    if int_value(*x) is Some {
                        assert(int_value(abs_x) == Some(-(int_value(*x)->0)));
                    }
                    assert(exp_size(abs_x) == exp_size(*x));
                }
                if parity == Parity::Odd {
                    let (abs_result, status) = pow_positive(&abs_x, y, target, super::mirror_mode_for_negation(mode));
                    let neg_result = abs_result.negated();
                    proof {
                        assert(crate::arith::negation_of(neg_result, abs_result));
                    }
                    return (neg_result, status);
                }
                return pow_positive(&abs_x, y, target, mode);
            },
            None => {
                return (plain_nan(false, target), Status { bits: FLAG_INVALID });
            },
        }
    }
    pow_positive(x, y, target, mode)
}

impl BigFloat {
    /// `self^other` rounded under `mode` to the larger of the two
    /// precisions.
    pub fn pow(&self, other: &BigFloat, mode: RoundingMode) -> (r: (BigFloat, Status))
        requires
            self.wf(),
            other.wf(),
        ensures
            r.0.wf(),
            r.0.precision == crate::arith::op_precision(*self, *other),
            pow_special(*self, *other, r.0, r.1),
            pow_int_exact_case(*self, *other, crate::arith::op_precision(*self, *other) as nat, mode, r.0, r.1),
            pow_neg_int_exact_case(*self, *other, crate::arith::op_precision(*self, *other) as nat, mode, r.0, r.1),
            pow_value(*self, *other, r.0, r.1, crate::arith::op_precision(*self, *other) as nat, mode),
    {
        let target = if self.precision >= other.precision { self.precision } else { other.precision };
        pow_kernel(self, other, target, mode)
    }

    /// `self^other` rounded under `mode` to `target_precision` bits.
    pub fn pow_round(&self, other: &BigFloat, target_precision: u32, mode: RoundingMode) -> (r: Result<(BigFloat, Status), BuildError>)
        requires
            self.wf(),
            other.wf(),
        ensures
            r is Ok <==> prec_ok(target_precision as nat),
            target_precision == 0 ==> r == Err::<(BigFloat, Status), BuildError>(BuildError::PrecisionZero),
            r matches Ok(v) ==> v.0.wf() && v.0.precision == target_precision && pow_special(*self, *other, v.0, v.1)
                && pow_int_exact_case(*self, *other, target_precision as nat, mode, v.0, v.1)
                && pow_neg_int_exact_case(*self, *other, target_precision as nat, mode, v.0, v.1)
                && pow_value(*self, *other, v.0, v.1, target_precision as nat, mode),
    {
        BigFloat::check_precision(target_precision)?;
        Ok(pow_kernel(self, other, target_precision, mode))
    }
}

impl<const PREC: u32> FixedFloat<PREC> {
    /// `self^other` at the fixed precision.
    pub fn pow(&self, other: &FixedFloat<PREC>, mode: RoundingMode) -> (r: (FixedFloat<PREC>, Status))
        requires
            self.wf(),
            other.wf(),
        ensures
            r.0.wf(),
            pow_special(self.value(), other.value(), r.0.value(), r.1),
            pow_int_exact_case(self.value(), other.value(), PREC as nat, mode, r.0.value(), r.1),
            pow_neg_int_exact_case(self.value(), other.value(), PREC as nat, mode, r.0.value(), r.1),
            pow_value(self.value(), other.value(), r.0.value(), r.1, PREC as nat, mode),
            call_ensures(BigFloat::pow, (&self.value(), &other.value(), mode), (r.0.value(), r.1)),
    {
        let (big, st) = self.big_ref().pow(other.big_ref(), mode);
        (FixedFloat::wrap(big), st)
    }
}

} // verus!

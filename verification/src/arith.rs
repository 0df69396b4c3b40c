//! Correctly rounded multiplication, division, addition and
//! subtraction, and comparison.

use vstd::prelude::*;
use vstd::arithmetic::power2::*;
use vstd::arithmetic::div_mod::*;
use vstd::arithmetic::mul::*;
use crate::limbs::{nat_of, limb_cap, shl, shr, div_small, low_word, nat_add, nat_sub, nat_mul, divmod, from_u64, is_zero, lt, trim, lemma_nat_of_bound, lemma_trimmed_len};
use crate::types::{
    BigFloat, BuildError, Class, Sign, RoundingMode, Status, EXP_MAX, EXP_MIN, FLAG_DIV_BY_ZERO,
    MAX_PRECISION, limbs_for, prec_ok, sign_of, is_neg,
};
use crate::round::{bits, round_sig, round_result, lemma_bits_bounds};
use crate::float::{sig_limbs, lemma_sig_bounds, nan_result};

verus! {

/// Exponent of the least significant significand bit, in machine form.
fn lsb_exec(x: &BigFloat) -> (r: i128)
    requires
        x.wf(),
        x.class is Normal,
    ensures
        r == x.lsb_exp(),
        EXP_MIN - MAX_PRECISION <= r <= EXP_MAX,
{
    match &x.class {
        Class::Normal { exponent, .. } => *exponent as i128 - x.precision as i128 + 1,
        _ => 0,
    }
}

/// Significand limbs of a normal value.
fn sig_exec(x: &BigFloat) -> (r: Vec<u64>)
    requires
        x.wf(),
        x.class is Normal,
    ensures
        nat_of(r@) == x.sig(),
        r.len() <= limbs_for(x.precision as nat),
{
    match &x.class {
        Class::Normal { mantissa, .. } => sig_limbs(mantissa, x.precision),
        _ => Vec::new(),
    }
}

fn neg_exec(x: &BigFloat) -> (r: bool)
    ensures
        r == x.spec_neg(),
{
    x.is_sign_negative()
}

/// The precision of a binary operation's result: the wider operand's.
pub open spec fn op_precision(a: BigFloat, b: BigFloat) -> u32 {
    if a.precision >= b.precision { a.precision } else { b.precision }
}

/// What a product is, by operand classes.
pub open spec fn mul_spec(a: BigFloat, b: BigFloat, r: BigFloat, st: Status, p: nat, mode: RoundingMode) -> bool {
    let neg = a.spec_neg() != b.spec_neg();
    &&& r.wf()
    &&& r.precision == p
    &&& if a.class is Nan {
        nan_result(r, st, a, p)
    } else if b.class is Nan {
        nan_result(r, st, b, p)
    } else if (a.class is Infinity && b.class is Zero) || (a.class is Zero && b.class is Infinity) {
        r.class is Nan && r.class->Nan_quiet && st.bits == crate::types::FLAG_INVALID
    } else if a.class is Infinity || b.class is Infinity {
        r.class == (Class::Infinity { sign: sign_of(neg) }) && st.bits == 0
    } else if a.class is Zero || b.class is Zero {
        r.class == (Class::Zero { sign: sign_of(neg) }) && st.bits == 0
    } else {
        round_result(r, st, a.sig() * b.sig(), false, a.lsb_exp() + b.lsb_exp(), p, neg, mode)
    }
}

/// Extra quotient bits a division develops: the quotient of the
/// significands carries at least `p + 2` bits.
pub open spec fn div_shift(p: nat, b: BigFloat) -> nat {
    p + 2 + b.precision as nat
}

/// What a quotient is, by operand classes.
pub open spec fn div_spec(a: BigFloat, b: BigFloat, r: BigFloat, st: Status, p: nat, mode: RoundingMode) -> bool {
    let neg = a.spec_neg() != b.spec_neg();
    &&& r.wf()
    &&& r.precision == p
    &&& if a.class is Nan {
        nan_result(r, st, a, p)
    } else if b.class is Nan {
        nan_result(r, st, b, p)
    } else if (a.class is Infinity && b.class is Infinity) || (a.class is Zero && b.class is Zero) {
        r.class is Nan && r.class->Nan_quiet && st.bits == crate::types::FLAG_INVALID
    } else if a.class is Infinity {
        r.class == (Class::Infinity { sign: sign_of(neg) }) && st.bits == 0
    } else if b.class is Infinity || a.class is Zero {
        r.class == (Class::Zero { sign: sign_of(neg) }) && st.bits == 0
    } else if b.class is Zero {
        r.class == (Class::Infinity { sign: sign_of(neg) }) && st.bits == FLAG_DIV_BY_ZERO
    } else {
        let k = div_shift(p, b);
        round_result(r, st, (a.sig() * pow2(k)) / b.sig(), (a.sig() * pow2(k)) % b.sig() != 0,
            a.lsb_exp() - b.lsb_exp() - k, p, neg, mode)
    }
}

fn mul_normals(a: &BigFloat, b: &BigFloat, p: u32, mode: RoundingMode) -> (r: (BigFloat, Status))
    requires
        a.wf(),
        b.wf(),
        a.class is Normal,
        b.class is Normal,
        prec_ok(p as nat),
    ensures
        round_result(r.0, r.1, a.sig() * b.sig(), false, a.lsb_exp() + b.lsb_exp(), p as nat,
            a.spec_neg() != b.spec_neg(), mode),
{
    let sa = sig_exec(a);
    let sb = sig_exec(b);
    let n = nat_mul(&sa, &sb);
    let la = lsb_exec(a);
    let lb = lsb_exec(b);
    proof {
        lemma_sig_bounds(*a);
        lemma_sig_bounds(*b);
        lemma_pow2_pos((a.precision - 1) as nat);
        lemma_pow2_pos((b.precision - 1) as nat);
        assert(a.sig() * b.sig() > 0) by (nonlinear_arith) requires a.sig() > 0, b.sig() > 0;
    }
    round_sig(neg_exec(a) != neg_exec(b), &n, false, la + lb, p, mode)
}

/// The pre-rounding quotient of two normals carries at least `p + 2`
/// bits.
proof fn lemma_quotient_bound(a: BigFloat, b: BigFloat, p: nat)
    requires
        a.wf(),
        b.wf(),
        a.class is Normal,
        b.class is Normal,
        prec_ok(p),
    ensures
        (a.sig() * pow2(div_shift(p, b))) / b.sig() >= pow2(p + 1),
{
    let kk = div_shift(p, b);
    lemma_sig_bounds(a);
    lemma_sig_bounds(b);
    let pa = a.precision as nat;
    let pb = b.precision as nat;
    lemma_pow2_pos(kk);
    lemma_pow2_pos(pb);
    lemma_pow2_pos((pb - 1) as nat);
    lemma_pow2_adds((p + 1) as nat, pb);
    lemma_pow2_adds((pa - 1) as nat, kk);
    assert(a.sig() * pow2(kk) >= pow2((pa - 1) as nat) * pow2(kk)) by (nonlinear_arith)
        requires a.sig() >= pow2((pa - 1) as nat);
    if (p + 1) + pb < (pa - 1) + kk {
        lemma_pow2_strictly_increases((p + 1 + pb) as nat, ((pa - 1) + kk) as nat);
    }
    assert(pow2((p + 1) as nat) * pow2(pb) <= a.sig() * pow2(kk));
    lemma_div_is_ordered((pow2((p + 1) as nat) * pow2(pb)) as int, (a.sig() * pow2(kk)) as int, pow2(pb) as int);
    lemma_div_by_multiple(pow2((p + 1) as nat) as int, pow2(pb) as int);
    lemma_div_is_ordered_by_denominator((a.sig() * pow2(kk)) as int, b.sig() as int, pow2(pb) as int);
}

fn div_normals(a: &BigFloat, b: &BigFloat, p: u32, mode: RoundingMode) -> (r: (BigFloat, Status))
    requires
        a.wf(),
        b.wf(),
        a.class is Normal,
        b.class is Normal,
        prec_ok(p as nat),
    ensures
        round_result(r.0, r.1, (a.sig() * pow2(div_shift(p as nat, *b))) / b.sig(),
            (a.sig() * pow2(div_shift(p as nat, *b))) % b.sig() != 0,
            a.lsb_exp() - b.lsb_exp() - div_shift(p as nat, *b), p as nat,
            a.spec_neg() != b.spec_neg(), mode),
{
    let sa = sig_exec(a);
    let sb = sig_exec(b);
    let k: u64 = p as u64 + 2 + b.precision as u64;
    let top = crate::round::pow2_limbs(b.precision - 1);
    if !lt(&sb, &top) && !lt(&top, &sb) {
        // A power-of-two divisor divides exactly: shift instead.
        let s: u64 = k - (b.precision as u64 - 1);
        let q = shl(&sa, s);
        proof {
            let pb1 = (b.precision - 1) as nat;
            let kk = div_shift(p as nat, *b);
            lemma_sig_bounds(*a);
            lemma_pow2_pos(pb1);
            lemma_pow2_pos(s as nat);
            lemma_pow2_adds(s as nat, pb1);
            assert(kk == s as nat + pb1);
            let m = a.sig() * pow2(s as nat);
            assert(a.sig() * pow2(kk) == m * pow2(pb1)) by (nonlinear_arith)
                requires pow2(kk) == pow2(s as nat) * pow2(pb1), m == a.sig() * pow2(s as nat);
            lemma_div_by_multiple(m as int, pow2(pb1) as int);
            lemma_mod_multiples_basic(m as int, pow2(pb1) as int);
            assert(m > 0) by (nonlinear_arith) requires a.sig() > 0, pow2(s as nat) > 0, m == a.sig() * pow2(s as nat);
            lemma_nat_of_bound(sa@);
        }
        let la = lsb_exec(a);
        let lb = lsb_exec(b);
        return round_sig(neg_exec(a) != neg_exec(b), &q, false, la - lb - (k as i128), p, mode);
    }
    // A divisor of at most 64 significant bits, `h·2^t`: one pass of
    // single-word division.
    let t: u64 = if b.precision as u64 > 64 { b.precision as u64 - 64 } else { 0 };
    let (hv, lost) = shr(&sb, t);
    if !lost {
        let h = low_word(&hv);
        proof {
            lemma_sig_bounds(*b);
            lemma_pow2_pos(t as nat);
            lemma_fundamental_div_mod(b.sig() as int, pow2(t as nat) as int);
            assert(nat_of(sb@) % pow2(t as nat) == 0);
            assert(nat_of(hv@) == b.sig() / pow2(t as nat));
            assert(b.sig() == nat_of(hv@) * pow2(t as nat)) by (nonlinear_arith)
                requires
                    b.sig() as int == pow2(t as nat) as int * (b.sig() as int / pow2(t as nat) as int) + b.sig() as int % pow2(t as nat) as int,
                    b.sig() % pow2(t as nat) == 0,
                    nat_of(hv@) == b.sig() / pow2(t as nat);
            lemma_pow2_adds(64, t as nat);
            if (b.precision as nat) < 64 + t {
                lemma_pow2_strictly_increases(b.precision as nat, (64 + t) as nat);
            }
            lemma2_to64_rest();
            assert(nat_of(hv@) * pow2(t as nat) < pow2(64) * pow2(t as nat));
            lemma_mul_strict_inequality_converse(nat_of(hv@) as int, pow2(64) as int, pow2(t as nat) as int);
            assert(nat_of(hv@) > 0) by (nonlinear_arith)
                requires b.sig() == nat_of(hv@) * pow2(t as nat), b.sig() > 0;
        }
        let x = shl(&sa, k - t);
        let (q, rem) = div_small(&x, h);
        let la = lsb_exec(a);
        let lb = lsb_exec(b);
        proof {
            let kk = div_shift(p as nat, *b);
            let xx = nat_of(x@);
            let hh = h as nat;
            let pt = pow2(t as nat);
            lemma_pow2_pos(t as nat);
            lemma_pow2_adds((k - t) as nat, t as nat);
            assert(a.sig() * pow2(kk) == xx * pt) by (nonlinear_arith)
                requires xx == a.sig() * pow2((k - t) as nat), pow2(kk) == pow2((k - t) as nat) * pt;
            lemma_fundamental_div_mod(xx as int, hh as int);
            lemma_div_multiples_vanish(xx as int, pt as int);
            assert(xx * pt == pt * xx) by (nonlinear_arith);
            lemma_div_denominator((xx * pt) as int, pt as int, hh as int);
            assert(pt * hh == hh * pt) by (nonlinear_arith);
            lemma_mod_breakdown((xx * pt) as int, pt as int, hh as int);
            lemma_mod_multiples_basic(xx as int, pt as int);
            assert(nat_of(q@) == xx / hh && rem as nat == xx % hh) by (nonlinear_arith)
                requires
                    xx == nat_of(q@) * hh + rem as nat,
                    (rem as nat) < hh,
            {
                lemma_fundamental_div_mod_converse(xx as int, hh as int, nat_of(q@) as int, rem as int);
            }
            assert(b.sig() == hh * pt);
            assert((xx * pt) / pt == xx);
            assert(nat_of(q@) == (a.sig() * pow2(kk)) / b.sig());
            assert(((a.sig() * pow2(kk)) % b.sig() != 0) == (rem != 0)) by (nonlinear_arith)
                requires
                    (a.sig() * pow2(kk)) % b.sig() == pt * (xx % hh),
                    pt > 0,
                    rem as nat == xx % hh;
            lemma_quotient_bound(*a, *b, p as nat);
            lemma_pow2_pos(p as nat + 1);
            lemma_nat_of_bound(x@);
        }
        return round_sig(neg_exec(a) != neg_exec(b), &q, rem != 0, la - lb - (k as i128), p, mode);
    }
    let x = shl(&sa, k);
    proof {
        lemma_sig_bounds(*b);
        lemma_pow2_pos((b.precision - 1) as nat);
    }
    let (mut q, rem) = divmod(&x, &sb);
    let sticky = !is_zero(&rem);
    let la = lsb_exec(a);
    let lb = lsb_exec(b);
    let ghost kk = div_shift(p as nat, *b);
    proof {
        lemma_sig_bounds(*a);
        lemma_sig_bounds(*b);
        let pa = a.precision as nat;
        let pb = b.precision as nat;
        let pn = p as nat;
        lemma_pow2_pos(kk);
        lemma_pow2_pos(pb);
        lemma_pow2_adds((pn + 1) as nat, pb);
        lemma_pow2_adds((pa - 1) as nat, kk);
        assert(x@.len() >= 0);
        assert(a.sig() * pow2(kk) >= pow2((pa - 1) as nat) * pow2(kk)) by (nonlinear_arith)
            requires a.sig() >= pow2((pa - 1) as nat);
        if (pn + 1) + pb < (pa - 1) + kk {
            lemma_pow2_strictly_increases((pn + 1 + pb) as nat, ((pa - 1) + kk) as nat);
        }
        assert(pow2((pn + 1) as nat) * pow2(pb) <= a.sig() * pow2(kk));
        lemma_div_is_ordered((pow2((pn + 1) as nat) * pow2(pb)) as int, (a.sig() * pow2(kk)) as int, pow2(pb) as int);
        lemma_div_by_multiple(pow2((pn + 1) as nat) as int, pow2(pb) as int);
        lemma_div_is_ordered_by_denominator((a.sig() * pow2(kk)) as int, b.sig() as int, pow2(pb) as int);
        assert(nat_of(q@) >= pow2(pn + 1));
        lemma_pow2_pos(pn + 1);
        // size of the quotient
        lemma_nat_of_bound(q@);
    }
    trim(&mut q);
    proof {
        let pn = p as nat;
        let pa = a.precision as nat;
        // q <= x < 2^(64 * (len(sa) + k/64 + 1))
        lemma_div_is_ordered_by_denominator(nat_of(x@) as int, 1, b.sig() as int);
        lemma_nat_of_bound(x@);
        lemma_trimmed_len(q@, x.len() as nat);
    }
    round_sig(neg_exec(a) != neg_exec(b), &q, sticky, la - lb - (k as i128), p, mode)
}

impl BigFloat {
    /// `self · other` rounded to `precision` bits under `mode`.
    pub fn mul_round(&self, other: &BigFloat, precision: u32, mode: RoundingMode) -> (r: Result<(BigFloat, Status), BuildError>)
        requires
            self.wf(),
            other.wf(),
        ensures
            r is Ok <==> prec_ok(precision as nat),
            r matches Ok(v) ==> mul_spec(*self, *other, v.0, v.1, precision as nat, mode),
    {
        BigFloat::check_precision(precision)?;
        let neg = neg_exec(self) != neg_exec(other);
        let sign = if neg { Sign::Negative } else { Sign::Positive };
        if self.is_nan() {
            return Ok(self.nan_out(precision));
        }
        if other.is_nan() {
            return Ok(other.nan_out(precision));
        }
        if (self.is_infinite() && other.is_zero()) || (self.is_zero() && other.is_infinite()) {
            return Ok(BigFloat::invalid_nan(precision));
        }
        if self.is_infinite() || other.is_infinite() {
            return Ok((BigFloat { class: Class::Infinity { sign }, precision }, Status { bits: 0 }));
        }
        if self.is_zero() || other.is_zero() {
            return Ok((BigFloat { class: Class::Zero { sign }, precision }, Status { bits: 0 }));
        }
        Ok(mul_normals(self, other, precision, mode))
    }

    /// `self · other` at the wider operand precision.
    pub fn mul(&self, other: &BigFloat, mode: RoundingMode) -> (r: (BigFloat, Status))
        requires
            self.wf(),
            other.wf(),
        ensures
            mul_spec(*self, *other, r.0, r.1, op_precision(*self, *other) as nat, mode),
    {
        let p = if self.precision >= other.precision { self.precision } else { other.precision };
        match self.mul_round(other, p, mode) {
            Ok(v) => v,
            Err(_) => {
                proof { assert(false); }
                (self.dup(), Status { bits: 0 })
            },
        }
    }

    /// `self / other` rounded to `precision` bits under `mode`.
    pub fn div_round(&self, other: &BigFloat, precision: u32, mode: RoundingMode) -> (r: Result<(BigFloat, Status), BuildError>)
        requires
            self.wf(),
            other.wf(),
        ensures
            r is Ok <==> prec_ok(precision as nat),
            r matches Ok(v) ==> div_spec(*self, *other, v.0, v.1, precision as nat, mode),
    {
        BigFloat::check_precision(precision)?;
        let neg = neg_exec(self) != neg_exec(other);
        let sign = if neg { Sign::Negative } else { Sign::Positive };
        if self.is_nan() {
            return Ok(self.nan_out(precision));
        }
        if other.is_nan() {
            return Ok(other.nan_out(precision));
        }
        if (self.is_infinite() && other.is_infinite()) || (self.is_zero() && other.is_zero()) {
            return Ok(BigFloat::invalid_nan(precision));
        }
        if self.is_infinite() {
            return Ok((BigFloat { class: Class::Infinity { sign }, precision }, Status { bits: 0 }));
        }
        if other.is_infinite() || self.is_zero() {
            return Ok((BigFloat { class: Class::Zero { sign }, precision }, Status { bits: 0 }));
        }
        if other.is_zero() {
            return Ok((BigFloat { class: Class::Infinity { sign }, precision }, Status { bits: FLAG_DIV_BY_ZERO }));
        }
        Ok(div_normals(self, other, precision, mode))
    }

    /// `self / other` at the wider operand precision.
    pub fn div(&self, other: &BigFloat, mode: RoundingMode) -> (r: (BigFloat, Status))
        requires
            self.wf(),
            other.wf(),
        ensures
            div_spec(*self, *other, r.0, r.1, op_precision(*self, *other) as nat, mode),
    {
        let p = if self.precision >= other.precision { self.precision } else { other.precision };
        match self.div_round(other, p, mode) {
            Ok(v) => v,
            Err(_) => {
                proof { assert(false); }
                (self.dup(), Status { bits: 0 })
            },
        }
    }
}

/// The signed integer significand of a normal value.
pub open spec fn signed_sig(x: BigFloat) -> int {
    if x.spec_neg() { -(x.sig() as int) } else { x.sig() as int }
}

/// The lower of two least-significant-bit exponents.
pub open spec fn low_exp(a: BigFloat, b: BigFloat) -> int {
    if a.lsb_exp() <= b.lsb_exp() { a.lsb_exp() } else { b.lsb_exp() }
}

/// `(a + b) / 2^low_exp(a, b)`, an exact integer.
pub open spec fn aligned_sum(a: BigFloat, b: BigFloat) -> int {
    let lo = low_exp(a, b);
    signed_sig(a) * pow2((a.lsb_exp() - lo) as nat) + signed_sig(b) * pow2((b.lsb_exp() - lo) as nat)
}

/// Whether `small` lies wholly below the bits that rounding `big` to
/// `p` bits can see: `|small| < 2^(lsb(big) - p - 3)`.
pub open spec fn below_sight(big: BigFloat, small: BigFloat, p: nat) -> bool {
    small.class->Normal_exponent + 1 <= big.lsb_exp() - (p + 3)
}

/// The sign of an exact zero sum: negative only for two negative
/// zeros, or for a cancelled sum rounded toward negative.
pub open spec fn zero_sum_sign(both_neg: bool, mode: RoundingMode) -> Sign {
    if both_neg || mode == RoundingMode::TowardNegative { Sign::Negative } else { Sign::Positive }
}

/// The sum of two normal values.  When one operand lies below the
/// sight of the other, the rounding sees the larger operand followed by
/// a nonzero tail: `(n + δ)·2^e0` with the tail in `δ`.
pub open spec fn add_normals_spec(a: BigFloat, b: BigFloat, r: BigFloat, st: Status, p: nat, mode: RoundingMode) -> bool {
    let (x, y) = if a.class->Normal_exponent >= b.class->Normal_exponent { (a, b) } else { (b, a) };
    if below_sight(x, y, p) {
        round_result(r, st, (x.sig() * pow2(p + 3) - (if x.spec_neg() != y.spec_neg() { 1int } else { 0 })) as nat,
            true, x.lsb_exp() - (p + 3), p, x.spec_neg(), mode)
    } else {
        let s = aligned_sum(a, b);
        if s == 0 {
            r.wf() && r.precision == p && r.class == (Class::Zero { sign: zero_sum_sign(false, mode) }) && st.bits == 0
        } else {
            round_result(r, st, (if s < 0 { -s } else { s }) as nat, false, low_exp(a, b), p, s < 0, mode)
        }
    }
}

/// What a sum is, by operand classes.
pub open spec fn add_spec(a: BigFloat, b: BigFloat, r: BigFloat, st: Status, p: nat, mode: RoundingMode) -> bool {
    &&& r.wf()
    &&& r.precision == p
    &&& if a.class is Nan {
        nan_result(r, st, a, p)
    } else if b.class is Nan {
        nan_result(r, st, b, p)
    } else if a.class is Infinity && b.class is Infinity && a.spec_neg() != b.spec_neg() {
        r.class is Nan && r.class->Nan_quiet && st.bits == crate::types::FLAG_INVALID
    } else if a.class is Infinity {
        r.class == (Class::Infinity { sign: sign_of(a.spec_neg()) }) && st.bits == 0
    } else if b.class is Infinity {
        r.class == (Class::Infinity { sign: sign_of(b.spec_neg()) }) && st.bits == 0
    } else if a.class is Zero && b.class is Zero {
        r.class == (Class::Zero { sign: if a.spec_neg() == b.spec_neg() { sign_of(a.spec_neg()) } else { zero_sum_sign(false, mode) } }) && st.bits == 0
    } else if a.class is Zero {
        round_result(r, st, b.sig(), false, b.lsb_exp(), p, b.spec_neg(), mode)
    } else if b.class is Zero {
        round_result(r, st, a.sig(), false, a.lsb_exp(), p, a.spec_neg(), mode)
    } else {
        add_normals_spec(a, b, r, st, p, mode)
    }
}

fn exp_exec(x: &BigFloat) -> (r: i64)
    requires
        x.wf(),
        x.class is Normal,
    ensures
        r == x.class->Normal_exponent,
{
    match &x.class {
        Class::Normal { exponent, .. } => *exponent,
        _ => 0,
    }
}

/// `v` followed by a nonzero tail far below its last bit, rounded to
/// `p` bits: the tail shrinks the magnitude when `shrinks` holds.
pub fn nudge(x: &BigFloat, shrinks: bool, p: u32, mode: RoundingMode) -> (r: (BigFloat, Status))
    requires
        x.wf(),
        x.class is Normal,
        prec_ok(p as nat),
    ensures
        round_result(r.0, r.1, (x.sig() * pow2(p as nat + 3) - (if shrinks { 1int } else { 0 })) as nat,
            true, x.lsb_exp() - (p as nat + 3), p as nat, x.spec_neg(), mode),
{
    let sx = sig_exec(x);
    let mut n = shl(&sx, p as u64 + 3);
    proof {
        lemma_sig_bounds(*x);
        lemma_pow2_pos((x.precision - 1) as nat);
        lemma_pow2_strictly_increases(p as nat + 1, p as nat + 3);
        lemma_pow2_pos(p as nat + 1);
        assert(x.sig() * pow2(p as nat + 3) >= pow2(p as nat + 3)) by (nonlinear_arith)
            requires x.sig() >= 1;
    }
    if shrinks {
        let one = from_u64(1);
        n = nat_sub(&n, &one);
    }
    let lx = lsb_exec(x);
    round_sig(neg_exec(x), &n, true, lx - (p as i128 + 3), p, mode)
}

/// Sum of a normal value and a normal value below its sight.
fn add_far(x: &BigFloat, y: &BigFloat, p: u32, mode: RoundingMode) -> (r: (BigFloat, Status))
    requires
        x.wf(),
        y.wf(),
        x.class is Normal,
        y.class is Normal,
        prec_ok(p as nat),
    ensures
        round_result(r.0, r.1, (x.sig() * pow2(p as nat + 3) - (if x.spec_neg() != y.spec_neg() { 1int } else { 0 })) as nat,
            true, x.lsb_exp() - (p as nat + 3), p as nat, x.spec_neg(), mode),
{
    nudge(x, neg_exec(x) != neg_exec(y), p, mode)
}

/// Exact aligned sum of two normal values, then rounded.
fn add_near(a: &BigFloat, b: &BigFloat, p: u32, mode: RoundingMode) -> (r: (BigFloat, Status))
    requires
        a.wf(),
        b.wf(),
        a.class is Normal,
        b.class is Normal,
        prec_ok(p as nat),
        a.lsb_exp() - b.lsb_exp() <= 3 * MAX_PRECISION + 8,
        b.lsb_exp() - a.lsb_exp() <= 3 * MAX_PRECISION + 8,
    ensures
        ({
            let s = aligned_sum(*a, *b);
            if s == 0 {
                r.0.wf() && r.0.precision == p && r.0.class == (Class::Zero { sign: zero_sum_sign(false, mode) }) && r.1.bits == 0
            } else {
                round_result(r.0, r.1, (if s < 0 { -s } else { s }) as nat, false, low_exp(*a, *b), p as nat, s < 0, mode)
            }
        }),
{
    let la = lsb_exec(a);
    let lb = lsb_exec(b);
    let lo = if la <= lb { la } else { lb };
    let sa = sig_exec(a);
    let sb = sig_exec(b);
    let aa = shl(&sa, (la - lo) as u64);
    let bb = shl(&sb, (lb - lo) as u64);
    let na = neg_exec(a);
    let nb = neg_exec(b);
    let ghost pa = pow2((la - lo) as nat);
    let ghost pb = pow2((lb - lo) as nat);
    let ghost av = a.sig() * pa;
    let ghost bv = b.sig() * pb;
    let n: Vec<u64>;
    let neg: bool;
    if na == nb {
        n = nat_add(&aa, &bb);
        neg = na;
    } else if lt(&aa, &bb) {
        n = nat_sub(&bb, &aa);
        neg = nb;
    } else {
        n = nat_sub(&aa, &bb);
        neg = na;
    }
    proof {
        let s = aligned_sum(*a, *b);
        assert(signed_sig(*a) * pa == if na { -(av as int) } else { av as int }) by (nonlinear_arith)
            requires signed_sig(*a) == if na { -(a.sig() as int) } else { a.sig() as int }, av == a.sig() * pa;
        assert(signed_sig(*b) * pb == if nb { -(bv as int) } else { bv as int }) by (nonlinear_arith)
            requires signed_sig(*b) == if nb { -(b.sig() as int) } else { b.sig() as int }, bv == b.sig() * pb;
        assert(s == (if na { -(av as int) } else { av as int }) + (if nb { -(bv as int) } else { bv as int }));
        assert(nat_of(n@) == (if s < 0 { -s } else { s }));
        assert(s != 0 ==> neg == (s < 0));
    }
    if is_zero(&n) {
        let sign = match mode {
            RoundingMode::TowardNegative => Sign::Negative,
            _ => Sign::Positive,
        };
        return (BigFloat { class: Class::Zero { sign }, precision: p }, Status { bits: 0 });
    }
    let mut n2 = n;
    trim(&mut n2);
    proof {
        lemma_sig_bounds(*a);
        lemma_sig_bounds(*b);
        let k = (3 * MAX_PRECISION + 8 + MAX_PRECISION) as nat;
        lemma_pow2_adds(a.precision as nat, (la - lo) as nat);
        lemma_pow2_adds(b.precision as nat, (lb - lo) as nat);
        lemma_pow2_pos((la - lo) as nat);
        lemma_pow2_pos((lb - lo) as nat);
        assert(av < pow2(a.precision as nat) * pa) by (nonlinear_arith)
            requires a.sig() < pow2(a.precision as nat), av == a.sig() * pa, pa > 0;
        assert(bv < pow2(b.precision as nat) * pb) by (nonlinear_arith)
            requires b.sig() < pow2(b.precision as nat), bv == b.sig() * pb, pb > 0;
        lemma_pow2_pos((la - lo) as nat);
        lemma_pow2_pos((lb - lo) as nat);
        if a.precision as nat + (la - lo) < k {
            lemma_pow2_strictly_increases(a.precision as nat + (la - lo) as nat, k);
        }
        if b.precision as nat + (lb - lo) < k {
            lemma_pow2_strictly_increases(b.precision as nat + (lb - lo) as nat, k);
        }
        lemma_pow2_adds(k, 1);
        lemma2_to64();
        assert(nat_of(n2@) < pow2(k + 1));
        lemma_pow2_strictly_increases(k + 1, 64 * 0x20_0000);
        lemma_trimmed_len(n2@, 0x20_0000);
    }
    round_sig(neg, &n2, false, lo, p, mode)
}

impl BigFloat {
    /// `self + other` rounded to `precision` bits under `mode`.
    pub fn add_round(&self, other: &BigFloat, precision: u32, mode: RoundingMode) -> (r: Result<(BigFloat, Status), BuildError>)
        requires
            self.wf(),
            other.wf(),
        ensures
            r is Ok <==> prec_ok(precision as nat),
            r matches Ok(v) ==> add_spec(*self, *other, v.0, v.1, precision as nat, mode),
    {
        BigFloat::check_precision(precision)?;
        if self.is_nan() {
            return Ok(self.nan_out(precision));
        }
        if other.is_nan() {
            return Ok(other.nan_out(precision));
        }
        let na = neg_exec(self);
        let nb = neg_exec(other);
        if self.is_infinite() && other.is_infinite() && na != nb {
            return Ok(BigFloat::invalid_nan(precision));
        }
        if self.is_infinite() {
            return Ok((BigFloat { class: Class::Infinity { sign: self.sign() }, precision }, Status { bits: 0 }));
        }
        if other.is_infinite() {
            return Ok((BigFloat { class: Class::Infinity { sign: other.sign() }, precision }, Status { bits: 0 }));
        }
        if self.is_zero() && other.is_zero() {
            let sign = if na == nb { self.sign() } else {
                match mode {
                    RoundingMode::TowardNegative => Sign::Negative,
                    _ => Sign::Positive,
                }
            };
            return Ok((BigFloat { class: Class::Zero { sign }, precision }, Status { bits: 0 }));
        }
        if self.is_zero() {
            return other.round_to_precision(precision, mode);
        }
        if other.is_zero() {
            return self.round_to_precision(precision, mode);
        }
        let ea = exp_exec(self);
        let eb = exp_exec(other);
        let p3: i128 = precision as i128 + 3;
        if ea >= eb {
            if eb as i128 + 1 <= lsb_exec(self) - p3 {
                return Ok(add_far(self, other, precision, mode));
            }
        } else {
            if ea as i128 + 1 <= lsb_exec(other) - p3 {
                return Ok(add_far(other, self, precision, mode));
            }
        }
        Ok(add_near(self, other, precision, mode))
    }

    /// `self + other` at the wider operand precision.
    pub fn add(&self, other: &BigFloat, mode: RoundingMode) -> (r: (BigFloat, Status))
        requires
            self.wf(),
            other.wf(),
        ensures
            add_spec(*self, *other, r.0, r.1, op_precision(*self, *other) as nat, mode),
    {
        let p = if self.precision >= other.precision { self.precision } else { other.precision };
        match self.add_round(other, p, mode) {
            Ok(v) => v,
            Err(_) => {
                proof { assert(false); }
                (self.dup(), Status { bits: 0 })
            },
        }
    }

    /// `self - other` rounded to `precision` bits under `mode`: the sum
    /// with the negation of `other`.
    pub fn sub_round(&self, other: &BigFloat, precision: u32, mode: RoundingMode) -> (r: Result<(BigFloat, Status), BuildError>)
        requires
            self.wf(),
            other.wf(),
        ensures
            r is Ok <==> prec_ok(precision as nat),
            r matches Ok(v) ==> exists|m: BigFloat| negation_of(m, *other) && add_spec(*self, m, v.0, v.1, precision as nat, mode),
    {
        let m = other.negated();
        let r = self.add_round(&m, precision, mode);
        proof {
            assert(negation_of(m, *other));
            if r is Ok {
                assert(negation_of(m, *other) && add_spec(*self, m, r->Ok_0.0, r->Ok_0.1, precision as nat, mode));
            }
        }
        r
    }

    /// `self - other` at the wider operand precision.
    pub fn sub(&self, other: &BigFloat, mode: RoundingMode) -> (r: (BigFloat, Status))
        requires
            self.wf(),
            other.wf(),
        ensures
            exists|m: BigFloat| negation_of(m, *other) && add_spec(*self, m, r.0, r.1, op_precision(*self, *other) as nat, mode),
    {
        let m = other.negated();
        let r = self.add(&m, mode);
        proof {
            assert(negation_of(m, *other));
            assert(op_precision(*self, m) == op_precision(*self, *other));
            assert(negation_of(m, *other) && add_spec(*self, m, r.0, r.1, op_precision(*self, *other) as nat, mode));
        }
        r
    }
}

/// `m` is `x` with its sign bit flipped.
pub open spec fn negation_of(m: BigFloat, x: BigFloat) -> bool {
    &&& m.wf() == x.wf()
    &&& m.precision == x.precision
    &&& m.spec_neg() == !x.spec_neg()
    &&& m.class is Normal == x.class is Normal
    &&& m.class is Zero == x.class is Zero
    &&& m.class is Infinity == x.class is Infinity
    &&& m.class is Nan == x.class is Nan
    &&& (x.class is Normal ==> m.sig() == x.sig() && m.class->Normal_exponent == x.class->Normal_exponent)
    &&& (x.class is Nan ==> m.class->Nan_quiet == x.class->Nan_quiet)
}

/// `r` is `a − b` rounded to `p` bits under `mode`, with some flags.
pub open spec fn diff_spec(a: BigFloat, b: BigFloat, r: BigFloat, p: nat, mode: RoundingMode) -> bool {
    exists|m: BigFloat, st: Status| negation_of(m, b) && add_spec(a, m, r, st, p, mode)
}

/// `m` is `x` with a clear sign bit.
pub open spec fn abs_of(m: BigFloat, x: BigFloat) -> bool {
    &&& m.wf() == x.wf()
    &&& m.precision == x.precision
    &&& !m.spec_neg()
    &&& m.class is Normal == x.class is Normal
    &&& m.class is Zero == x.class is Zero
    &&& m.class is Infinity == x.class is Infinity
    &&& m.class is Nan == x.class is Nan
    &&& (x.class is Normal ==> m.sig() == x.sig() && m.class->Normal_exponent == x.class->Normal_exponent)
}

/// `(a - b) / 2^low_exp(a, b)` for normal values.
pub open spec fn aligned_diff(a: BigFloat, b: BigFloat) -> int {
    let lo = low_exp(a, b);
    signed_sig(a) * pow2((a.lsb_exp() - lo) as nat) - signed_sig(b) * pow2((b.lsb_exp() - lo) as nat)
}

pub open spec fn sgn(v: int) -> int {
    if v < 0 { -1 } else if v > 0 { 1 } else { 0 }
}

/// The order of two values: `Some(-1)`, `Some(0)`, `Some(1)`, or
/// `None` when either is a NaN.  Zeros of either sign are equal.
pub open spec fn order_of(a: BigFloat, b: BigFloat) -> Option<int> {
    if a.class is Nan || b.class is Nan {
        None
    } else if a.class is Infinity && b.class is Infinity {
        Some(if a.spec_neg() == b.spec_neg() { 0 } else if a.spec_neg() { -1 } else { 1 })
    } else if a.class is Infinity {
        Some(if a.spec_neg() { -1 } else { 1 })
    } else if b.class is Infinity {
        Some(if b.spec_neg() { 1 } else { -1 })
    } else if a.class is Zero && b.class is Zero {
        Some(0)
    } else if a.class is Zero {
        Some(if b.spec_neg() { 1 } else { -1 })
    } else if b.class is Zero {
        Some(if a.spec_neg() { -1 } else { 1 })
    } else {
        Some(sgn(aligned_diff(a, b)))
    }
}

/// A larger exponent means a larger magnitude.
pub proof fn lemma_mag_order(a: BigFloat, b: BigFloat)
    requires
        a.wf(),
        b.wf(),
        a.class is Normal,
        b.class is Normal,
        a.class->Normal_exponent > b.class->Normal_exponent,
    ensures
        a.sig() * pow2((a.lsb_exp() - low_exp(a, b)) as nat) > b.sig() * pow2((b.lsb_exp() - low_exp(a, b)) as nat),
{
    let lo = low_exp(a, b);
    let ka = (a.lsb_exp() - lo) as nat;
    let kb = (b.lsb_exp() - lo) as nat;
    let pa = a.precision as nat;
    let pb = b.precision as nat;
    lemma_sig_bounds(a);
    lemma_sig_bounds(b);
    lemma_pow2_pos(ka);
    lemma_pow2_pos(kb);
    lemma_pow2_adds((pa - 1) as nat, ka);
    lemma_pow2_adds(pb, kb);
    assert(a.sig() * pow2(ka) >= pow2((pa - 1) as nat) * pow2(ka)) by (nonlinear_arith)
        requires a.sig() >= pow2((pa - 1) as nat);
    assert(b.sig() * pow2(kb) < pow2(pb) * pow2(kb)) by (nonlinear_arith)
        requires b.sig() < pow2(pb), pow2(kb) > 0;
    let ea = a.class->Normal_exponent;
    let eb = b.class->Normal_exponent;
    assert((pa - 1) as nat + ka == ea - lo);
    assert(pb + kb == eb + 1 - lo);
    if eb + 1 < ea {
        lemma_pow2_strictly_increases(pb + kb, (pa - 1) as nat + ka);
    }
}

proof fn lemma_signed_scaled(x: BigFloat, k: nat)
    ensures
        signed_sig(x) * pow2(k) == if x.spec_neg() { -((x.sig() * pow2(k)) as int) } else { (x.sig() * pow2(k)) as int },
{
    if x.spec_neg() {
        assert((-(x.sig() as int)) * pow2(k) == -((x.sig() * pow2(k)) as int)) by (nonlinear_arith);
    }
}

/// Order of two normal values.
fn compare_normals(a: &BigFloat, b: &BigFloat) -> (r: i8)
    requires
        a.wf(),
        b.wf(),
        a.class is Normal,
        b.class is Normal,
    ensures
        r as int == sgn(aligned_diff(*a, *b)),
{
    let na = neg_exec(a);
    let nb = neg_exec(b);
    let ghost lo_g = low_exp(*a, *b);
    proof {
        lemma_signed_scaled(*a, (a.lsb_exp() - lo_g) as nat);
        lemma_signed_scaled(*b, (b.lsb_exp() - lo_g) as nat);
        lemma_sig_bounds(*a);
        lemma_sig_bounds(*b);
        lemma_pow2_pos((a.precision - 1) as nat);
        lemma_pow2_pos((b.precision - 1) as nat);
        lemma_pow2_pos((a.lsb_exp() - lo_g) as nat);
        lemma_pow2_pos((b.lsb_exp() - lo_g) as nat);
        assert(a.sig() * pow2((a.lsb_exp() - lo_g) as nat) > 0) by (nonlinear_arith)
            requires a.sig() > 0, pow2((a.lsb_exp() - lo_g) as nat) > 0;
        assert(b.sig() * pow2((b.lsb_exp() - lo_g) as nat) > 0) by (nonlinear_arith)
            requires b.sig() > 0, pow2((b.lsb_exp() - lo_g) as nat) > 0;
    }
    if na != nb {
        return if na { -1 } else { 1 };
    }
    let ea = exp_exec(a);
    let eb = exp_exec(b);
    let mag: i8;
    if ea > eb {
        proof { lemma_mag_order(*a, *b); }
        mag = 1;
    } else if ea < eb {
        proof {
            lemma_mag_order(*b, *a);
            assert(low_exp(*b, *a) == lo_g);
        }
        mag = -1;
    } else {
        let la = lsb_exec(a);
        let lb = lsb_exec(b);
        let lo = if la <= lb { la } else { lb };
        let sa = sig_exec(a);
        let sb = sig_exec(b);
        let aa = shl(&sa, (la - lo) as u64);
        let bb = shl(&sb, (lb - lo) as u64);
        if lt(&aa, &bb) {
            mag = -1;
        } else if lt(&bb, &aa) {
            mag = 1;
        } else {
            mag = 0;
        }
    }
    if na { -mag } else { mag }
}

impl BigFloat {
    /// The order of `self` and `other`: `Some(-1)`, `Some(0)` or
    /// `Some(1)`, or `None` when either is a NaN.
    pub fn compare(&self, other: &BigFloat) -> (r: Option<i8>)
        requires
            self.wf(),
            other.wf(),
        ensures
            r matches Some(v) ==> order_of(*self, *other) == Some(v as int),
            r is None ==> order_of(*self, *other) is None,
    {
        if self.is_nan() || other.is_nan() {
            return None;
        }
        let na = neg_exec(self);
        let nb = neg_exec(other);
        if self.is_infinite() && other.is_infinite() {
            return Some(if na == nb { 0 } else if na { -1 } else { 1 });
        }
        if self.is_infinite() {
            return Some(if na { -1 } else { 1 });
        }
        if other.is_infinite() {
            return Some(if nb { 1 } else { -1 });
        }
        if self.is_zero() && other.is_zero() {
            return Some(0);
        }
        if self.is_zero() {
            return Some(if nb { 1 } else { -1 });
        }
        if other.is_zero() {
            return Some(if na { -1 } else { 1 });
        }
        Some(compare_normals(self, other))
    }

    /// `self · 2^k`: exact unless the exponent leaves the representable
    /// range.
    pub fn scale_by_pow2(&self, k: i64) -> (r: (BigFloat, Status))
        requires
            self.wf(),
        ensures
            r.0.wf(),
            r.0.precision == self.precision,
            !(self.class is Normal) ==> same_class(r.0, *self) && r.1.bits == 0,
            self.class is Normal ==> {
                let e = self.class->Normal_exponent + k;
                &&& (EXP_MIN <= e <= EXP_MAX ==> r.0.class is Normal && r.0.sig() == self.sig()
                    && r.0.spec_neg() == self.spec_neg() && r.0.class->Normal_exponent == e && r.1.bits == 0)
                &&& (e > EXP_MAX ==> r.0.class == (Class::Infinity { sign: sign_of(self.spec_neg()) })
                    && r.1.bits == crate::types::FLAG_OVERFLOW | crate::types::FLAG_INEXACT)
                &&& (e < EXP_MIN ==> r.0.class == (Class::Zero { sign: sign_of(self.spec_neg()) })
                    && r.1.bits == crate::types::FLAG_UNDERFLOW | crate::types::FLAG_INEXACT)
            },
    {
        match &self.class {
            Class::Normal { sign, exponent, mantissa } => {
                let e: i128 = *exponent as i128 + k as i128;
                if e > EXP_MAX as i128 {
                    (BigFloat { class: Class::Infinity { sign: *sign }, precision: self.precision },
                        Status { bits: crate::types::FLAG_OVERFLOW | crate::types::FLAG_INEXACT })
                } else if e < EXP_MIN as i128 {
                    (BigFloat { class: Class::Zero { sign: *sign }, precision: self.precision },
                        Status { bits: crate::types::FLAG_UNDERFLOW | crate::types::FLAG_INEXACT })
                } else {
                    (BigFloat { class: Class::Normal { sign: *sign, exponent: e as i64, mantissa: mantissa.clone() }, precision: self.precision },
                        Status { bits: 0 })
                }
            },
            _ => (self.dup(), Status { bits: 0 }),
        }
    }
}

/// Same class with the same sign (payloads aside).
pub open spec fn same_class(a: BigFloat, b: BigFloat) -> bool {
    &&& a.spec_neg() == b.spec_neg()
    &&& a.class is Zero == b.class is Zero
    &&& a.class is Infinity == b.class is Infinity
    &&& a.class is Nan == b.class is Nan
    &&& a.class is Normal == b.class is Normal
    &&& (a.class is Nan ==> a.class->Nan_quiet == b.class->Nan_quiet)
}

} // verus!

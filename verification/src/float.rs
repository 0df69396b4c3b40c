//! Constructors, queries, and correctly rounded arithmetic on
//! [`BigFloat`].

use vstd::prelude::*;
use vstd::arithmetic::power2::*;
use vstd::arithmetic::div_mod::*;
use vstd::arithmetic::mul::*;
use crate::limbs::{
    nat_of, limb_cap, shl, shr, trim, nat_add, nat_sub, nat_mul, divmod, from_u64, bit_len, is_zero,
    lt, lemma_trimmed_len, lemma_nat_of_bound, trimmed,
};
use crate::types::{
    BigFloat, BuildError, Class, Sign, RoundingMode, Status, EXP_MAX, EXP_MIN, FLAG_INVALID,
    FLAG_DIV_BY_ZERO, FLAG_INEXACT, MAX_PRECISION, limbs_for, pad_bits, mant_wf, sig_of, prec_ok, sign_of,
    is_neg,
};
use crate::round::{
    bits, round_sig, round_result, rounded, limbs_for_exec, lemma_bits_bounds, lemma_bits_unique,
    lemma_exact_rounding, lemma_bits_le, rounding_inexact,
};

verus! {

/// Two values with equal fields (vectors compared by contents).
pub open spec fn same(a: BigFloat, b: BigFloat) -> bool {
    &&& a.precision == b.precision
    &&& match (a.class, b.class) {
        (Class::Zero { sign: s1 }, Class::Zero { sign: s2 }) => s1 == s2,
        (Class::Infinity { sign: s1 }, Class::Infinity { sign: s2 }) => s1 == s2,
        (Class::Nan { quiet: q1, sign: s1, payload: p1 }, Class::Nan { quiet: q2, sign: s2, payload: p2 }) =>
            q1 == q2 && s1 == s2 && p1@ == p2@,
        (Class::Normal { sign: s1, exponent: e1, mantissa: m1 }, Class::Normal { sign: s2, exponent: e2, mantissa: m2 }) =>
            s1 == s2 && e1 == e2 && m1@ == m2@,
        _ => false,
    }
}

/// The quiet NaN with the given sign and payload, as the NaN
/// constructors build it.
pub open spec fn is_quiet_nan_with(x: BigFloat, neg: bool) -> bool {
    x.class is Nan && x.class->Nan_quiet && x.spec_neg() == neg
}

impl BigFloat {
    /// A copy with the same fields.
    pub fn dup(&self) -> (r: BigFloat)
        ensures
            same(r, *self),
            self.wf() ==> r.wf(),
    {
        let class = match &self.class {
            Class::Zero { sign } => Class::Zero { sign: *sign },
            Class::Infinity { sign } => Class::Infinity { sign: *sign },
            Class::Nan { quiet, sign, payload } => Class::Nan { quiet: *quiet, sign: *sign, payload: payload.clone() },
            Class::Normal { sign, exponent, mantissa } => Class::Normal { sign: *sign, exponent: *exponent, mantissa: mantissa.clone() },
        };
        BigFloat { class, precision: self.precision }
    }

    /// Checks a requested precision.
    pub fn check_precision(p: u32) -> (r: Result<(), BuildError>)
        ensures
            r is Ok <==> prec_ok(p as nat),
            p == 0 ==> r == Err::<(), BuildError>(BuildError::PrecisionZero),
            p > MAX_PRECISION ==> r == Err::<(), BuildError>(BuildError::PrecisionTooLarge),
    {
        if p == 0 {
            Err(BuildError::PrecisionZero)
        } else if p > MAX_PRECISION {
            Err(BuildError::PrecisionTooLarge)
        } else {
            Ok(())
        }
    }

    /// A signed zero.
    pub fn try_new_zero(sign: Sign, precision: u32) -> (r: Result<BigFloat, BuildError>)
        ensures
            r is Ok <==> prec_ok(precision as nat),
            r matches Ok(x) ==> x.wf() && x.precision == precision && x.class == (Class::Zero { sign }),
    {
        Self::check_precision(precision)?;
        Ok(BigFloat { class: Class::Zero { sign }, precision })
    }

    /// A signed infinity.
    pub fn try_new_infinity(sign: Sign, precision: u32) -> (r: Result<BigFloat, BuildError>)
        ensures
            r is Ok <==> prec_ok(precision as nat),
            r matches Ok(x) ==> x.wf() && x.precision == precision && x.class == (Class::Infinity { sign }),
    {
        Self::check_precision(precision)?;
        Ok(BigFloat { class: Class::Infinity { sign }, precision })
    }

    /// Copies at most `limbs_for(precision)` payload limbs.
    fn clip_payload(payload: &[u64], precision: u32) -> (r: Vec<u64>)
        requires
            prec_ok(precision as nat),
        ensures
            r.len() == (if payload.len() <= limbs_for(precision as nat) { payload.len() as nat }
                else { limbs_for(precision as nat) }),
            r@ == payload@.take(r.len() as int),
    {
        let l = limbs_for_exec(precision);
        let mut r: Vec<u64> = Vec::new();
        let mut i: usize = 0;
        while i < payload.len() && i < l
            invariant
                i <= l,
                i <= payload.len(),
                r@ == payload@.take(i as int),
            decreases payload.len() - i,
        {
            r.push(payload[i]);
            i += 1;
            assert(r@ =~= payload@.take(i as int));
        }
        r
    }

    /// A quiet NaN carrying (the leading limbs of) `payload`.
    pub fn try_new_quiet_nan(sign: Sign, precision: u32, payload: &[u64]) -> (r: Result<BigFloat, BuildError>)
        ensures
            r is Ok <==> prec_ok(precision as nat),
            r matches Ok(x) ==> x.wf() && x.precision == precision && x.class is Nan
                && x.class->Nan_quiet && x.class->Nan_sign == sign,
    {
        Self::check_precision(precision)?;
        let p = Self::clip_payload(payload, precision);
        Ok(BigFloat { class: Class::Nan { quiet: true, sign, payload: p }, precision })
    }

    /// A signaling NaN carrying (the leading limbs of) `payload`.
    pub fn try_new_signaling_nan(sign: Sign, precision: u32, payload: &[u64]) -> (r: Result<BigFloat, BuildError>)
        ensures
            r is Ok <==> prec_ok(precision as nat),
            r matches Ok(x) ==> x.wf() && x.precision == precision && x.class is Nan
                && !x.class->Nan_quiet && x.class->Nan_sign == sign,
    {
        Self::check_precision(precision)?;
        let p = Self::clip_payload(payload, precision);
        Ok(BigFloat { class: Class::Nan { quiet: false, sign, payload: p }, precision })
    }

    pub fn precision(&self) -> (r: u32)
        ensures
            r == self.precision,
    {
        self.precision
    }

    pub fn is_zero(&self) -> (r: bool)
        ensures
            r == self.class is Zero,
    {
        matches!(self.class, Class::Zero { .. })
    }

    pub fn is_infinite(&self) -> (r: bool)
        ensures
            r == self.class is Infinity,
    {
        matches!(self.class, Class::Infinity { .. })
    }

    pub fn is_nan(&self) -> (r: bool)
        ensures
            r == self.class is Nan,
    {
        matches!(self.class, Class::Nan { .. })
    }

    pub fn is_quiet_nan(&self) -> (r: bool)
        ensures
            r == (self.class is Nan && self.class->Nan_quiet),
    {
        match &self.class {
            Class::Nan { quiet, .. } => *quiet,
            _ => false,
        }
    }

    pub fn is_signaling_nan(&self) -> (r: bool)
        ensures
            r == (self.class is Nan && !self.class->Nan_quiet),
    {
        match &self.class {
            Class::Nan { quiet, .. } => !*quiet,
            _ => false,
        }
    }

    pub fn is_normal(&self) -> (r: bool)
        ensures
            r == self.class is Normal,
    {
        matches!(self.class, Class::Normal { .. })
    }

    pub fn is_finite(&self) -> (r: bool)
        ensures
            r == (self.class is Normal || self.class is Zero),
    {
        matches!(self.class, Class::Normal { .. } | Class::Zero { .. })
    }

    /// The sign bit.
    pub fn sign(&self) -> (r: Sign)
        ensures
            is_neg(r) == self.spec_neg(),
    {
        match &self.class {
            Class::Zero { sign } => *sign,
            Class::Infinity { sign } => *sign,
            Class::Nan { sign, .. } => *sign,
            Class::Normal { sign, .. } => *sign,
        }
    }

    pub fn is_sign_negative(&self) -> (r: bool)
        ensures
            r == self.spec_neg(),
    {
        match self.sign() {
            Sign::Negative => true,
            Sign::Positive => false,
        }
    }

    pub fn is_sign_positive(&self) -> (r: bool)
        ensures
            r == !self.spec_neg(),
    {
        !self.is_sign_negative()
    }

    /// Binary exponent of the leading bit of a normal value.
    pub fn exponent(&self) -> (r: Option<i64>)
        ensures
            self.class is Normal ==> r == Some(self.class->Normal_exponent),
            !(self.class is Normal) ==> r is None,
    {
        match &self.class {
            Class::Normal { exponent, .. } => Some(*exponent),
            _ => None,
        }
    }

    /// The value with its sign bit flipped.
    pub fn negated(&self) -> (r: BigFloat)
        ensures
            self.wf() ==> r.wf(),
            r.precision == self.precision,
            r.spec_neg() == !self.spec_neg(),
            r.class is Normal == self.class is Normal,
            r.class is Zero == self.class is Zero,
            r.class is Infinity == self.class is Infinity,
            r.class is Nan == self.class is Nan,
            self.class is Normal ==> r.sig() == self.sig() && r.class->Normal_exponent == self.class->Normal_exponent,
            self.class is Nan ==> r.class->Nan_quiet == self.class->Nan_quiet,
    {
        let flip = |s: Sign| -> (t: Sign)
            ensures is_neg(t) == !is_neg(s)
        {
            match s {
                Sign::Positive => Sign::Negative,
                Sign::Negative => Sign::Positive,
            }
        };
        let class = match &self.class {
            Class::Zero { sign } => Class::Zero { sign: flip(*sign) },
            Class::Infinity { sign } => Class::Infinity { sign: flip(*sign) },
            Class::Nan { quiet, sign, payload } => Class::Nan { quiet: *quiet, sign: flip(*sign), payload: payload.clone() },
            Class::Normal { sign, exponent, mantissa } => Class::Normal { sign: flip(*sign), exponent: *exponent, mantissa: mantissa.clone() },
        };
        BigFloat { class, precision: self.precision }
    }

    /// The magnitude: the value with a clear sign bit.
    pub fn abs(&self) -> (r: BigFloat)
        ensures
            self.wf() ==> r.wf(),
            r.precision == self.precision,
            !r.spec_neg(),
            r.class is Normal == self.class is Normal,
            r.class is Zero == self.class is Zero,
            r.class is Infinity == self.class is Infinity,
            r.class is Nan == self.class is Nan,
            self.class is Normal ==> r.sig() == self.sig() && r.class->Normal_exponent == self.class->Normal_exponent,
    {
        if self.is_sign_negative() {
            self.negated()
        } else {
            self.dup()
        }
    }
}

/// The significand of a normal value lies in `[2^(p-1), 2^p)`.
pub proof fn lemma_sig_bounds(x: BigFloat)
    requires
        x.wf(),
        x.class is Normal,
    ensures
        pow2((x.precision - 1) as nat) <= x.sig(),
        x.sig() < pow2(x.precision as nat),
        bits(x.sig()) == x.precision,
{
    let p = x.precision as nat;
    let m = x.class->Normal_mantissa@;
    let l = limbs_for(p);
    let pad = pad_bits(p);
    lemma_nat_of_bound(m);
    lemma_pow2_pos(pad);
    lemma_pow2_adds((p - 1) as nat, pad);
    lemma_pow2_adds(p, pad);
    assert((p - 1) as nat + pad == (64 * l - 1) as nat);
    assert(p + pad == 64 * l);
    lemma_div_is_ordered((pow2((p - 1) as nat) * pow2(pad)) as int, nat_of(m) as int, pow2(pad) as int);
    lemma_div_by_multiple(pow2((p - 1) as nat) as int, pow2(pad) as int);
    lemma_div_by_multiple_is_strongly_ordered(nat_of(m) as int, (pow2(p) * pow2(pad)) as int, pow2(p) as int, pow2(pad) as int);
    lemma_div_by_multiple(pow2(p) as int, pow2(pad) as int);
    lemma_bits_unique(x.sig(), p);
}

/// The significand limbs of a well-formed mantissa.
pub fn sig_limbs(m: &Vec<u64>, p: u32) -> (r: Vec<u64>)
    requires
        prec_ok(p as nat),
        mant_wf(m@, p as nat),
    ensures
        nat_of(r@) == sig_of(m@, p as nat),
        r.len() <= limbs_for(p as nat),
{
    let l = limbs_for_exec(p);
    let pad: u64 = 64 * (l as u64) - p as u64;
    let (r, _) = shr(m, pad);
    r
}

/// `|v|` for a machine integer.
pub open spec fn abs_i64(v: i64) -> nat {
    if v < 0 { (-(v as int)) as nat } else { v as nat }
}

/// The NaN an operation returns for NaN operands: a signaling NaN
/// gives the default quiet NaN and raises INVALID; a quiet NaN is
/// passed on.
pub open spec fn nan_result(x: BigFloat, st: Status, a: BigFloat, p: nat) -> bool {
    &&& x.wf()
    &&& x.precision == p
    &&& x.class is Nan
    &&& x.class->Nan_quiet
    &&& if !a.class->Nan_quiet {
        !x.spec_neg() && x.class->Nan_payload@.len() == 0 && st.bits == FLAG_INVALID
    } else {
        x.spec_neg() == a.spec_neg() && st.bits == 0
    }
}

impl BigFloat {
    /// The quiet NaN an operation on NaN `self` returns at precision `p`.
    pub fn nan_out(&self, p: u32) -> (r: (BigFloat, Status))
        requires
            self.wf(),
            prec_ok(p as nat),
            self.class is Nan,
    ensures
            nan_result(r.0, r.1, *self, p as nat),
    {
        match &self.class {
            Class::Nan { quiet, sign, payload } => {
                if !*quiet {
                    (BigFloat { class: Class::Nan { quiet: true, sign: Sign::Positive, payload: Vec::new() }, precision: p }, Status { bits: FLAG_INVALID })
                } else {
                    let pl = Self::clip_payload(payload.as_slice(), p);
                    (BigFloat { class: Class::Nan { quiet: true, sign: *sign, payload: pl }, precision: p }, Status { bits: 0 })
                }
            },
            _ => {
                proof { assert(false); }
                (BigFloat { class: Class::Zero { sign: Sign::Positive }, precision: p }, Status { bits: 0 })
            },
        }
    }

    /// The default quiet NaN with INVALID, for invalid operations.
    pub fn invalid_nan(p: u32) -> (r: (BigFloat, Status))
        requires
            prec_ok(p as nat),
        ensures
            r.0.wf(),
            r.0.precision == p,
            r.0.class is Nan && r.0.class->Nan_quiet && !r.0.spec_neg(),
            r.1.bits == FLAG_INVALID,
    {
        (BigFloat { class: Class::Nan { quiet: true, sign: Sign::Positive, payload: Vec::new() }, precision: p }, Status { bits: FLAG_INVALID })
    }

    /// `self` rounded to `precision` bits under `mode`.
    pub fn round_to_precision(&self, precision: u32, mode: RoundingMode) -> (r: Result<(BigFloat, Status), BuildError>)
        requires
            self.wf(),
        ensures
            r is Ok <==> prec_ok(precision as nat),
            r matches Ok(v) ==> {
                &&& v.0.wf()
                &&& v.0.precision == precision
                &&& (self.class is Normal ==> round_result(v.0, v.1, self.sig(), false, self.lsb_exp(), precision as nat, self.spec_neg(), mode))
                &&& (self.class is Zero ==> v.0.class == self.class && v.1.bits == 0)
                &&& (self.class is Infinity ==> v.0.class == self.class && v.1.bits == 0)
                &&& (self.class is Nan ==> v.0.class is Nan && v.0.class->Nan_quiet == self.class->Nan_quiet
                    && v.0.spec_neg() == self.spec_neg() && v.1.bits == 0)
            },
    {
        Self::check_precision(precision)?;
        match &self.class {
            Class::Zero { sign } => Ok((BigFloat { class: Class::Zero { sign: *sign }, precision }, Status { bits: 0 })),
            Class::Infinity { sign } => Ok((BigFloat { class: Class::Infinity { sign: *sign }, precision }, Status { bits: 0 })),
            Class::Nan { quiet, sign, payload } => {
                let pl = Self::clip_payload(payload.as_slice(), precision);
                Ok((BigFloat { class: Class::Nan { quiet: *quiet, sign: *sign, payload: pl }, precision }, Status { bits: 0 }))
            },
            Class::Normal { sign, exponent, mantissa } => {
                let n = sig_limbs(mantissa, self.precision);
                let neg = match sign { Sign::Negative => true, Sign::Positive => false };
                let e0: i128 = *exponent as i128 - self.precision as i128 + 1;
                proof {
                    lemma_sig_bounds(*self);
                    lemma_pow2_pos((self.precision - 1) as nat);
                }
                Ok(round_sig(neg, &n, false, e0, precision, mode))
            },
        }
    }

    /// `v` rounded to `precision` bits under `mode`.
    pub fn try_from_i64_round(v: i64, precision: u32, mode: RoundingMode) -> (r: Result<(BigFloat, Status), BuildError>)
        ensures
            r is Ok <==> prec_ok(precision as nat),
            r matches Ok(x) ==> {
                &&& x.0.wf()
                &&& x.0.precision == precision
                &&& (v == 0 ==> x.0.class == (Class::Zero { sign: Sign::Positive }) && x.1.bits == 0)
                &&& (v != 0 ==> round_result(x.0, x.1, abs_i64(v), false, 0, precision as nat, v < 0, mode))
            },
    {
        Self::check_precision(precision)?;
        if v == 0 {
            return Ok((BigFloat { class: Class::Zero { sign: Sign::Positive }, precision }, Status { bits: 0 }));
        }
        let mag: u64 = if v < 0 {
            if v == i64::MIN { 0x8000_0000_0000_0000u64 } else { (-v) as u64 }
        } else {
            v as u64
        };
        let n = from_u64(mag);
        Ok(round_sig(v < 0, &n, false, 0, precision, mode))
    }

    /// `v` at `precision` bits, when it is exactly representable there.
    pub fn try_from_i64_exact(v: i64, precision: u32) -> (r: Result<BigFloat, BuildError>)
        ensures
            prec_ok(precision as nat) && bits(abs_i64(v)) <= precision ==> r is Ok,
            prec_ok(precision as nat) ==> (r is Ok <==> !rounding_inexact(abs_i64(v), false, precision as nat)),
            prec_ok(precision as nat) && r is Err ==> r == Err::<BigFloat, BuildError>(BuildError::Unrepresentable),
            !prec_ok(precision as nat) ==> r is Err,
            r matches Ok(x) ==> {
                &&& x.wf()
                &&& x.precision == precision
                &&& (v == 0 ==> x.class == (Class::Zero { sign: Sign::Positive }))
                &&& (v != 0 ==> x.class is Normal && finite_value_is(x, v as int, 0))
            },
    {
        let (x, st) = Self::try_from_i64_round(v, precision, RoundingMode::NearestEven)?;
        proof {
            if v != 0 {
                lemma2_to64_rest();
                lemma_bits_le(abs_i64(v), 64);
                let (sg, e) = rounded(abs_i64(v), false, 0, precision as nat, v < 0, RoundingMode::NearestEven);
                assert(0 <= e <= 64);
                assert(st.bits == (if rounding_inexact(abs_i64(v), false, precision as nat) { FLAG_INEXACT } else { 0 }));
            }
        }
        if st.bits != 0 {
            return Err(BuildError::Unrepresentable);
        }
        proof {
            if v != 0 {
                lemma2_to64_rest();
                lemma_bits_le(abs_i64(v), 64);
                lemma_exact_rounding(abs_i64(v), 0, precision as nat, v < 0, RoundingMode::NearestEven);
                let (sg, e) = rounded(abs_i64(v), false, 0, precision as nat, v < 0, RoundingMode::NearestEven);
                assert(e <= 64);
                assert(x.sig() == sg);
                assert(x.lsb_exp() == e - precision + 1);
                let k1 = (x.lsb_exp() - 0) as nat;
                let k2 = (0 - x.lsb_exp()) as nat;
                assert((-(sg as int)) * pow2(k1) == -((sg * pow2(k1)) as int)) by (nonlinear_arith);
                if v < 0 {
                    let av = abs_i64(v);
                    assert(-((av * pow2(k2)) as int) == (v as int) * pow2(k2)) by (nonlinear_arith)
                        requires av == -(v as int);
                }
            }
        }
        Ok(x)
    }
}

/// `x` equals `v · 2^e` exactly.
pub open spec fn finite_value_is(x: BigFloat, v: int, e: int) -> bool {
    x.class is Normal && {
        let s = if x.spec_neg() { -(x.sig() as int) } else { x.sig() as int };
        if x.lsb_exp() >= e {
            s * pow2((x.lsb_exp() - e) as nat) == v
        } else {
            s == v * pow2((e - x.lsb_exp()) as nat)
        }
    }
}

} // verus!

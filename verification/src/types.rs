//! The floating-point value type, its classes, rounding modes and
//! status flags, with the mathematical model every contract uses.

use vstd::prelude::*;
use vstd::arithmetic::power2::*;
use crate::limbs::nat_of;

verus! {

/// Sign of a value.
#[derive(Clone, Copy, Debug, PartialEq, Eq, Structural)]
pub enum Sign {
    Positive,
    Negative,
}

/// IEEE 754 rounding-direction attributes.
#[derive(Clone, Copy, Debug, PartialEq, Eq, Structural)]
pub enum RoundingMode {
    NearestEven,
    NearestAway,
    TowardZero,
    TowardPositive,
    TowardNegative,
}

/// Errors from constructors that take a precision.
#[derive(Clone, Copy, Debug, PartialEq, Eq, Structural)]
pub enum BuildError {
    PrecisionZero,
    PrecisionTooLarge,
    Unrepresentable,
    ParseFailure,
}

/// IEEE 754 exception flags raised by an operation.
#[derive(Clone, Copy, Debug, PartialEq, Eq, Structural)]
pub struct Status {
    pub bits: u8,
}

pub const FLAG_INVALID: u8 = 1;
pub const FLAG_DIV_BY_ZERO: u8 = 2;
pub const FLAG_OVERFLOW: u8 = 4;
pub const FLAG_UNDERFLOW: u8 = 8;
pub const FLAG_INEXACT: u8 = 16;

impl Status {
    /// The flag set holding exactly `bits`.
    pub fn of(bits: u8) -> (r: Status)
        ensures
            r.bits == bits,
    {
        Status { bits }
    }

    /// No flag raised.
    pub fn is_ok(&self) -> (r: bool)
        ensures
            r == (self.bits == 0),
    {
        self.bits == 0
    }

    pub fn invalid(&self) -> (r: bool)
        ensures
            r == (self.bits & FLAG_INVALID != 0),
    {
        self.bits & FLAG_INVALID != 0
    }

    pub fn div_by_zero(&self) -> (r: bool)
        ensures
            r == (self.bits & FLAG_DIV_BY_ZERO != 0),
    {
        self.bits & FLAG_DIV_BY_ZERO != 0
    }

    pub fn overflow(&self) -> (r: bool)
        ensures
            r == (self.bits & FLAG_OVERFLOW != 0),
    {
        self.bits & FLAG_OVERFLOW != 0
    }

    pub fn underflow(&self) -> (r: bool)
        ensures
            r == (self.bits & FLAG_UNDERFLOW != 0),
    {
        self.bits & FLAG_UNDERFLOW != 0
    }

    pub fn inexact(&self) -> (r: bool)
        ensures
            r == (self.bits & FLAG_INEXACT != 0),
    {
        self.bits & FLAG_INEXACT != 0
    }

    /// The union of two flag sets.
    pub fn merge(self, other: Status) -> (r: Status)
        ensures
            r.bits == self.bits | other.bits,
    {
        Status { bits: self.bits | other.bits }
    }
}

/// Any flag set with INEXACT added holds INEXACT.
pub proof fn lemma_or_inexact(b: u8)
    ensures
        (b | FLAG_INEXACT) & FLAG_INEXACT != 0,
        (FLAG_OVERFLOW | FLAG_INEXACT) & FLAG_INEXACT != 0,
        (FLAG_UNDERFLOW | FLAG_INEXACT) & FLAG_INEXACT != 0,
        FLAG_INEXACT & FLAG_INEXACT != 0,
        (b | FLAG_INVALID) & FLAG_INVALID != 0,
        FLAG_INVALID & FLAG_INVALID != 0,
{
    assert(1u8 & 1u8 != 0) by (bit_vector);
    assert((b | 16u8) & 16u8 != 0) by (bit_vector);
    assert((b | 1u8) & 1u8 != 0) by (bit_vector);
    assert((4u8 | 16u8) & 16u8 != 0) by (bit_vector);
    assert((8u8 | 16u8) & 16u8 != 0) by (bit_vector);
    assert(16u8 & 16u8 != 0) by (bit_vector);
}

/// The class of a value, with the fields of its representation.
///
/// A `Normal` value is `±mantissa · 2^(exponent + 1 − 64·len)`, its
/// mantissa left-aligned in `limbs_for(precision)` little-endian limbs
/// with the top bit set.
#[derive(Clone, Debug, PartialEq, Eq)]
pub enum Class {
    Zero { sign: Sign },
    Infinity { sign: Sign },
    Nan { quiet: bool, sign: Sign, payload: Vec<u64> },
    Normal { sign: Sign, exponent: i64, mantissa: Vec<u64> },
}

/// An arbitrary-precision binary floating-point value.
#[derive(Clone, Debug, PartialEq, Eq)]
pub struct BigFloat {
    pub class: Class,
    pub precision: u32,
}

/// Largest supported precision in bits.
pub const MAX_PRECISION: u32 = 0x0100_0000;

/// Largest binary exponent of a finite value.
pub const EXP_MAX: i64 = 0x7fff_ffff_ffff_ffff;

/// Smallest binary exponent of a finite nonzero value.
pub const EXP_MIN: i64 = -0x8000_0000_0000_0000;

/// Limbs holding `p` bits.
pub open spec fn limbs_for(p: nat) -> nat {
    (p + 63) / 64
}

/// Bits below the precision in the top-aligned mantissa.
pub open spec fn pad_bits(p: nat) -> nat {
    (64 * limbs_for(p) - p) as nat
}

/// A well-formed mantissa of precision `p`.
pub open spec fn mant_wf(m: Seq<u64>, p: nat) -> bool {
    &&& m.len() == limbs_for(p)
    &&& nat_of(m) >= pow2((64 * limbs_for(p) - 1) as nat)
    &&& nat_of(m) % pow2(pad_bits(p)) == 0
}

/// The integer significand in `[2^(p-1), 2^p)` of a mantissa.
pub open spec fn sig_of(m: Seq<u64>, p: nat) -> nat {
    nat_of(m) / pow2(pad_bits(p))
}

pub open spec fn is_neg(s: Sign) -> bool {
    s == Sign::Negative
}

pub open spec fn sign_of(neg: bool) -> Sign {
    if neg { Sign::Negative } else { Sign::Positive }
}

pub open spec fn prec_ok(p: nat) -> bool {
    1 <= p <= MAX_PRECISION
}

impl BigFloat {
    /// The representation invariant.
    pub open spec fn wf(&self) -> bool {
        &&& prec_ok(self.precision as nat)
        &&& match self.class {
            Class::Normal { exponent, mantissa, .. } => {
                &&& mant_wf(mantissa@, self.precision as nat)
                &&& EXP_MIN <= exponent <= EXP_MAX
            },
            Class::Nan { payload, .. } => payload.len() <= limbs_for(self.precision as nat),
            _ => true,
        }
    }

    /// Integer significand of a normal value.
    pub open spec fn sig(&self) -> nat {
        match self.class {
            Class::Normal { mantissa, .. } => sig_of(mantissa@, self.precision as nat),
            _ => 0,
        }
    }

    /// Binary exponent of the least significant significand bit:
    /// a normal value is `±sig() · 2^lsb_exp()`.
    pub open spec fn lsb_exp(&self) -> int {
        match self.class {
            Class::Normal { exponent, .. } => exponent - self.precision + 1,
            _ => 0,
        }
    }

    /// Sign bit: the sign of a zero, infinity, NaN or normal value.
    pub open spec fn spec_neg(&self) -> bool {
        match self.class {
            Class::Zero { sign } => is_neg(sign),
            Class::Infinity { sign } => is_neg(sign),
            Class::Nan { sign, .. } => is_neg(sign),
            Class::Normal { sign, .. } => is_neg(sign),
        }
    }
}

} // verus!

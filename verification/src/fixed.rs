//! Values of a precision fixed in the type.

use vstd::prelude::*;
use crate::types::{BigFloat, BuildError, Class, Sign, prec_ok};

verus! {

/// A [`BigFloat`] whose precision is the type parameter `PREC`.
#[derive(Clone, Debug)]
pub struct FixedFloat<const PREC: u32> {
    pub(crate) inner: BigFloat,
}

impl<const PREC: u32> FixedFloat<PREC> {
    /// The value as a [`BigFloat`].
    pub closed spec fn value(&self) -> BigFloat {
        self.inner
    }

    /// Well-formed at precision `PREC`.
    pub open spec fn wf(&self) -> bool {
        self.value().wf() && self.value().precision == PREC
    }

    /// Wrap a value already at precision `PREC`.
    pub(crate) fn wrap(big: BigFloat) -> (r: FixedFloat<PREC>)
        requires
            big.wf(),
            big.precision == PREC,
        ensures
            r.wf(),
            r.value() == big,
    {
        FixedFloat { inner: big }
    }

    /// The value as a [`BigFloat`] of precision `PREC`.
    pub fn to_big(&self) -> (r: BigFloat)
        requires
            self.wf(),
        ensures
            r.wf(),
            crate::float::same(r, self.value()),
    {
        self.inner.dup()
    }

    pub(crate) fn big_ref(&self) -> (r: &BigFloat)
        ensures
            *r == self.value(),
    {
        &self.inner
    }

    /// `big` as a fixed-precision value, when its precision is `PREC`.
    pub fn try_from_big_exact(big: BigFloat) -> (r: Result<FixedFloat<PREC>, BuildError>)
        requires
            big.wf(),
        ensures
            r is Ok <==> big.precision == PREC,
            r matches Ok(v) ==> v.wf() && v.value() == big,
    {
        if big.precision == PREC {
            Ok(FixedFloat { inner: big })
        } else {
            Err(BuildError::Unrepresentable)
        }
    }

    /// The integer `v`, when exactly representable at `PREC` bits.
    pub fn try_from_i64_exact(v: i64) -> (r: Result<FixedFloat<PREC>, BuildError>)
        ensures
            !prec_ok(PREC as nat) ==> r is Err,
            prec_ok(PREC as nat) ==> (r is Ok <==> !crate::round::rounding_inexact(crate::float::abs_i64(v), false, PREC as nat)),
            r matches Ok(x) ==> x.wf() && (v == 0 ==> x.value().class is Zero)
                && (v != 0 ==> crate::float::finite_value_is(x.value(), v as int, 0)),
    {
        let b = BigFloat::try_from_i64_exact(v, PREC)?;
        Ok(FixedFloat { inner: b })
    }

    /// Whether the value is a zero of either sign.
    pub fn is_zero(&self) -> (r: bool)
        ensures
            r == self.value().class is Zero,
    {
        self.inner.is_zero()
    }

    /// Positive zero.
    pub fn zero() -> (r: FixedFloat<PREC>)
        requires
            prec_ok(PREC as nat),
        ensures
            r.wf(),
            r.value().class == (Class::Zero { sign: Sign::Positive }),
    {
        FixedFloat { inner: BigFloat { class: Class::Zero { sign: Sign::Positive }, precision: PREC } }
    }
}

} // verus!

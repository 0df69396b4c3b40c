//! The comparison of two values as an optional `Ordering`, with the
//! status the comparison raises.

use vstd::prelude::*;
use core::cmp::Ordering;
use crate::types::{BigFloat, Status, FLAG_INVALID};
use crate::arith::order_of;
use crate::fixed::FixedFloat;

verus! {

/// The `Ordering` that the order `-1`, `0` or `1` denotes.
pub open spec fn ordering_of(v: int) -> Ordering {
    if v < 0 {
        Ordering::Less
    } else if v == 0 {
        Ordering::Equal
    } else {
        Ordering::Greater
    }
}

/// The status a quiet comparison raises: INVALID when either operand
/// is a signaling NaN.
pub open spec fn compare_status(a: BigFloat, b: BigFloat) -> u8 {
    if (a.class is Nan && !a.class->Nan_quiet) || (b.class is Nan && !b.class->Nan_quiet) {
        FLAG_INVALID
    } else {
        0
    }
}

impl BigFloat {
    /// The order of `self` and `other`, `None` when either is a NaN.
    pub fn partial_cmp(&self, other: &BigFloat) -> (r: (Option<Ordering>, Status))
        requires
            self.wf(),
            other.wf(),
        ensures
            r.0 == (match order_of(*self, *other) {
                Some(v) => Some(ordering_of(v)),
                None => None::<Ordering>,
            }),
            r.1.bits == compare_status(*self, *other),
    {
        let st = if self.is_signaling_nan() || other.is_signaling_nan() {
            Status { bits: FLAG_INVALID }
        } else {
            Status { bits: 0 }
        };
        match self.compare(other) {
            Some(v) => {
                if v < 0 {
                    (Some(Ordering::Less), st)
                } else if v == 0 {
                    (Some(Ordering::Equal), st)
                } else {
                    (Some(Ordering::Greater), st)
                }
            },
            None => (None, st),
        }
    }
}

impl<const PREC: u32> FixedFloat<PREC> {
    /// The order of `self` and `other`, `None` when either is a NaN.
    pub fn partial_cmp(&self, other: &FixedFloat<PREC>) -> (r: (Option<Ordering>, Status))
        requires
            self.wf(),
            other.wf(),
        ensures
            r.0 == (match order_of(self.value(), other.value()) {
                Some(v) => Some(ordering_of(v)),
                None => None::<Ordering>,
            }),
            r.1.bits == compare_status(self.value(), other.value()),
    {
        self.big_ref().partial_cmp(other.big_ref())
    }
}

} // verus!

//! The correctly rounded square root.

use vstd::prelude::*;
use vstd::arithmetic::power2::*;
use vstd::arithmetic::mul::*;
use vstd::arithmetic::div_mod::*;
use crate::limbs::{nat_of, limb_cap, nat_add, nat_mul, shl, lt, trim, bit_len, lemma_nat_of_bound, lemma_trimmed_len};
use crate::types::{BigFloat, Class, Sign, RoundingMode, Status, MAX_PRECISION, prec_ok};
use crate::round::{round_sig, round_result, pow2_limbs};
use crate::float::{sig_limbs, lemma_sig_bounds, nan_result};

verus! {

/// `q` is the integer square root of `n`.
pub open spec fn is_isqrt(q: nat, n: nat) -> bool {
    q * q <= n < (q + 1) * (q + 1)
}

/// The integer square root, one bit at a time from the top: with
/// `r² ≤ n < (r + 2^b)²` kept, `r + 2^(b−1)` replaces `r` when its
/// square still fits.
pub fn isqrt(n: &Vec<u64>) -> (r: Vec<u64>)
    requires
        n.len() < limb_cap() / 8,
        nat_of(n@) < pow2(2 * (MAX_PRECISION + 60) as nat),
    ensures
        is_isqrt(nat_of(r@), nat_of(n@)),
        r.len() <= n.len(),
{
    let ghost nv = nat_of(n@);
    let bl = bit_len(n);
    proof {
        lemma_nat_of_bound(n@);
        if bl > 2 * (MAX_PRECISION as u64 + 60) {
            lemma_pow2_strictly_increases(2 * (MAX_PRECISION + 60) as nat, (bl - 1) as nat);
        }
    }
    let mut b: u64 = (bl + 1) / 2;
    let mut r: Vec<u64> = Vec::new();
    proof {
        lemma_pow2_adds(b as nat, b as nat);
        if bl > 0 {
            if (bl as nat) < (b + b) as nat {
                lemma_pow2_strictly_increases(bl as nat, (b + b) as nat);
            }
        } else {
            lemma_pow2_pos(0);
        }
        assert(nat_of(r@) == 0);
        assert((0 + pow2(b as nat)) * (0 + pow2(b as nat)) == pow2(b as nat) * pow2(b as nat));
    }
    while b > 0
        invariant
            nat_of(n@) == nv,
            n.len() < limb_cap() / 8,
            b <= MAX_PRECISION + 61,
            nat_of(r@) * nat_of(r@) <= nv,
            nv < (nat_of(r@) + pow2(b as nat)) * (nat_of(r@) + pow2(b as nat)),
            r.len() <= n.len(),
        decreases b,
    {
        b = b - 1;
        let t = pow2_limbs(b as u32);
        let c = nat_add(&r, &t);
        let c2 = nat_mul(&c, &c);
        let ghost rv = nat_of(r@);
        proof {
            lemma_pow2_unfold((b + 1) as nat);
        }
        if !lt(n, &c2) {
            r = c;
            trim(&mut r);
            proof {
                let cv = nat_of(r@);
                assert(cv + pow2(b as nat) == rv + pow2((b + 1) as nat));
                if cv > 0 {
                    assert(cv <= cv * cv) by (nonlinear_arith) requires cv >= 1;
                }
                lemma_nat_of_bound(n@);
                lemma_trimmed_len(r@, n.len() as nat);
            }
        }
    }
    proof {
        lemma2_to64();
    }
    r
}

/// The square root's exponent shift: `p + 4` or `p + 5`, whichever
/// leaves `lsb − shift` even.
pub open spec fn sqrt_shift(x: BigFloat) -> nat {
    let p = x.precision as nat;
    if (x.lsb_exp() - (p + 4)) % 2 == 0 { p + 4 } else { p + 5 }
}

/// What the square root of `x` is, by class: for a positive normal
/// `x = sig·2^lsb`, the rounding of `√(sig·2^s)·2^((lsb−s)/2)` from its
/// integer square root and whether that is exact.
pub open spec fn sqrt_spec(x: BigFloat, r: BigFloat, st: Status, mode: RoundingMode) -> bool {
    let p = x.precision as nat;
    &&& r.wf()
    &&& r.precision == p
    &&& if x.class is Nan {
        nan_result(r, st, x, p)
    } else if x.class is Zero {
        r.class == x.class && st.bits == 0
    } else if x.class == (Class::Infinity { sign: Sign::Positive }) {
        r.class == x.class && st.bits == 0
    } else if x.spec_neg() {
        r.class is Nan && r.class->Nan_quiet && !r.spec_neg() && st.bits == crate::types::FLAG_INVALID
    } else {
        let s = sqrt_shift(x);
        let n = x.sig() * pow2(s);
        exists|q: nat| #[trigger] is_isqrt(q, n)
            && round_result(r, st, q, q * q != n, (x.lsb_exp() - s) / 2, p, false, mode)
    }
}

impl BigFloat {
    /// `√self` correctly rounded under `mode` to the precision of
    /// `self`; `√(−0) = −0`, and a negative argument gives a quiet NaN
    /// with INVALID.
    pub fn sqrt(&self, mode: RoundingMode) -> (r: (BigFloat, Status))
        requires
            self.wf(),
        ensures
            sqrt_spec(*self, r.0, r.1, mode),
    {
        let p = self.precision;
        match &self.class {
            Class::Nan { .. } => return self.nan_out(p),
            Class::Zero { sign } => return (BigFloat { class: Class::Zero { sign: *sign }, precision: p }, Status { bits: 0 }),
            Class::Infinity { sign: Sign::Positive } => return (BigFloat { class: Class::Infinity { sign: Sign::Positive }, precision: p }, Status { bits: 0 }),
            Class::Infinity { sign: Sign::Negative } => return BigFloat::invalid_nan(p),
            Class::Normal { sign: Sign::Negative, .. } => return BigFloat::invalid_nan(p),
            Class::Normal { .. } => {},
        }
        let (e, m) = match &self.class {
            Class::Normal { exponent, mantissa, .. } => (*exponent, mantissa),
            _ => {
                proof {
                    assert(false);
                }
                return BigFloat::invalid_nan(p);
            },
        };
        let lsb: i128 = e as i128 - p as i128 + 1;
        let sig = sig_limbs(m, p);
        let base: i128 = p as i128 + 4;
        let s: i128 = if (lsb - base) % 2 == 0 { base } else { base + 1 };
        let n = shl(&sig, s as u64);
        proof {
            lemma_sig_bounds(*self);
            let sn = s as nat;
            assert(sn == sqrt_shift(*self)) by {
                lemma_fundamental_div_mod((lsb - base) as int, 2);
            }
            lemma_pow2_adds(p as nat, sn);
            lemma_pow2_pos(sn);
            assert(self.sig() * pow2(sn) < pow2(p as nat) * pow2(sn)) by (nonlinear_arith)
                requires self.sig() < pow2(p as nat), pow2(sn) > 0;
            lemma_pow2_strictly_increases(p as nat + sn, 2 * (MAX_PRECISION + 60) as nat);
        }
        let q = isqrt(&n);
        let q2 = nat_mul(&q, &q);
        let sticky = lt(&q2, &n);
        let e0: i128 = (lsb - s) / 2;
        proof {
            let nv = nat_of(n@);
            let qv = nat_of(q@);
            let pn = p as nat;
            let sn = s as nat;
            lemma_pow2_adds((pn - 1) as nat, sn);
            assert(nv >= pow2((pn - 1) as nat) * pow2(sn)) by (nonlinear_arith)
                requires nv == self.sig() * pow2(sn), self.sig() >= pow2((pn - 1) as nat), pow2(sn) > 0;
            assert((pn - 1) as nat + sn >= 2 * (pn + 1));
            if (pn - 1) as nat + sn > 2 * (pn + 1) {
                lemma_pow2_strictly_increases(2 * (pn + 1), (pn - 1) as nat + sn);
            }
            lemma_pow2_adds(pn + 1, pn + 1);
            if qv < pow2(pn + 1) {
                assert((qv + 1) * (qv + 1) <= pow2(pn + 1) * pow2(pn + 1)) by (nonlinear_arith)
                    requires qv + 1 <= pow2(pn + 1);
            }
            assert(qv >= pow2(pn + 1));
            lemma_pow2_pos(pn + 1);
            lemma_nat_of_bound(q@);
            assert((lsb - s) % 2 == 0) by {
                lemma_fundamental_div_mod((lsb - base) as int, 2);
            }
            assert(e0 as int == (self.lsb_exp() - sn) / 2);
            assert(is_isqrt(qv, nv));
        }
        round_sig(false, &q, sticky, e0, p, mode)
    }
}

} // verus!

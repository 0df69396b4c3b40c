//! Rounding an exact dyadic value to a precision under a rounding mode.

use vstd::prelude::*;
use vstd::arithmetic::power2::*;
use vstd::arithmetic::div_mod::*;
use vstd::arithmetic::mul::*;
use crate::limbs::{
    nat_of, limb_cap, shl, shr, trim, pad_to, div_small, nat_add, nat_sub, from_u64, bit_len,
    lemma_trimmed_len, lemma_nat_of_bound,
};
use crate::types::{
    BigFloat, Class, Sign, RoundingMode, Status, EXP_MAX, EXP_MIN, FLAG_INEXACT, FLAG_OVERFLOW,
    FLAG_UNDERFLOW, MAX_PRECISION, limbs_for, pad_bits, mant_wf, sig_of, prec_ok, sign_of,
};

verus! {

/// Number of significant bits of `n`.
pub open spec fn bits(n: nat) -> nat
    decreases n,
{
    if n == 0 {
        0
    } else {
        1 + bits(n / 2)
    }
}

pub proof fn lemma_bits_bounds(n: nat)
    requires
        n > 0,
    ensures
        bits(n) >= 1,
        pow2((bits(n) - 1) as nat) <= n,
        n < pow2(bits(n)),
    decreases n,
{
    lemma2_to64();
    if n == 1 {
        assert(bits(0) == 0);
    } else {
        lemma_bits_bounds(n / 2);
        let b = bits(n / 2);
        lemma_pow2_unfold(b);
        lemma_pow2_unfold(b + 1);
        assert(bits(n) == b + 1);
    }
}

pub proof fn lemma_bits_unique(n: nat, b: nat)
    requires
        b > 0,
        pow2((b - 1) as nat) <= n,
        n < pow2(b),
    ensures
        bits(n) == b,
    decreases b,
{
    lemma2_to64();
    if b == 1 {
        assert(n == 1);
        assert(bits(0) == 0);
    } else {
        lemma_pow2_unfold(b);
        lemma_pow2_unfold((b - 1) as nat);
        lemma_bits_unique(n / 2, (b - 1) as nat);
    }
}

/// `n / 2^s` stays within the shifted binade.
pub proof fn lemma_div_pow2_binade(n: nat, b: nat, s: nat)
    requires
        s < b,
        pow2((b - 1) as nat) <= n,
        n < pow2(b),
    ensures
        pow2((b - 1 - s) as nat) <= n / pow2(s),
        n / pow2(s) < pow2((b - s) as nat),
{
    lemma_pow2_pos(s);
    lemma_pow2_adds((b - 1 - s) as nat, s);
    lemma_pow2_adds((b - s) as nat, s);
    lemma_div_is_ordered((pow2((b - 1 - s) as nat) * pow2(s)) as int, n as int, pow2(s) as int);
    lemma_div_by_multiple(pow2((b - 1 - s) as nat) as int, pow2(s) as int);
    assert((b - s) as nat + s == b);
    assert(pow2(b) == pow2((b - s) as nat) * pow2(s));
    lemma_div_by_multiple_is_strongly_ordered(n as int, (pow2((b - s) as nat) * pow2(s)) as int,
        pow2((b - s) as nat) as int, pow2(s) as int);
    lemma_div_by_multiple(pow2((b - s) as nat) as int, pow2(s) as int);
}

/// `n / 2^(s+1) == (n / 2^s) / 2`.
pub proof fn lemma_div_pow2_step(n: nat, s: nat)
    ensures
        n / pow2(s + 1) == (n / pow2(s)) / 2,
        pow2(s + 1) == pow2(s) * 2,
{
    lemma_pow2_pos(s);
    lemma_pow2_unfold(s + 1);
    lemma_div_denominator(n as int, pow2(s) as int, 2);
}

/// The bit just below the kept significand.
pub open spec fn round_bit(n: nat, s: nat) -> bool {
    s > 0 && (n / pow2((s - 1) as nat)) % 2 == 1
}

/// Whether anything nonzero lies below the round bit.
pub open spec fn below_bits(n: nat, s: nat, sticky: bool) -> bool {
    sticky || (s > 0 && n % pow2((s - 1) as nat) != 0)
}

/// Whether the truncated significand `q` is incremented.
pub open spec fn round_inc(q: nat, rb: bool, below: bool, neg: bool, mode: RoundingMode) -> bool {
    match mode {
        RoundingMode::TowardZero => false,
        RoundingMode::TowardPositive => !neg && (rb || below),
        RoundingMode::TowardNegative => neg && (rb || below),
        RoundingMode::NearestEven => rb && (below || q % 2 == 1),
        RoundingMode::NearestAway => rb,
    }
}

/// Bits dropped when `n` is rounded to `p` bits.
pub open spec fn drop_bits(n: nat, p: nat) -> nat {
    if bits(n) > p {
        (bits(n) - p) as nat
    } else {
        0
    }
}

/// `n` rounded to `p` significant bits, before renormalisation.
pub open spec fn rounded_q(n: nat, sticky: bool, p: nat, neg: bool, mode: RoundingMode) -> nat {
    let s = drop_bits(n, p);
    let q = n / pow2(s);
    if round_inc(q, round_bit(n, s), below_bits(n, s, sticky), neg, mode) {
        q + 1
    } else {
        q
    }
}

/// The rounding of `±(n + δ)·2^e0` to `p` bits, where `0 < δ < 1` when
/// `sticky` holds and `δ = 0` otherwise, as
/// `(significand, exponent of its top bit)`.
pub open spec fn rounded(n: nat, sticky: bool, e0: int, p: nat, neg: bool, mode: RoundingMode) -> (nat, int) {
    let b = bits(n);
    if b <= p {
        (n * pow2((p - b) as nat), e0 + b - 1)
    } else {
        let q = rounded_q(n, sticky, p, neg, mode);
        if q == pow2(p) {
            (pow2((p - 1) as nat), e0 + b)
        } else {
            (q, e0 + b - 1)
        }
    }
}

/// Whether the rounding discards a nonzero part.
pub open spec fn rounding_inexact(n: nat, sticky: bool, p: nat) -> bool {
    sticky || (bits(n) > p && n % pow2(drop_bits(n, p)) != 0)
}

/// Whether the mode rounds a value of this sign away from zero at the
/// exponent rims.
pub open spec fn rounds_outward(neg: bool, mode: RoundingMode) -> bool {
    match mode {
        RoundingMode::NearestEven => true,
        RoundingMode::NearestAway => true,
        RoundingMode::TowardZero => false,
        RoundingMode::TowardPositive => !neg,
        RoundingMode::TowardNegative => neg,
    }
}

/// Whether the mode rounds a tiny value of this sign up to the smallest
/// normal magnitude.
pub open spec fn rounds_up_tiny(neg: bool, mode: RoundingMode) -> bool {
    match mode {
        RoundingMode::TowardPositive => !neg,
        RoundingMode::TowardNegative => neg,
        _ => false,
    }
}

/// A normal value with the given fields.
pub open spec fn is_normal_with(x: BigFloat, neg: bool, sig: nat, e: int) -> bool {
    &&& x.class is Normal
    &&& x.spec_neg() == neg
    &&& x.sig() == sig
    &&& x.class->Normal_exponent == e
}

/// What rounding `±(n + δ)·2^e0` to `p` bits yields, rims included.
pub open spec fn round_result(x: BigFloat, st: Status, n: nat, sticky: bool, e0: int, p: nat, neg: bool, mode: RoundingMode) -> bool {
    let (sg, e) = rounded(n, sticky, e0, p, neg, mode);
    &&& x.wf()
    &&& x.precision == p
    &&& (EXP_MIN <= e <= EXP_MAX ==> is_normal_with(x, neg, sg, e) && st.bits == (if rounding_inexact(n, sticky, p) { FLAG_INEXACT } else { 0 }))
    &&& (e > EXP_MAX ==> st.bits == FLAG_OVERFLOW | FLAG_INEXACT && if rounds_outward(neg, mode) {
        x.class == Class::Infinity { sign: sign_of(neg) }
    } else {
        is_normal_with(x, neg, (pow2(p) - 1) as nat, EXP_MAX as int)
    })
    &&& (e < EXP_MIN ==> st.bits == FLAG_UNDERFLOW | FLAG_INEXACT && if rounds_up_tiny(neg, mode) {
        is_normal_with(x, neg, pow2((p - 1) as nat), EXP_MIN as int)
    } else {
        x.class == Class::Zero { sign: sign_of(neg) }
    })
}

/// An exact rounding reproduces the value: `sig · 2^(e-p+1) == n · 2^e0`.
pub proof fn lemma_exact_rounding(n: nat, e0: int, p: nat, neg: bool, mode: RoundingMode)
    requires
        n > 0,
        p >= 1,
        !rounding_inexact(n, false, p),
    ensures
        ({
            let (sg, e) = rounded(n, false, e0, p, neg, mode);
            &&& (e - p + 1 >= e0 ==> sg * pow2((e - p + 1 - e0) as nat) == n)
            &&& (e - p + 1 < e0 ==> sg == n * pow2((e0 - (e - p + 1)) as nat))
            &&& e == e0 + bits(n) - 1
        }),
{
    lemma_bits_bounds(n);
    let b = bits(n);
    if b > p {
        let s = (b - p) as nat;
        let q = n / pow2(s);
        lemma_pow2_pos(s);
        lemma_fundamental_div_mod(n as int, pow2(s) as int);
        assert(n == pow2(s) * q);
        lemma_pow2_unfold(s);
        lemma_pow2_pos((s - 1) as nat);
        let ps1 = pow2((s - 1) as nat);
        assert(n == (2 * q) * ps1 + 0) by (nonlinear_arith)
            requires n == pow2(s) * q, pow2(s) == 2 * ps1;
        lemma_fundamental_div_mod_converse(n as int, ps1 as int, (2 * q) as int, 0);
        lemma_mod_multiples_basic(q as int, 2);
        lemma_mul_is_commutative(q as int, 2);
        assert(!round_bit(n, s));
        assert(!below_bits(n, s, false));
        lemma_div_pow2_binade(n, b, s);
        assert((b - s) as nat == p);
        assert(q != pow2(p));
        lemma_mul_is_commutative(q as int, pow2(s) as int);
        assert(drop_bits(n, p) == s);
        assert(rounded_q(n, false, p, neg, mode) == q);
        assert(rounded(n, false, e0, p, neg, mode) == (q, e0 + b - 1));
        assert((e0 + b - 1 - p + 1 - e0) as nat == s);
    } else {
        lemma2_to64();
        lemma_mul_is_commutative(n as int, pow2((p - b) as nat) as int);
        assert(rounded(n, false, e0, p, neg, mode) == (n * pow2((p - b) as nat), e0 + b - 1));
        if b == p {
            assert(n * pow2(0) == n);
        }
    }
}

/// Values below `2^k` have at most `k` bits.
pub proof fn lemma_bits_le(n: nat, k: nat)
    requires
        n < pow2(k),
    ensures
        bits(n) <= k,
{
    if n > 0 {
        lemma_bits_bounds(n);
        if bits(n) > k {
            lemma_pow2_strictly_increases(k, (bits(n) - 1) as nat);
            if (bits(n) - 1) as nat == k {
            }
        }
    }
}

/// Limb count of a mantissa of precision `p`.
pub fn limbs_for_exec(p: u32) -> (l: usize)
    ensures
        l == limbs_for(p as nat),
{
    ((p as u64 + 63) / 64) as usize
}

proof fn lemma_limbs_for(p: nat)
    requires
        prec_ok(p),
    ensures
        limbs_for(p) >= 1,
        64 * limbs_for(p) >= p,
        64 * limbs_for(p) < p + 64,
        pad_bits(p) < 64,
        pad_bits(p) + p == 64 * limbs_for(p),
        limbs_for(p) <= 0x4_0000,
{
}

/// Build the mantissa of significand `q` in `[2^(p-1), 2^p)`.
pub fn make_mantissa(q: &Vec<u64>, p: u32) -> (m: Vec<u64>)
    requires
        prec_ok(p as nat),
        pow2((p - 1) as nat) <= nat_of(q@) < pow2(p as nat),
        q.len() < limb_cap() / 8,
    ensures
        mant_wf(m@, p as nat),
        sig_of(m@, p as nat) == nat_of(q@),
{
    let l = limbs_for_exec(p);
    let pad: u64 = 64 * (l as u64) - p as u64;
    proof {
        lemma_limbs_for(p as nat);
    }
    let mut m = shl(q, pad);
    trim(&mut m);
    proof {
        let qv = nat_of(q@);
        let pp = pow2(pad as nat);
        lemma_pow2_adds(p as nat, pad as nat);
        lemma_pow2_adds((p - 1) as nat, pad as nat);
        lemma_pow2_pos(pad as nat);
        assert(qv * pp < pow2(p as nat) * pp) by (nonlinear_arith)
            requires qv < pow2(p as nat), pp > 0;
        assert(pow2((p - 1) as nat) * pp <= qv * pp) by (nonlinear_arith)
            requires pow2((p - 1) as nat) <= qv;
        assert((p as nat) + (pad as nat) == 64 * (l as nat));
        assert(((p - 1) as nat) + (pad as nat) == (64 * (l as nat) - 1) as nat);
        lemma_trimmed_len(m@, l as nat);
    }
    let m2 = pad_to(&m, l);
    proof {
        let qv = nat_of(q@);
        let pp = pow2(pad as nat);
        lemma_mod_multiples_basic(qv as int, pp as int);
        lemma_div_multiples_vanish(qv as int, pp as int);
        lemma_mul_is_commutative(qv as int, pp as int);
    }
    m2
}

/// The normal value `±q · 2^(e - p + 1)` for a significand `q` of
/// exactly `p` bits.
pub fn make_normal(neg: bool, q: &Vec<u64>, e: i64, p: u32) -> (x: BigFloat)
    requires
        prec_ok(p as nat),
        pow2((p - 1) as nat) <= nat_of(q@) < pow2(p as nat),
        q.len() < limb_cap() / 8,
        EXP_MIN <= e <= EXP_MAX,
    ensures
        x.wf(),
        x.precision == p,
        is_normal_with(x, neg, nat_of(q@), e as int),
{
    let m = make_mantissa(q, p);
    BigFloat {
        class: Class::Normal { sign: if neg { Sign::Negative } else { Sign::Positive }, exponent: e, mantissa: m },
        precision: p,
    }
}

/// `2^k - 1` as limbs.
pub fn all_ones(k: u32) -> (r: Vec<u64>)
    requires
        1 <= k <= MAX_PRECISION,
    ensures
        nat_of(r@) == pow2(k as nat) - 1,
        r.len() < limb_cap() / 8,
{
    let one = from_u64(1);
    let t = shl(&one, k as u64);
    proof {
        lemma_pow2_pos(k as nat);
    }
    let mut r = nat_sub(&t, &one);
    trim(&mut r);
    proof {
        lemma_nat_of_bound(r@);
        lemma_pow2_strictly_increases(k as nat, 64 * 0x4_0001);
        lemma_trimmed_len(r@, 0x4_0001);
    }
    r
}

/// `2^k` as limbs.
pub fn pow2_limbs(k: u32) -> (r: Vec<u64>)
    requires
        k <= MAX_PRECISION + 64,
    ensures
        nat_of(r@) == pow2(k as nat),
        r.len() < limb_cap() / 8,
{
    let one = from_u64(1);
    let r = shl(&one, k as u64);
    r
}

/// Rounding of a significand of more than `p` bits.
fn round_drop(neg: bool, n: &Vec<u64>, b: u64, sticky: bool, p: u32, mode: RoundingMode) -> (res: (Vec<u64>, bool, bool))
    requires
        prec_ok(p as nat),
        n.len() < limb_cap() / 8,
        b > p,
        b <= 64 * n.len(),
        bits(nat_of(n@)) == b,
        nat_of(n@) > 0,
    ensures
        nat_of(res.0@) == rounded(nat_of(n@), sticky, 0, p as nat, neg, mode).0,
        rounded(nat_of(n@), sticky, 0, p as nat, neg, mode).1 == b - 1 + (if res.1 { 1int } else { 0 }),
        res.2 == rounding_inexact(nat_of(n@), sticky, p as nat),
        pow2((p - 1) as nat) <= nat_of(res.0@) < pow2(p as nat),
        res.0.len() <= n.len() + 1,
{
    let ghost nv = nat_of(n@);
    let ghost pn = p as nat;
    proof {
        lemma_bits_bounds(nv);
    }
    let s = b - p as u64;
    let (q2, st2) = shr(n, s - 1);
    let (qq0, r2) = div_small(&q2, 2);
    let rb = r2 == 1;
    let below = sticky || st2;
    let ghost qv = nv / pow2(s as nat);
    proof {
        lemma_div_pow2_step(nv, (s - 1) as nat);
        lemma_fundamental_div_mod_converse(nat_of(q2@) as int, 2, nat_of(qq0@) as int, r2 as int);
        assert(nat_of(qq0@) == qv);
        assert(rb == round_bit(nv, s as nat));
        assert(below == below_bits(nv, s as nat, sticky));
        lemma_div_pow2_binade(nv, b as nat, s as nat);
        assert((b - 1 - s) as nat == (pn - 1) as nat);
        assert((b - s) as nat == pn);
        assert(drop_bits(nv, pn) == s as nat);
    }
    let (_, lowbit) = div_small(&qq0, 2);
    let inc: bool = match mode {
        RoundingMode::TowardZero => false,
        RoundingMode::TowardPositive => !neg && (rb || below),
        RoundingMode::TowardNegative => neg && (rb || below),
        RoundingMode::NearestEven => rb && (below || lowbit == 1),
        RoundingMode::NearestAway => rb,
    };
    proof {
        assert(lowbit == qv % 2);
        assert(inc == round_inc(qv, rb, below, neg, mode));
    }
    let mut qq = qq0;
    if inc {
        let one = from_u64(1);
        qq = nat_add(&qq, &one);
        trim(&mut qq);
    }
    let bq = bit_len(&qq);
    proof {
        lemma_pow2_strictly_increases((pn - 1) as nat, pn);
        assert(nat_of(qq@) == rounded_q(nv, sticky, pn, neg, mode));
        assert(nat_of(qq@) <= pow2(pn));
    }
    let mut carry = false;
    if bq > p as u64 {
        proof {
            if bq - 1 > pn {
                lemma_pow2_strictly_increases(pn, (bq - 1) as nat);
            }
            assert(nat_of(qq@) == pow2(pn));
            lemma_pow2_unfold(pn);
        }
        let (h, hr) = div_small(&qq, 2);
        proof {
            lemma_fundamental_div_mod_converse(pow2(pn) as int, 2, pow2((pn - 1) as nat) as int, 0);
            lemma_fundamental_div_mod_converse(pow2(pn) as int, 2, nat_of(h@) as int, hr as int);
        }
        qq = h;
        carry = true;
    } else {
        proof {
            if bq < pn {
                lemma_pow2_strictly_increases(bq as nat, pn);
            }
        }
    }
    proof {
        inexact_lemma(nv, sticky, s as nat, nat_of(q2@), qv, r2 as nat);
        assert(below_bits(nv, s as nat, sticky) == below);
    }
    (qq, carry, rb || below)
}

proof fn inexact_lemma(nv: nat, sticky: bool, s: nat, q2: nat, qv: nat, r2: nat)
    requires
        s >= 1,
        q2 == nv / pow2((s - 1) as nat),
        qv == q2 / 2,
        r2 == q2 % 2,
    ensures
        (nv % pow2(s) != 0) == (r2 == 1 || (nv % pow2((s - 1) as nat) != 0)),
{
    let ps1 = pow2((s - 1) as nat);
    lemma_pow2_pos((s - 1) as nat);
    lemma_div_pow2_step(nv, (s - 1) as nat);
    assert((s - 1) as nat + 1 == s);
    lemma_fundamental_div_mod(nv as int, ps1 as int);
    lemma_fundamental_div_mod(q2 as int, 2);
    let r1 = nv % ps1;
    assert(nv == ps1 * q2 + r1);
    assert(q2 == 2 * qv + r2);
    assert(nv == qv * (ps1 * 2) + (ps1 * r2 + r1)) by (nonlinear_arith)
        requires nv == ps1 * q2 + r1, q2 == 2 * qv + r2;
    lemma_mod_bound(nv as int, ps1 as int);
    lemma_mod_bound(q2 as int, 2);
    assert(ps1 * r2 + r1 < ps1 * 2) by (nonlinear_arith)
        requires r2 <= 1, r1 < ps1;
    lemma_fundamental_div_mod_converse(nv as int, (ps1 * 2) as int, qv as int, (ps1 * r2 + r1) as int);
    if r2 == 1 {
        assert(ps1 * r2 + r1 >= ps1) by (nonlinear_arith) requires r2 == 1;
    } else {
        assert(ps1 * r2 == 0) by (nonlinear_arith) requires r2 == 0;
    }
}

/// Round `±(n + δ)·2^e0` to `p` bits under `mode` (see [`rounded`]).
pub fn round_sig(neg: bool, n: &Vec<u64>, sticky: bool, e0: i128, p: u32, mode: RoundingMode) -> (res: (BigFloat, Status))
    requires
        prec_ok(p as nat),
        n.len() < limb_cap() / 8,
        nat_of(n@) > 0,
        sticky ==> nat_of(n@) >= pow2(p as nat + 1),
        -0x1_0000_0000_0000_0000_0000 <= e0 <= 0x1_0000_0000_0000_0000_0000,
    ensures
        round_result(res.0, res.1, nat_of(n@), sticky, e0 as int, p as nat, neg, mode),
{
    let ghost nv = nat_of(n@);
    let b = bit_len(n);
    proof {
        lemma_bits_unique(nv, b as nat);
        lemma_limbs_for(p as nat);
        if sticky {
            if b < p as u64 + 2 {
                lemma_pow2_strictly_increases(b as nat, p as nat + 1);
            }
        }
    }
    let ghost pn = p as nat;
    let mut topexp: i128 = e0 + (b as i128) - 1;
    let mut q: Vec<u64>;
    let inexact: bool;
    if b <= p as u64 {
        q = shl(n, p as u64 - b);
        inexact = false;
        proof {
            let k = (pn - b) as nat;
            lemma_pow2_adds((b - 1) as nat, k);
            lemma_pow2_adds(b as nat, k);
            lemma_pow2_pos(k);
            assert(pow2((b - 1) as nat) * pow2(k) <= nv * pow2(k)) by (nonlinear_arith)
                requires pow2((b - 1) as nat) <= nv;
            assert(nv * pow2(k) < pow2(b as nat) * pow2(k)) by (nonlinear_arith)
                requires nv < pow2(b as nat), pow2(k) > 0;
            assert((b - 1) as nat + k == (pn - 1) as nat);
            assert(b as nat + k == pn);
            assert(drop_bits(nv, pn) == 0);
            assert(!rounding_inexact(nv, sticky, pn));
        }
    } else {
        let (qq, carry, ix) = round_drop(neg, n, b, sticky, p, mode);
        q = qq;
        inexact = ix;
        if carry {
            topexp = topexp + 1;
        }
    }
    trim(&mut q);
    proof {
        assert(pow2((pn - 1) as nat) <= nat_of(q@) < pow2(pn));
        if pn < 64 * limbs_for(pn) {
            lemma_pow2_strictly_increases(pn, 64 * limbs_for(pn));
        }
        lemma_trimmed_len(q@, limbs_for(pn));
        assert(rounded(nv, sticky, e0 as int, pn, neg, mode) == (nat_of(q@), topexp as int));
    }
    finish_round(neg, &q, topexp, inexact, p, mode)
}

/// Place a rounded significand, handling the exponent rims.
fn finish_round(neg: bool, q: &Vec<u64>, topexp: i128, inexact: bool, p: u32, mode: RoundingMode) -> (res: (BigFloat, Status))
    requires
        prec_ok(p as nat),
        q.len() < limb_cap() / 8,
        pow2((p - 1) as nat) <= nat_of(q@) < pow2(p as nat),
    ensures
        res.0.wf(),
        res.0.precision == p,
        EXP_MIN <= topexp <= EXP_MAX ==> is_normal_with(res.0, neg, nat_of(q@), topexp as int) && res.1.bits == (if inexact { FLAG_INEXACT } else { 0 }),
        topexp > EXP_MAX ==> res.1.bits == FLAG_OVERFLOW | FLAG_INEXACT && if rounds_outward(neg, mode) {
            res.0.class == Class::Infinity { sign: sign_of(neg) }
        } else {
            is_normal_with(res.0, neg, (pow2(p as nat) - 1) as nat, EXP_MAX as int)
        },
        topexp < EXP_MIN ==> res.1.bits == FLAG_UNDERFLOW | FLAG_INEXACT && if rounds_up_tiny(neg, mode) {
            is_normal_with(res.0, neg, pow2((p - 1) as nat), EXP_MIN as int)
        } else {
            res.0.class == Class::Zero { sign: sign_of(neg) }
        },
{
    let ghost pn = p as nat;
    if topexp > EXP_MAX as i128 {
        let st = Status { bits: FLAG_OVERFLOW | FLAG_INEXACT };
        let outward = match mode {
            RoundingMode::NearestEven => true,
            RoundingMode::NearestAway => true,
            RoundingMode::TowardZero => false,
            RoundingMode::TowardPositive => !neg,
            RoundingMode::TowardNegative => neg,
        };
        if outward {
            return (BigFloat { class: Class::Infinity { sign: if neg { Sign::Negative } else { Sign::Positive } }, precision: p }, st);
        }
        let ones = all_ones(p);
        proof {
            lemma_pow2_unfold(pn);
            lemma_pow2_pos((pn - 1) as nat);
        }
        return (make_normal(neg, &ones, EXP_MAX, p), st);
    }
    if topexp < EXP_MIN as i128 {
        let st = Status { bits: FLAG_UNDERFLOW | FLAG_INEXACT };
        let up = match mode {
            RoundingMode::TowardPositive => !neg,
            RoundingMode::TowardNegative => neg,
            _ => false,
        };
        if up {
            let t = pow2_limbs(p - 1);
            proof {
                lemma_pow2_strictly_increases((pn - 1) as nat, pn);
            }
            return (make_normal(neg, &t, EXP_MIN, p), st);
        }
        return (BigFloat { class: Class::Zero { sign: if neg { Sign::Negative } else { Sign::Positive } }, precision: p }, st);
    }
    let st = Status { bits: if inexact { FLAG_INEXACT } else { 0 } };
    (make_normal(neg, q, topexp as i64, p), st)
}

} // verus!

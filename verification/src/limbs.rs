//! Unsigned multi-limb integers: little-endian vectors of 64-bit limbs.
//!
//! Every operation is stated over [`nat_of`], the natural number a limb
//! sequence denotes.

use vstd::prelude::*;
use vstd::arithmetic::power2::*;
use vstd::arithmetic::mul::*;
use vstd::arithmetic::div_mod::*;

verus! {

/// `2^64`, the radix of one limb.
pub open spec fn limb_base() -> nat {
    0x1_0000_0000_0000_0000
}

/// The natural number denoted by little-endian limbs `s`.
pub open spec fn nat_of(s: Seq<u64>) -> nat
    decreases s.len(),
{
    if s.len() == 0 {
        0
    } else {
        nat_of(s.drop_last()) + (s.last() as nat) * pow2((64 * (s.len() - 1)) as nat)
    }
}

pub proof fn lemma_pow64_step(i: nat)
    ensures
        pow2(64 * (i + 1)) == pow2(64 * i) * limb_base(),
        pow2(64 * i) > 0,
{
    lemma2_to64();
    lemma_pow2_adds(64 * i, 64);
    assert(64 * (i + 1) == 64 * i + 64) by (nonlinear_arith);
    lemma_pow2_pos(64 * i);
}

pub proof fn lemma_nat_of_push(s: Seq<u64>, x: u64)
    ensures
        nat_of(s.push(x)) == nat_of(s) + (x as nat) * pow2(64 * s.len()),
{
    assert(s.push(x).drop_last() =~= s);
}

pub proof fn lemma_nat_of_bound(s: Seq<u64>)
    ensures
        nat_of(s) < pow2(64 * s.len()),
    decreases s.len(),
{
    if s.len() == 0 {
        lemma2_to64();
    } else {
        let d = s.drop_last();
        lemma_nat_of_bound(d);
        lemma_pow64_step(d.len());
        let p = pow2(64 * d.len());
        let x = s.last() as nat;
        assert(x * p <= (limb_base() - 1) * p) by (nonlinear_arith)
            requires x <= limb_base() - 1;
        assert((limb_base() - 1) * p + p == limb_base() * p) by (nonlinear_arith);
        assert(s.len() - 1 == d.len());
    }
}

pub proof fn lemma_nat_of_take_step(s: Seq<u64>, i: int)
    requires
        0 <= i < s.len(),
    ensures
        nat_of(s.take(i + 1)) == nat_of(s.take(i)) + (s[i] as nat) * pow2(64 * (i as nat)),
{
    assert(s.take(i + 1).drop_last() =~= s.take(i));
}

pub proof fn lemma_nat_of_zeros(s: Seq<u64>)
    requires
        forall|i: int| 0 <= i < s.len() ==> s[i] == 0,
    ensures
        nat_of(s) == 0,
    decreases s.len(),
{
    if s.len() > 0 {
        lemma_nat_of_zeros(s.drop_last());
    }
}

pub proof fn lemma_nat_of_zero_implies_zeros(s: Seq<u64>, i: int)
    requires
        nat_of(s) == 0,
        0 <= i < s.len(),
    ensures
        s[i] == 0,
    decreases s.len(),
{
    let d = s.drop_last();
    lemma_pow64_step((s.len() - 1) as nat);
    let p = pow2((64 * (s.len() - 1)) as nat);
    if s.last() != 0 {
        assert((s.last() as nat) * p >= p) by (nonlinear_arith)
            requires s.last() as nat >= 1, p > 0;
    }
    if i < s.len() - 1 {
        lemma_nat_of_zero_implies_zeros(d, i);
    }
}

/// The top limb being nonzero bounds the value from below.
pub proof fn lemma_nat_of_top(s: Seq<u64>)
    requires
        s.len() > 0,
        s.last() != 0,
    ensures
        nat_of(s) >= pow2((64 * (s.len() - 1)) as nat),
{
    let p = pow2((64 * (s.len() - 1)) as nat);
    assert((s.last() as nat) * p >= p) by (nonlinear_arith)
        requires s.last() as nat >= 1;
}

/// Trailing zero limbs do not change the value.
pub proof fn lemma_nat_of_trailing_zero(s: Seq<u64>)
    requires
        s.len() > 0,
        s.last() == 0,
    ensures
        nat_of(s) == nat_of(s.drop_last()),
{
}

/// Splitting at limb `k`.
pub proof fn lemma_nat_of_split(s: Seq<u64>, k: int)
    requires
        0 <= k <= s.len(),
    ensures
        nat_of(s) == nat_of(s.take(k)) + nat_of(s.skip(k)) * pow2(64 * (k as nat)),
    decreases s.len(),
{
    if k == s.len() {
        assert(s.take(k) =~= s);
        assert(s.skip(k) =~= Seq::<u64>::empty());
    } else {
        let d = s.drop_last();
        lemma_nat_of_split(d, k);
        assert(s.take(k) =~= d.take(k));
        let sk = s.skip(k);
        assert(sk.drop_last() =~= d.skip(k));
        assert(sk.last() == s.last());
        let a = pow2((64 * (sk.len() - 1)) as nat);
        let b = pow2(64 * (k as nat));
        lemma_pow2_adds((64 * (sk.len() - 1)) as nat, 64 * (k as nat));
        assert((64 * (sk.len() - 1)) as nat + 64 * (k as nat) == (64 * (s.len() - 1)) as nat);
        let x = s.last() as nat;
        assert((nat_of(d.skip(k)) + x * a) * b == nat_of(d.skip(k)) * b + x * (a * b))
            by (nonlinear_arith);
    }
}

/// Prepending `k` zero limbs multiplies the value by `2^(64k)`.
pub proof fn lemma_nat_of_prepend_zeros(z: Seq<u64>, s: Seq<u64>)
    requires
        forall|i: int| 0 <= i < z.len() ==> z[i] == 0,
    ensures
        nat_of(z + s) == nat_of(s) * pow2(64 * z.len()),
{
    let t = z + s;
    lemma_nat_of_split(t, z.len() as int);
    assert(t.take(z.len() as int) =~= z);
    assert(t.skip(z.len() as int) =~= s);
    lemma_nat_of_zeros(z);
}

/// The lowest limb is the value modulo `2^64`.
pub proof fn lemma_nat_of_low(s: Seq<u64>)
    requires
        s.len() > 0,
    ensures
        nat_of(s) == s[0] as nat + nat_of(s.skip(1)) * limb_base(),
{
    lemma_nat_of_split(s, 1);
    lemma2_to64();
    let t = s.take(1);
    assert(t.drop_last() =~= Seq::<u64>::empty());
    assert(t.last() == s[0]);
    assert((64 * (t.len() - 1)) as nat == 0);
    assert(nat_of(Seq::<u64>::empty()) == 0);
    assert(nat_of(t) == nat_of(t.drop_last()) + (t.last() as nat) * pow2(0));
    assert(nat_of(t) == s[0] as nat);
    assert(64 * (1 as nat) == 64);
}

// ---------------------------------------------------------------------
// Executable operations
// ---------------------------------------------------------------------

/// `n` zero limbs.
pub fn zeros(n: usize) -> (r: Vec<u64>)
    ensures
        r.len() == n,
        forall|i: int| 0 <= i < n ==> r[i] == 0,
        nat_of(r@) == 0,
{
    let mut r: Vec<u64> = Vec::new();
    while r.len() < n
        invariant
            r.len() <= n,
            forall|i: int| 0 <= i < r.len() ==> r[i] == 0,
        decreases n - r.len(),
    {
        r.push(0);
    }
    proof {
        lemma_nat_of_zeros(r@);
    }
    r
}

/// `a` extended with zero limbs to length `n`.
pub fn pad_to(a: &Vec<u64>, n: usize) -> (r: Vec<u64>)
    requires
        a.len() <= n,
    ensures
        r.len() == n,
        nat_of(r@) == nat_of(a@),
        forall|i: int| 0 <= i < a.len() ==> r[i] == a[i],
{
    let mut r = a.clone();
    assert(r@ =~= a@);
    while r.len() < n
        invariant
            a.len() <= r.len() <= n,
            nat_of(r@) == nat_of(a@),
            forall|i: int| 0 <= i < a.len() ==> r[i] == a[i],
        decreases n - r.len(),
    {
        proof {
            lemma_nat_of_push(r@, 0);
        }
        r.push(0);
    }
    r
}

/// A single limb holding `x`.
pub fn from_u64(x: u64) -> (r: Vec<u64>)
    ensures
        nat_of(r@) == x,
        r.len() == 1,
{
    let mut r: Vec<u64> = Vec::new();
    r.push(x);
    proof {
        lemma_nat_of_push(Seq::<u64>::empty(), x);
        assert(Seq::<u64>::empty().push(x) =~= r@);
        lemma2_to64();
        assert(64 * Seq::<u64>::empty().len() == 0);
        assert(nat_of(Seq::<u64>::empty()) == 0);
        assert(pow2(0) == 1);
        let e = Seq::<u64>::empty();
        assert(nat_of(e.push(x)) == nat_of(e) + (x as nat) * pow2(64 * e.len()));
        assert(e.len() == 0);
        assert(pow2(64 * e.len()) == 1);
        let q = pow2(64 * e.len());
        assert((x as nat) * q == x as nat) by (nonlinear_arith) requires q == 1;
        assert(nat_of(Seq::<u64>::empty().push(x)) == x);
        assert(nat_of(r@) == x);
    }
    r
}

/// Whether the value is zero.
pub fn is_zero(a: &Vec<u64>) -> (b: bool)
    ensures
        b == (nat_of(a@) == 0),
{
    let mut i: usize = 0;
    while i < a.len()
        invariant
            i <= a.len(),
            forall|j: int| 0 <= j < i ==> a[j] == 0,
        decreases a.len() - i,
    {
        if a[i] != 0 {
            proof {
                if nat_of(a@) == 0 {
                    lemma_nat_of_zero_implies_zeros(a@, i as int);
                }
            }
            return false;
        }
        i += 1;
    }
    proof {
        lemma_nat_of_zeros(a@);
    }
    true
}

/// `a + b`.
pub fn nat_add(a: &Vec<u64>, b: &Vec<u64>) -> (r: Vec<u64>)
    requires
        a.len() < usize::MAX,
        b.len() < usize::MAX,
    ensures
        nat_of(r@) == nat_of(a@) + nat_of(b@),
        r.len() == (if a.len() >= b.len() { a.len() } else { b.len() }) + 1,
{
    let n = if a.len() >= b.len() { a.len() } else { b.len() };
    let x = pad_to(a, n);
    let y = pad_to(b, n);
    let mut r: Vec<u64> = Vec::new();
    let mut carry: u64 = 0;
    let mut i: usize = 0;
    while i < n
        invariant
            x.len() == n,
            y.len() == n,
            i <= n,
            r.len() == i,
            carry <= 1,
            nat_of(r@) + (carry as nat) * pow2(64 * (i as nat)) == nat_of(x@.take(i as int))
                + nat_of(y@.take(i as int)),
        decreases n - i,
    {
        let t: u128 = x[i] as u128 + y[i] as u128 + carry as u128;
        let lo: u64 = (t % 0x1_0000_0000_0000_0000u128) as u64;
        let hi: u64 = (t / 0x1_0000_0000_0000_0000u128) as u64;
        proof {
            lemma_nat_of_take_step(x@, i as int);
            lemma_nat_of_take_step(y@, i as int);
            lemma_nat_of_push(r@, lo);
            lemma_pow64_step(i as nat);
            let p = pow2(64 * (i as nat));
            assert(t == lo as int + hi as int * 0x1_0000_0000_0000_0000);
            assert((x[i as int] as nat + y[i as int] as nat + carry as nat) * p == (lo as nat) * p
                + (hi as nat) * (p * limb_base())) by (nonlinear_arith)
                requires
                    x[i as int] as nat + y[i as int] as nat + carry as nat == lo as nat + hi as nat
                        * limb_base();
            assert((x[i as int] as nat + y[i as int] as nat + carry as nat) * p == (x[i as int]
                as nat) * p + (y[i as int] as nat) * p + (carry as nat) * p) by (nonlinear_arith);
        }
        r.push(lo);
        carry = hi;
        i += 1;
    }
    proof {
        lemma_nat_of_push(r@, carry);
        assert(x@.take(n as int) =~= x@);
        assert(y@.take(n as int) =~= y@);
    }
    r.push(carry);
    r
}

/// `a - b` on equal lengths with the final borrow: the borrow is set
/// exactly when `a < b`.
pub fn sub_borrow(a: &Vec<u64>, b: &Vec<u64>) -> (res: (Vec<u64>, bool))
    requires
        a.len() == b.len(),
    ensures
        res.0.len() == a.len(),
        res.1 == (nat_of(a@) < nat_of(b@)),
        !res.1 ==> nat_of(res.0@) == nat_of(a@) - nat_of(b@),
{
    let n = a.len();
    let mut r: Vec<u64> = Vec::new();
    let mut borrow: u64 = 0;
    let mut i: usize = 0;
    while i < n
        invariant
            a.len() == n,
            b.len() == n,
            i <= n,
            r.len() == i,
            borrow <= 1,
            nat_of(r@) == nat_of(a@.take(i as int)) - nat_of(b@.take(i as int)) + (borrow as nat)
                * pow2(64 * (i as nat)),
        decreases n - i,
    {
        let t: u128 = a[i] as u128 + 0x1_0000_0000_0000_0000u128 - b[i] as u128 - borrow as u128;
        let lo: u64 = (t % 0x1_0000_0000_0000_0000u128) as u64;
        let nb: u64 = if t < 0x1_0000_0000_0000_0000u128 { 1 } else { 0 };
        proof {
            lemma_nat_of_take_step(a@, i as int);
            lemma_nat_of_take_step(b@, i as int);
            lemma_nat_of_push(r@, lo);
            lemma_pow64_step(i as nat);
            let p = pow2(64 * (i as nat));
            assert(a[i as int] as int - b[i as int] as int - borrow as int == lo as int - nb as int
                * 0x1_0000_0000_0000_0000);
            assert((a[i as int] as int - b[i as int] as int - borrow as int) * p == (lo as int) * p
                - (nb as int) * (p * limb_base())) by (nonlinear_arith)
                requires
                    a[i as int] as int - b[i as int] as int - borrow as int == lo as int - nb as int
                        * limb_base();
            assert((a[i as int] as int - b[i as int] as int - borrow as int) * p == (a[i as int]
                as int) * p - (b[i as int] as int) * p - (borrow as int) * p) by (nonlinear_arith);
        }
        r.push(lo);
        borrow = nb;
        i += 1;
    }
    proof {
        assert(a@.take(n as int) =~= a@);
        assert(b@.take(n as int) =~= b@);
        lemma_nat_of_bound(r@);
        lemma_pow64_step(n as nat);
    }
    (r, borrow == 1)
}

/// `a < b`.
pub fn lt(a: &Vec<u64>, b: &Vec<u64>) -> (res: bool)
    ensures
        res == (nat_of(a@) < nat_of(b@)),
{
    let n = if a.len() >= b.len() { a.len() } else { b.len() };
    let x = pad_to(a, n);
    let y = pad_to(b, n);
    let (_, borrow) = sub_borrow(&x, &y);
    borrow
}

/// `a - b`, for `a >= b`.
pub fn nat_sub(a: &Vec<u64>, b: &Vec<u64>) -> (r: Vec<u64>)
    requires
        nat_of(a@) >= nat_of(b@),
    ensures
        nat_of(r@) == nat_of(a@) - nat_of(b@),
        r.len() == (if a.len() >= b.len() { a.len() } else { b.len() }),
{
    let n = if a.len() >= b.len() { a.len() } else { b.len() };
    let x = pad_to(a, n);
    let y = pad_to(b, n);
    let (r, _) = sub_borrow(&x, &y);
    r
}

/// Upper bound on the limb count the operations below accept.
pub open spec fn limb_cap() -> nat {
    0x4000_0000
}

/// No trailing zero limb.
pub open spec fn trimmed(s: Seq<u64>) -> bool {
    s.len() == 0 || s.last() != 0
}

/// Removes zero limbs from the top, in place.
pub fn trim(a: &mut Vec<u64>)
    ensures
        nat_of(final(a)@) == nat_of(old(a)@),
        final(a).len() <= old(a).len(),
        trimmed(final(a)@),
        forall|i: int| 0 <= i < final(a).len() ==> final(a)[i] == old(a)[i],
{
    while a.len() > 0 && a[a.len() - 1] == 0
        invariant
            nat_of(a@) == nat_of(old(a)@),
            a.len() <= old(a).len(),
            forall|i: int| 0 <= i < a.len() ==> a[i] == old(a)[i],
        decreases a.len(),
    {
        proof {
            lemma_nat_of_trailing_zero(a@);
        }
        a.pop();
    }
}

/// A trimmed sequence is no longer than its bit length demands.
pub proof fn lemma_trimmed_len(s: Seq<u64>, k: nat)
    requires
        trimmed(s),
        nat_of(s) < pow2(64 * k),
    ensures
        s.len() <= k,
{
    if s.len() > k {
        lemma_nat_of_top(s);
        if (64 * (s.len() - 1)) as nat > 64 * k {
            lemma_pow2_strictly_increases(64 * k, (64 * (s.len() - 1)) as nat);
        }
        assert((64 * (s.len() - 1)) as nat >= 64 * k);
    }
}

/// The lowest limb: the value itself when it fits a word.
pub fn low_word(a: &Vec<u64>) -> (r: u64)
    ensures
        nat_of(a@) < limb_base() ==> r as nat == nat_of(a@),
{
    if a.len() == 0 {
        0
    } else {
        proof {
            lemma_nat_of_low(a@);
            if nat_of(a@.skip(1)) > 0 {
                assert(nat_of(a@.skip(1)) * limb_base() >= limb_base()) by (nonlinear_arith)
                    requires nat_of(a@.skip(1)) >= 1;
            }
        }
        a[0]
    }
}

/// `2^s` as a machine word.
pub fn pow2_u64(s: u64) -> (r: u64)
    requires
        s < 64,
    ensures
        r == pow2(s as nat),
        r > 0,
{
    let mut r: u64 = 1;
    let mut j: u64 = 0;
    proof {
        lemma2_to64();
    }
    while j < s
        invariant
            j <= s < 64,
            r == pow2(j as nat),
        decreases s - j,
    {
        proof {
            lemma_pow2_unfold((j + 1) as nat);
            lemma_pow2_strictly_increases((j + 1) as nat, 64);
            lemma2_to64_rest();
        }
        r = r * 2;
        j = j + 1;
    }
    proof {
        lemma_pow2_pos(s as nat);
    }
    r
}

/// `a * d` for a single-limb multiplier.
pub fn mul_small(a: &Vec<u64>, d: u64) -> (r: Vec<u64>)
    requires
        a.len() < usize::MAX,
    ensures
        nat_of(r@) == nat_of(a@) * (d as nat),
        r.len() == a.len() + 1,
{
    let n = a.len();
    let mut r: Vec<u64> = Vec::new();
    let mut carry: u64 = 0;
    let mut i: usize = 0;
    proof {
        assert(a@.take(0) =~= Seq::<u64>::empty());
        assert(0 * (d as nat) == 0);
        assert(0 * pow2(0) == 0);
    }
    while i < n
        invariant
            a.len() == n,
            i <= n,
            r.len() == i,
            nat_of(r@) + (carry as nat) * pow2(64 * (i as nat)) == nat_of(a@.take(i as int)) * (
            d as nat),
        decreases n - i,
    {
        let ai = a[i];
        proof {
            assert((ai as nat) * (d as nat) <= 0xffff_ffff_ffff_ffff * 0xffff_ffff_ffff_ffff)
                by (nonlinear_arith)
                requires ai <= 0xffff_ffff_ffff_ffff, d <= 0xffff_ffff_ffff_ffff;
        }
        let t: u128 = ai as u128 * d as u128 + carry as u128;
        let lo: u64 = (t % 0x1_0000_0000_0000_0000u128) as u64;
        let hi: u64 = (t / 0x1_0000_0000_0000_0000u128) as u64;
        proof {
            lemma_nat_of_take_step(a@, i as int);
            lemma_nat_of_push(r@, lo);
            lemma_pow64_step(i as nat);
            let p = pow2(64 * (i as nat));
            assert(t == lo as int + hi as int * 0x1_0000_0000_0000_0000);
            assert(((ai as nat) * (d as nat) + carry as nat) * p == (lo as nat) * p + (hi as nat)
                * (p * limb_base())) by (nonlinear_arith)
                requires
                    (ai as nat) * (d as nat) + carry as nat == lo as nat + hi as nat * limb_base();
            assert((nat_of(a@.take(i as int)) + (ai as nat) * p) * (d as nat) == nat_of(
                a@.take(i as int)) * (d as nat) + ((ai as nat) * (d as nat)) * p)
                by (nonlinear_arith);
            assert(((ai as nat) * (d as nat) + carry as nat) * p == ((ai as nat) * (d as nat)) * p
                + (carry as nat) * p) by (nonlinear_arith);
        }
        r.push(lo);
        carry = hi;
        i += 1;
    }
    proof {
        lemma_nat_of_push(r@, carry);
        assert(a@.take(n as int) =~= a@);
    }
    r.push(carry);
    r
}

/// `(a / d, a % d)` for a single-limb divisor.
pub fn div_small(a: &Vec<u64>, d: u64) -> (res: (Vec<u64>, u64))
    requires
        d > 0,
    ensures
        nat_of(a@) == nat_of(res.0@) * (d as nat) + res.1,
        res.1 < d,
        res.0.len() == a.len(),
{
    let n = a.len();
    let mut q = zeros(n);
    let mut rem: u64 = 0;
    let mut i: usize = n;
    proof {
        assert(a@.skip(n as int) =~= Seq::<u64>::empty());
        assert(q@.skip(n as int) =~= Seq::<u64>::empty());
        assert(0 * (d as nat) == 0);
    }
    while i > 0
        invariant
            a.len() == n,
            q.len() == n,
            i <= n,
            rem < d,
            nat_of(a@.skip(i as int)) == nat_of(q@.skip(i as int)) * (d as nat) + rem,
        decreases i,
    {
        let ai = a[i - 1];
        let cur: u128 = rem as u128 * 0x1_0000_0000_0000_0000u128 + ai as u128;
        let qd128: u128 = cur / d as u128;
        let r128: u128 = cur % d as u128;
        proof {
            assert(cur < (d as u128) * 0x1_0000_0000_0000_0000u128) by (nonlinear_arith)
                requires
                    cur == rem as u128 * 0x1_0000_0000_0000_0000u128 + ai as u128,
                    rem < d,
                    ai < 0x1_0000_0000_0000_0000u128,
            ;
            lemma_fundamental_div_mod(cur as int, d as int);
            assert(qd128 < 0x1_0000_0000_0000_0000u128) by (nonlinear_arith)
                requires
                    cur < (d as u128) * 0x1_0000_0000_0000_0000u128,
                    cur == d as u128 * qd128 + r128,
                    d > 0,
            ;
        }
        let qd: u64 = qd128 as u64;
        let r: u64 = r128 as u64;
        let ghost oldq = q@;
        q.set(i - 1, qd);
        proof {
            let sa = a@.skip(i - 1);
            let sq = q@.skip(i - 1);
            lemma_nat_of_low(sa);
            lemma_nat_of_low(sq);
            assert(sa.skip(1) =~= a@.skip(i as int));
            assert(sq.skip(1) =~= oldq.skip(i as int));
            let qa = nat_of(oldq.skip(i as int));
            assert(nat_of(sa) == ai as nat + (qa * (d as nat) + rem as nat) * limb_base());
            assert(nat_of(sq) == qd as nat + qa * limb_base());
            assert(ai as nat + (qa * (d as nat) + rem as nat) * limb_base() == (qd as nat + qa
                * limb_base()) * (d as nat) + r as nat) by (nonlinear_arith)
                requires
                    cur == rem as nat * limb_base() + ai as nat,
                    cur == (d as nat) * (qd as nat) + r as nat,
            ;
        }
        rem = r;
        i -= 1;
    }
    proof {
        assert(a@.skip(0) =~= a@);
        assert(q@.skip(0) =~= q@);
    }
    (q, rem)
}

/// `k` zero limbs followed by `t`: the value times `2^(64k)`.
pub fn shift_limbs(t: &Vec<u64>, k: usize) -> (r: Vec<u64>)
    requires
        k + t.len() < usize::MAX,
    ensures
        nat_of(r@) == nat_of(t@) * pow2(64 * (k as nat)),
        r.len() == k + t.len(),
{
    let mut r = zeros(k);
    let ghost z = r@;
    let mut j: usize = 0;
    while j < t.len()
        invariant
            j <= t.len(),
            z.len() == k,
            forall|i: int| 0 <= i < k ==> z[i] == 0,
            r@ =~= z + t@.take(j as int),
        decreases t.len() - j,
    {
        r.push(t[j]);
        j += 1;
    }
    proof {
        assert(t@.take(t.len() as int) =~= t@);
        lemma_nat_of_prepend_zeros(z, t@);
    }
    r
}

/// `a * b`.
pub fn nat_mul(a: &Vec<u64>, b: &Vec<u64>) -> (r: Vec<u64>)
    requires
        a.len() + b.len() < limb_cap(),
    ensures
        nat_of(r@) == nat_of(a@) * nat_of(b@),
        r.len() <= a.len() + b.len() + 2,
{
    let n = a.len();
    let mut r: Vec<u64> = Vec::new();
    let mut i: usize = 0;
    proof {
        assert(a@.take(0) =~= Seq::<u64>::empty());
        assert(0 * nat_of(b@) == 0);
    }
    while i < n
        invariant
            a.len() == n,
            n + b.len() < limb_cap(),
            i <= n,
            r.len() <= i + b.len() + 2,
            nat_of(r@) == nat_of(a@.take(i as int)) * nat_of(b@),
        decreases n - i,
    {
        let t = mul_small(b, a[i]);
        let st = shift_limbs(&t, i);
        proof {
            lemma_nat_of_take_step(a@, i as int);
            let p = pow2(64 * (i as nat));
            assert((nat_of(a@.take(i as int)) + (a[i as int] as nat) * p) * nat_of(b@) == nat_of(
                a@.take(i as int)) * nat_of(b@) + (nat_of(b@) * (a[i as int] as nat)) * p)
                by (nonlinear_arith);
        }
        r = nat_add(&r, &st);
        trim(&mut r);
        i += 1;
    }
    proof {
        assert(a@.take(n as int) =~= a@);
    }
    r
}

/// `a * 2^k`.
pub fn shl(a: &Vec<u64>, k: u64) -> (r: Vec<u64>)
    requires
        a.len() < limb_cap(),
        k < 64 * limb_cap(),
    ensures
        nat_of(r@) == nat_of(a@) * pow2(k as nat),
        r.len() <= a.len() + (k / 64) + 1,
{
    let q: usize = (k / 64) as usize;
    let s: u64 = k % 64;
    let t = mul_small(a, pow2_u64(s));
    let r = shift_limbs(&t, q);
    proof {
        lemma_pow2_adds(s as nat, 64 * (q as nat));
        assert(k == s + 64 * q);
        assert(nat_of(a@) * pow2(s as nat) * pow2(64 * (q as nat)) == nat_of(a@) * (pow2(s as nat)
            * pow2(64 * (q as nat)))) by (nonlinear_arith);
    }
    r
}

/// Limbs `lo..hi` of `a`.
pub fn subvec(a: &Vec<u64>, lo: usize, hi: usize) -> (r: Vec<u64>)
    requires
        lo <= hi <= a.len(),
    ensures
        r@ =~= a@.subrange(lo as int, hi as int),
{
    let mut r: Vec<u64> = Vec::new();
    let mut j: usize = lo;
    while j < hi
        invariant
            lo <= j <= hi <= a.len(),
            r@ =~= a@.subrange(lo as int, j as int),
        decreases hi - j,
    {
        r.push(a[j]);
        j += 1;
    }
    r
}

/// `(a / 2^k, a % 2^k != 0)`.
pub fn shr(a: &Vec<u64>, k: u64) -> (res: (Vec<u64>, bool))
    requires
        k < 64 * limb_cap(),
    ensures
        nat_of(res.0@) == nat_of(a@) / pow2(k as nat),
        res.1 == (nat_of(a@) % pow2(k as nat) != 0),
        res.0.len() <= a.len(),
{
    let q: usize = (k / 64) as usize;
    let s: u64 = k % 64;
    let ghost av = nat_of(a@);
    proof {
        lemma_pow2_pos(k as nat);
        lemma_pow2_adds(s as nat, 64 * (q as nat));
        assert(k == s + 64 * q);
    }
    if q >= a.len() {
        let z = !is_zero(a);
        proof {
            lemma_nat_of_bound(a@);
            if a.len() < q {
                lemma_pow2_strictly_increases((64 * a.len()) as nat, 64 * (q as nat));
            }
            if 64 * (q as nat) < k {
                lemma_pow2_strictly_increases(64 * (q as nat), k as nat);
            }
            lemma_small_div_converse_nat(av, pow2(k as nat));
        }
        return (Vec::new(), z);
    }
    let low = subvec(a, 0, q);
    let high = subvec(a, q, a.len());
    let low_nz = !is_zero(&low);
    let d = pow2_u64(s);
    let (hq, rem) = div_small(&high, d);
    proof {
        lemma_nat_of_split(a@, q as int);
        assert(low@ =~= a@.take(q as int));
        assert(high@ =~= a@.skip(q as int));
        lemma_nat_of_bound(low@);
        let l = nat_of(low@);
        let h = nat_of(high@);
        let pq = pow2(64 * (q as nat));
        let ps = pow2(s as nat);
        let x = l + (rem as nat) * pq;
        assert(x < ps * pq) by (nonlinear_arith)
            requires l < pq, rem < ps, x == l + (rem as nat) * pq;
        assert(av == x + nat_of(hq@) * (ps * pq)) by (nonlinear_arith)
            requires av == l + h * pq, h == nat_of(hq@) * ps + rem as nat, x == l + (rem as nat) * pq;
        lemma_fundamental_div_mod_converse(av as int, (ps * pq) as int, nat_of(hq@) as int, x as int);
        if rem != 0 {
            assert((rem as nat) * pq > 0) by (nonlinear_arith) requires rem as nat >= 1, pq > 0;
        } else {
            assert((rem as nat) * pq == 0) by (nonlinear_arith) requires rem == 0;
        }
        if !low_nz {
            assert(l == 0);
        }
        assert(pow2(k as nat) == ps * pq);
    }
    (hq, low_nz || rem != 0)
}

pub proof fn lemma_small_div_converse_nat(x: nat, d: nat)
    requires
        x < d,
    ensures
        x / d == 0,
        x % d == x,
{
    lemma_small_mod(x, d);
    lemma_basic_div(x as int, d as int);
}

/// Number of significant bits of a machine word.
pub fn bit_len_u64(x: u64) -> (c: u64)
    ensures
        c <= 64,
        x == 0 ==> c == 0,
        x > 0 ==> c > 0 && pow2((c - 1) as nat) <= x && (x as nat) < pow2(c as nat),
{
    let mut y: u64 = x;
    let mut c: u64 = 0;
    proof {
        lemma2_to64();
    }
    while y > 0
        invariant
            c <= 64,
            y == x as nat / pow2(c as nat),
            c > 0 ==> x >= pow2((c - 1) as nat),
            c == 64 ==> y == 0,
        decreases y,
    {
        proof {
            lemma_pow2_pos(c as nat);
            lemma_div_denominator(x as int, pow2(c as nat) as int, 2);
            lemma_pow2_unfold((c + 1) as nat);
            if x < pow2(c as nat) {
                lemma_small_div_converse_nat(x as nat, pow2(c as nat));
            }
            if c == 63 {
                lemma2_to64_rest();
                lemma_div_is_ordered(x as int, 0xffff_ffff_ffff_ffff, pow2(64) as int);
            }
        }
        y = y / 2;
        c = c + 1;
    }
    proof {
        if c > 0 {
            lemma_pow2_pos((c - 1) as nat);
        }
        if x > 0 {
            lemma_pow2_pos(c as nat);
            lemma_fundamental_div_mod(x as int, pow2(c as nat) as int);
            lemma_mod_bound(x as int, pow2(c as nat) as int);
        }
    }
    c
}

/// Number of significant bits of a limb sequence.
pub fn bit_len(a: &Vec<u64>) -> (bl: u64)
    requires
        a.len() < limb_cap(),
    ensures
        (bl == 0) == (nat_of(a@) == 0),
        bl > 0 ==> pow2((bl - 1) as nat) <= nat_of(a@) && nat_of(a@) < pow2(bl as nat),
        bl <= 64 * a.len(),
{
    let mut t = a.clone();
    trim(&mut t);
    let n = t.len();
    if n == 0 {
        proof {
            lemma_nat_of_zeros(t@);
        }
        return 0;
    }
    let top = t[n - 1];
    let c = bit_len_u64(top);
    let bl: u64 = 64 * (n as u64 - 1) + c;
    proof {
        let d = t@.drop_last();
        let p = pow2((64 * (n - 1)) as nat);
        lemma_nat_of_bound(d);
        assert(d.len() == n - 1);
        lemma_pow2_adds((64 * (n - 1)) as nat, (c - 1) as nat);
        lemma_pow2_adds((64 * (n - 1)) as nat, c as nat);
        assert(((top as nat) + 1) * p <= pow2(c as nat) * p) by (nonlinear_arith)
            requires (top as nat) < pow2(c as nat);
        assert(pow2((c - 1) as nat) * p <= (top as nat) * p) by (nonlinear_arith)
            requires pow2((c - 1) as nat) <= top;
        assert(((top as nat) + 1) * p == (top as nat) * p + p) by (nonlinear_arith);
        assert(top != 0);
        assert((bl - 1) as nat == (64 * (n - 1)) as nat + (c - 1) as nat);
        lemma_pow2_pos(bl as nat);
        lemma_pow2_pos((bl - 1) as nat);
    }
    bl
}

/// `(a / b, a % b)` by shift-and-subtract.
pub fn divmod(a: &Vec<u64>, b: &Vec<u64>) -> (res: (Vec<u64>, Vec<u64>))
    requires
        nat_of(b@) > 0,
        a.len() < limb_cap() / 4,
        b.len() < limb_cap() / 4,
    ensures
        nat_of(res.0@) == nat_of(a@) / nat_of(b@),
        nat_of(res.1@) == nat_of(a@) % nat_of(b@),
        res.0.len() <= a.len() + 1,
        res.1.len() <= b.len() + 1,
{
    let ghost av = nat_of(a@);
    let ghost bv = nat_of(b@);
    let la = bit_len(a);
    let lb = bit_len(b);
    if la < lb {
        proof {
            if av > 0 && la < lb - 1 {
                lemma_pow2_strictly_increases(la as nat, (lb - 1) as nat);
            }
            assert(av < bv);
            lemma_small_div_converse_nat(av, bv);
        }
        let mut r = a.clone();
        trim(&mut r);
        proof {
            if av > 0 {
                lemma_pow2_strictly_increases(la as nat, lb as nat);
            }
            lemma_nat_of_bound(b@);
            lemma_trimmed_len(r@, b.len() as nat);
        }
        return (Vec::new(), r);
    }
    let k = la - lb;
    let mut d = shl(b, k);
    let mut r = a.clone();
    trim(&mut r);
    let mut q: Vec<u64> = Vec::new();
    let mut jj: u64 = k + 1;
    let one = from_u64(1);
    proof {
        lemma2_to64();
        lemma_pow2_adds((lb - 1) as nat, (k + 1) as nat);
        assert(bv * pow2((k + 1) as nat) >= pow2((lb - 1) as nat) * pow2((k + 1) as nat))
            by (nonlinear_arith) requires bv >= pow2((lb - 1) as nat);
        assert((lb - 1) as nat + (k + 1) as nat == la as nat);
        assert(64 * 1 == 64);
        assert(0 * bv == 0);
        lemma_pow2_pos((k + 1) as nat);
        assert(0nat % pow2((k + 1) as nat) == 0);
        assert(k / 64 <= a.len());
    }
    while jj > 0
        invariant
            nat_of(b@) == bv,
            bv > 0,
            nat_of(one@) == 1,
            one.len() == 1,
            jj <= k + 1,
            k < 64 * limb_cap() / 4,
            jj > 0 ==> nat_of(d@) == bv * pow2((jj - 1) as nat),
            nat_of(r@) < bv * pow2(jj as nat),
            av == nat_of(q@) * bv + nat_of(r@),
            nat_of(q@) < pow2((k + 1) as nat),
            nat_of(q@) % pow2(jj as nat) == 0,
            trimmed(q@),
            trimmed(r@),
            q.len() <= k / 64 + 1,
            k <= 64 * a.len(),
            d.len() < limb_cap() / 2,
            r.len() < limb_cap() / 2,
            q.len() < limb_cap() / 2,
        decreases jj,
    {
        let j = jj - 1;
        if !lt(&r, &d) {
            let ghost oq = nat_of(q@);
            r = nat_sub(&r, &d);
            let bit = shl(&one, j);
            assert(nat_of(bit@) == pow2(j as nat));
            q = nat_add(&q, &bit);
            trim(&mut q);
            trim(&mut r);
            proof {
                assert(bv * pow2(jj as nat) == bv * pow2(j as nat) * 2) by {
                    lemma_pow2_unfold(jj as nat);
                    lemma_mul_is_associative(bv as int, pow2(j as nat) as int, 2);
                }
                assert(av == (oq + pow2(j as nat)) * bv + nat_of(r@)) by (nonlinear_arith)
                    requires
                        av == oq * bv + (nat_of(r@) + bv * pow2(j as nat)),
                ;
                // the new bit is clear in the old quotient
                lemma_pow2_unfold(jj as nat);
                let m = oq / pow2(jj as nat);
                lemma_fundamental_div_mod(oq as int, pow2(jj as nat) as int);
                assert(oq + pow2(j as nat) == (2 * m + 1) * pow2(j as nat)) by (nonlinear_arith)
                    requires
                        oq == pow2(jj as nat) * m,
                        pow2(jj as nat) == 2 * pow2(j as nat),
                ;
                lemma_mod_multiples_basic((2 * m + 1) as int, pow2(j as nat) as int);
                lemma_mul_is_commutative((2 * m + 1) as int, pow2(j as nat) as int);
                // bound on the quotient
                if jj <= k {
                    lemma_pow2_strictly_increases(jj as nat, (k + 1) as nat);
                    lemma_pow2_subtracts(jj as nat, (k + 1) as nat);
                    lemma_fundamental_div_mod(pow2((k + 1) as nat) as int, pow2(jj as nat) as int);
                    lemma_pow2_adds(jj as nat, ((k + 1) - jj) as nat);
                    assert(pow2((k + 1) as nat) == pow2(jj as nat) * pow2(((k + 1) - jj) as nat));
                    assert(m < pow2(((k + 1) - jj) as nat)) by {
                        lemma_div_is_ordered(oq as int, pow2((k + 1) as nat) as int, pow2(jj as nat) as int);
                        lemma_div_by_multiple(pow2(((k + 1) - jj) as nat) as int, pow2(jj as nat) as int);
                        lemma_mul_is_commutative(pow2(jj as nat) as int, pow2(((k + 1) - jj) as nat) as int);
                        if m == pow2(((k + 1) - jj) as nat) {
                            lemma_mul_is_commutative(pow2(jj as nat) as int, m as int);
                        }
                    }
                    let pj = pow2(j as nat);
                    let pr = pow2(((k + 1) - jj) as nat);
                    assert((2 * m + 1) * pj < (m + 1) * (2 * pj)) by (nonlinear_arith)
                        requires pj > 0;
                    assert((m + 1) * (2 * pj) <= pr * (2 * pj)) by (nonlinear_arith)
                        requires m + 1 <= pr, pj > 0;
                    assert(pr * (2 * pj) == pow2(jj as nat) * pr) by (nonlinear_arith)
                        requires pow2(jj as nat) == 2 * pj;
                } else {
                    assert(oq < pow2(jj as nat));
                    lemma_small_div_converse_nat(oq, pow2(jj as nat));
                    lemma_pow2_pos(j as nat);
                }
                lemma_nat_of_bound(r@);
            }
        } else {
            proof {
                lemma_pow2_unfold(jj as nat);
                lemma_pow2_pos(j as nat);
                lemma_mod_mod(nat_of(q@) as int, pow2(j as nat) as int, 2);
                lemma_mul_is_commutative(pow2(j as nat) as int, 2);
                assert(pow2(j as nat) * 2 == pow2(jj as nat));
                assert(0int % (pow2(j as nat) as int) == 0);
            }
        }
        if jj > 1 {
            let (nd, _) = shr(&d, 1);
            proof {
                lemma2_to64();
                lemma_pow2_unfold(j as nat);
                let pj1 = pow2((j - 1) as nat);
                assert(bv * pow2(j as nat) == (bv * pj1) * 2) by (nonlinear_arith)
                    requires pow2(j as nat) == 2 * pj1;
                lemma_div_multiples_vanish((bv * pj1) as int, 2);
                lemma_mul_is_commutative((bv * pj1) as int, 2);
            }
            d = nd;
        }
        proof {
            lemma_nat_of_bound(q@);
            let kk: nat = (64 * (k / 64 + 1)) as nat;
            if kk > k + 1 {
                lemma_pow2_strictly_increases((k + 1) as nat, kk);
            }
            assert(kk == 64 * ((k / 64 + 1) as nat));
            lemma_trimmed_len(q@, (k / 64 + 1) as nat);
        }
        jj = j;
    }
    proof {
        lemma2_to64();
        assert(bv * pow2(0) == bv);
        lemma_nat_of_bound(b@);
        lemma_trimmed_len(r@, b.len() as nat);
        lemma_fundamental_div_mod_converse(av as int, bv as int, nat_of(q@) as int, nat_of(r@) as int);
    }
    (q, r)
}

} // verus!

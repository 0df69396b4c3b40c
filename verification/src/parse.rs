//! Correctly rounded conversion from decimal text.
//!
//! The accepted text is `[+-]digits[.digits][(e|E)[+-]digits]` with at
//! least one significand digit, or one of the words `inf`, `-inf`,
//! `nan` (in either case).

use vstd::prelude::*;
use vstd::arithmetic::power2::*;
use vstd::arithmetic::power::{pow, lemma_pow_adds, lemma_pow_positive};
use vstd::string::StringSliceAdditionalSpecFns;
use crate::limbs::{nat_of, limb_cap, trimmed, shl, nat_add, mul_small, divmod, from_u64, bit_len, is_zero, trim,
    lemma_trimmed_len, lemma_nat_of_bound};
use crate::types::{BigFloat, BuildError, Class, Sign, RoundingMode, Status, prec_ok, sign_of};
use crate::round::{round_sig, round_result, bits, lemma_bits_unique};

verus! {

/// Largest decimal exponent magnitude accepted.
pub const MAX_DECIMAL_EXPONENT: i64 = 20000;

/// Largest number of significant digits accepted.
pub const MAX_DIGITS: usize = 100000;

/// An ASCII decimal digit.
pub open spec fn is_digit_byte(c: u8) -> bool {
    48 <= c <= 57
}

/// The value of an ASCII decimal digit.
pub open spec fn digit_value(c: u8) -> nat {
    (c - 48) as nat
}

/// The significand scanned from `i`: digits accumulate into `v` and
/// count in `nd`; after the first point they also count in `frac`.
/// Stops at the end or at any other byte; returns that position, the
/// value, both counts and whether a digit was seen.
pub open spec fn scan_mantissa(b: Seq<u8>, i: int, v: nat, nd: nat, frac: nat, dot: bool, any: bool)
    -> (int, nat, nat, nat, bool)
    decreases b.len() - i,
{
    if i < 0 || i >= b.len() {
        (i, v, nd, frac, any)
    } else if is_digit_byte(b[i]) {
        scan_mantissa(b, i + 1, v * 10 + digit_value(b[i]), nd + 1, if dot { frac + 1 } else { frac }, dot, true)
    } else if b[i] == 46 && !dot {
        scan_mantissa(b, i + 1, v, nd, frac, true, any)
    } else {
        (i, v, nd, frac, any)
    }
}

/// The exponent digits from `i` to the end, accumulated into `e`; none
/// when a byte there is not a digit.
pub open spec fn scan_exponent(b: Seq<u8>, i: int, e: nat) -> Option<nat>
    decreases b.len() - i,
{
    if i < 0 || i >= b.len() {
        Some(e)
    } else if is_digit_byte(b[i]) {
        scan_exponent(b, i + 1, e * 10 + digit_value(b[i]))
    } else {
        None
    }
}

/// Length of the leading sign, if any.
pub open spec fn sign_len(b: Seq<u8>) -> int {
    if b.len() > 0 && (b[0] == 45 || b[0] == 43) { 1 } else { 0 }
}

/// The significand scan of the whole text.
pub open spec fn mantissa_of(b: Seq<u8>) -> (int, nat, nat, nat, bool) {
    scan_mantissa(b, sign_len(b), 0, 0, 0, false, false)
}

/// Where the exponent digits start after the marker at `i1`.
pub open spec fn exp_start(b: Seq<u8>, i1: int) -> int {
    if i1 + 1 < b.len() && (b[i1 + 1] == 45 || b[i1 + 1] == 43) { i1 + 2 } else { i1 + 1 }
}

/// The decimal number the text spells, as its sign, significand digit
/// value, digit count, fraction digit count and written exponent: the
/// value is `±value · 10^(exp − frac)`.
pub open spec fn decimal_of(b: Seq<u8>) -> Option<(bool, nat, nat, nat, int)> {
    let neg = sign_len(b) == 1 && b[0] == 45;
    let m = mantissa_of(b);
    let i1 = m.0;
    if !m.4 {
        None
    } else if i1 >= b.len() {
        Some((neg, m.1, m.2, m.3, 0int))
    } else if b[i1] == 101 || b[i1] == 69 {
        let i2 = exp_start(b, i1);
        let eneg = i2 == i1 + 2 && b[i1 + 1] == 45;
        if i2 >= b.len() {
            None
        } else {
            match scan_exponent(b, i2, 0) {
                Some(e) => Some((neg, m.1, m.2, m.3, if eneg { -(e as int) } else { e as int })),
                None => None,
            }
        }
    } else {
        None
    }
}

/// The digit count and the written exponent are within the accepted
/// bounds.
pub open spec fn within_caps(d: (bool, nat, nat, nat, int)) -> bool {
    &&& d.2 <= MAX_DIGITS
    &&& -MAX_DECIMAL_EXPONENT <= d.4 <= MAX_DECIMAL_EXPONENT
}

/// Case-insensitive `inf`, `-inf` and `nan`.
pub open spec fn is_word(b: Seq<u8>, w: Seq<u8>) -> bool {
    &&& b.len() == w.len()
    &&& forall|i: int| 0 <= i < b.len() ==> (#[trigger] b[i] == w[i] || b[i] == w[i] - 32)
}

pub open spec fn word_inf(b: Seq<u8>) -> bool {
    is_word(b, seq![105u8, 110u8, 102u8])
}

pub open spec fn word_neg_inf(b: Seq<u8>) -> bool {
    b.len() == 4 && b[0] == 45 && is_word(b.drop_first(), seq![105u8, 110u8, 102u8])
}

pub open spec fn word_nan(b: Seq<u8>) -> bool {
    is_word(b, seq![110u8, 97u8, 110u8])
}

/// What the text rounds to: the special words give their values; a
/// zero significand a signed zero; otherwise `value·10^e` is rounded
/// exactly, and `value/10^j` through its quotient by `10^j` after a
/// shift by `k = p + 2 + bits(10^j)`, the remainder making it sticky.
pub open spec fn parsed(b: Seq<u8>, r: BigFloat, st: Status, p: nat, mode: RoundingMode) -> bool {
    if word_inf(b) {
        r.class == (Class::Infinity { sign: Sign::Positive }) && st.bits == 0
    } else if word_neg_inf(b) {
        r.class == (Class::Infinity { sign: Sign::Negative }) && st.bits == 0
    } else if word_nan(b) {
        r.class is Nan && r.class->Nan_quiet && !r.spec_neg() && st.bits == 0
    } else {
        decimal_of(b) matches Some(d) && {
            let e10 = d.4 - d.3;
            if d.1 == 0 {
                r.class == (Class::Zero { sign: sign_of(d.0) }) && st.bits == 0
            } else if e10 >= 0 {
                round_result(r, st, d.1 * (pow(10, e10 as nat) as nat), false, 0, p, d.0, mode)
            } else {
                let j = (-e10) as nat;
                let t = pow(10, j) as nat;
                let k = p + 2 + bits(t);
                round_result(r, st, (d.1 * pow2(k)) / t, (d.1 * pow2(k)) % t != 0, -k, p, d.0, mode)
            }
        }
    }
}

/// `10^n ≤ 2^(4n)`.
proof fn lemma_pow10_bound(n: nat)
    ensures
        0 < pow(10, n) <= pow2(4 * n),
    decreases n,
{
    reveal(pow);
    lemma_pow_positive(10, n);
    if n == 0 {
        lemma2_to64();
    } else {
        lemma_pow10_bound((n - 1) as nat);
        lemma_pow2_adds(4 * ((n - 1) as nat), 4);
        lemma2_to64();
        assert(pow(10, n) == 10 * pow(10, (n - 1) as nat));
        assert(4 * n == 4 * ((n - 1) as nat) + 4);
    }
}

/// The significand scan never loses digits it has counted.
proof fn lemma_scan_mantissa_grows(b: Seq<u8>, i: int, v: nat, nd: nat, frac: nat, dot: bool, any: bool)
    ensures
        scan_mantissa(b, i, v, nd, frac, dot, any).2 >= nd,
        0 <= i < b.len() && is_digit_byte(b[i]) ==> scan_mantissa(b, i, v, nd, frac, dot, any).2 >= nd + 1,
    decreases b.len() - i,
{
    if 0 <= i < b.len() {
        if is_digit_byte(b[i]) {
            lemma_scan_mantissa_grows(b, i + 1, v * 10 + digit_value(b[i]), nd + 1,
                if dot { frac + 1 } else { frac }, dot, true);
        } else if b[i] == 46 && !dot {
            lemma_scan_mantissa_grows(b, i + 1, v, nd, frac, true, any);
        }
    }
}

/// The exponent scan never shrinks what it has accumulated.
proof fn lemma_scan_exponent_grows(b: Seq<u8>, i: int, e: nat)
    ensures
        scan_exponent(b, i, e) matches Some(f) ==> f >= e,
    decreases b.len() - i,
{
    if 0 <= i < b.len() && is_digit_byte(b[i]) {
        lemma_scan_exponent_grows(b, i + 1, e * 10 + digit_value(b[i]));
    }
}

/// `10^k` as limbs.
fn pow10_limbs(k: u64) -> (r: Vec<u64>)
    requires
        k <= MAX_DECIMAL_EXPONENT as u64 + MAX_DIGITS as u64,
    ensures
        nat_of(r@) == pow(10, k as nat),
        trimmed(r@),
        r.len() <= k / 16 + 1,
{
    let mut r = from_u64(1);
    trim(&mut r);
    let mut i: u64 = 0;
    proof {
        reveal(pow);
    }
    while i < k
        invariant
            i <= k,
            k <= MAX_DECIMAL_EXPONENT as u64 + MAX_DIGITS as u64,
            nat_of(r@) == pow(10, i as nat),
            trimmed(r@),
            r.len() <= i / 16 + 1,
        decreases k - i,
    {
        let t = mul_small(&r, 10);
        r = t;
        trim(&mut r);
        proof {
            reveal(pow);
            assert(pow(10, (i + 1) as nat) == 10 * pow(10, i as nat));
            lemma_pow10_bound((i + 1) as nat);
            lemma_pow2_strictly_increases(4 * ((i + 1) as nat), 64 * (((i + 1) / 16 + 1) as nat));
            lemma_trimmed_len(r@, ((i + 1) / 16 + 1) as nat);
        }
        i = i + 1;
    }
    r
}

/// The decimal text split into sign, digit value and decimal exponent.
struct Decimal {
    neg: bool,
    digits: Vec<u64>,
    exp10: i64,
}

fn is_digit(c: u8) -> (r: bool)
    ensures
        r == is_digit_byte(c),
{
    48 <= c && c <= 57
}

/// Scans the significand and exponent of decimal text.
fn scan_decimal(b: &[u8]) -> (r: Option<Decimal>)
    ensures
        r is Some <==> (decimal_of(b@) matches Some(d) && within_caps(d)),
        r matches Some(x) ==> decimal_of(b@) matches Some(d) && x.neg == d.0 && nat_of(x.digits@) == d.1
            && x.exp10 == d.4 - d.3 && d.3 <= d.2 && nat_of(x.digits@) < pow(10, d.2) && trimmed(x.digits@)
            && x.digits.len() <= MAX_DIGITS + 1,
{
    let ghost bs = b@;
    let n = b.len();
    let mut i: usize = 0;
    let mut neg = false;
    if i < n && (b[i] == 45 || b[i] == 43) {
        neg = b[i] == 45;
        i += 1;
    }
    let ghost i0: int = i as int;
    let mut d: Vec<u64> = Vec::new();
    let mut ndigits: usize = 0;
    let mut frac: i64 = 0;
    let mut seen_dot = false;
    let mut any = false;
    proof {
        reveal(pow);
        assert(i0 == sign_len(bs));
        assert(neg == (sign_len(bs) == 1 && bs[0] == 45));
    }
    while i < n
        invariant
            bs == b@,
            i0 == sign_len(bs),
            i0 <= i <= n,
            n == b.len(),
            ndigits <= MAX_DIGITS,
            d.len() <= ndigits + 1,
            trimmed(d@),
            nat_of(d@) < pow(10, ndigits as nat),
            0 <= frac <= ndigits,
            scan_mantissa(bs, i0, 0, 0, 0, false, false)
                == scan_mantissa(bs, i as int, nat_of(d@), ndigits as nat, frac as nat, seen_dot, any),
        ensures
            i < n ==> !is_digit_byte(b[i as int]) && !(b[i as int] == 46 && !seen_dot),
        decreases n - i,
    {
        let c = b[i];
        if is_digit(c) {
            if ndigits >= MAX_DIGITS {
                proof {
                    lemma_scan_mantissa_grows(bs, i as int, nat_of(d@), ndigits as nat, frac as nat, seen_dot, any);
                }
                return None;
            }
            let t = mul_small(&d, 10);
            let dv = from_u64((c - 48) as u64);
            let mut s = nat_add(&t, &dv);
            trim(&mut s);
            proof {
                lemma_pow_positive(10, ndigits as nat);
                reveal(pow);
                assert(pow(10, (ndigits + 1) as nat) == 10 * pow(10, ndigits as nat));
                assert(nat_of(s@) < pow(10, (ndigits + 1) as nat)) by (nonlinear_arith)
                    requires
                        nat_of(s@) == nat_of(d@) * 10 + (c - 48) as nat,
                        (c - 48) as nat <= 9,
                        nat_of(d@) + 1 <= pow(10, ndigits as nat),
                        pow(10, (ndigits + 1) as nat) == 10 * pow(10, ndigits as nat);
                lemma_pow10_bound((ndigits + 1) as nat);
                lemma_pow2_strictly_increases(4 * ((ndigits + 1) as nat), 64 * ((ndigits + 1) as nat));
                lemma_trimmed_len(s@, (ndigits + 1) as nat);
            }
            d = s;
            ndigits += 1;
            if seen_dot {
                frac += 1;
            }
            any = true;
        } else if c == 46 && !seen_dot {
            seen_dot = true;
        } else {
            break;
        }
        i += 1;
    }
    let ghost m = mantissa_of(bs);
    assert(m == (i as int, nat_of(d@), ndigits as nat, frac as nat, any));
    if !any {
        return None;
    }
    let mut e: i64 = 0;
    if i < n && (b[i] == 101 || b[i] == 69) {
        i += 1;
        let mut eneg = false;
        if i < n && (b[i] == 45 || b[i] == 43) {
            eneg = b[i] == 45;
            i += 1;
        }
        let ghost i2: int = i as int;
        assert(i2 == exp_start(bs, m.0));
        let mut eany = false;
        while i < n
            invariant
                bs == b@,
                m == mantissa_of(bs),
                m.4,
                0 <= m.0 < bs.len(),
                bs[m.0] == 101 || bs[m.0] == 69,
                i2 == exp_start(bs, m.0),
                i2 <= i <= n,
                n == b.len(),
                0 <= e <= MAX_DECIMAL_EXPONENT,
                eany == (i > i2),
                scan_exponent(bs, i2, 0) == scan_exponent(bs, i as int, e as nat),
            decreases n - i,
        {
            let c = b[i];
            if !is_digit(c) {
                return None;
            }
            e = e * 10 + (c - 48) as i64;
            if e > MAX_DECIMAL_EXPONENT {
                proof {
                    lemma_scan_exponent_grows(bs, (i + 1) as int, e as nat);
                }
                return None;
            }
            eany = true;
            i += 1;
        }
        if !eany {
            return None;
        }
        if eneg {
            e = -e;
        }
    }
    if i != n {
        return None;
    }
    Some(Decimal { neg, digits: d, exp10: e - frac })
}

impl BigFloat {
    /// The decimal number in `s`, correctly rounded to `precision` bits
    /// under `mode`.  Accepts an optional sign, digits with an optional
    /// point, and an optional exponent; `inf`, `-inf` and `nan` name the
    /// special values.
    pub fn parse_str(s: &str, precision: u32, mode: RoundingMode) -> (r: Result<(BigFloat, Status), BuildError>)
        ensures
            !prec_ok(precision as nat) ==> r is Err,
            prec_ok(precision as nat) ==> (r is Ok <==> (word_inf(s.spec_bytes()) || word_neg_inf(s.spec_bytes())
                || word_nan(s.spec_bytes()) || (decimal_of(s.spec_bytes()) matches Some(d) && within_caps(d)))),
            r is Err && prec_ok(precision as nat) ==> r == Err::<(BigFloat, Status), BuildError>(BuildError::ParseFailure),
            r matches Ok(v) ==> v.0.wf() && v.0.precision == precision
                && parsed(s.spec_bytes(), v.0, v.1, precision as nat, mode),
    {
        BigFloat::check_precision(precision)?;
        let b = s.as_bytes();
        let ghost bs = b@;
        if b.len() == 3 && (b[0] == 105 || b[0] == 73) && (b[1] == 110 || b[1] == 78) && (b[2] == 102 || b[2] == 70) {
            return Ok((BigFloat { class: Class::Infinity { sign: Sign::Positive }, precision }, Status { bits: 0 }));
        }
        if b.len() == 4 && b[0] == 45 && (b[1] == 105 || b[1] == 73) && (b[2] == 110 || b[2] == 78) && (b[3] == 102 || b[3] == 70) {
            proof {
                assert(bs.drop_first()[0] == bs[1] && bs.drop_first()[1] == bs[2] && bs.drop_first()[2] == bs[3]);
                assert(!word_inf(bs));
            }
            return Ok((BigFloat { class: Class::Infinity { sign: Sign::Negative }, precision }, Status { bits: 0 }));
        }
        if b.len() == 3 && (b[0] == 110 || b[0] == 78) && (b[1] == 97 || b[1] == 65) && (b[2] == 110 || b[2] == 78) {
            return Ok((BigFloat { class: Class::Nan { quiet: true, sign: Sign::Positive, payload: Vec::new() }, precision }, Status { bits: 0 }));
        }
        proof {
            if word_inf(bs) {
                assert(bs[0] == 105 || bs[0] == 73);
                assert(bs[1] == 110 || bs[1] == 78);
                assert(bs[2] == 102 || bs[2] == 70);
            }
            if word_neg_inf(bs) {
                assert(bs.drop_first()[0] == bs[1] && bs.drop_first()[1] == bs[2] && bs.drop_first()[2] == bs[3]);
                assert(bs[1] == 105 || bs[1] == 73);
            }
            if word_nan(bs) {
                assert(bs[0] == 110 || bs[0] == 78);
                assert(bs[1] == 97 || bs[1] == 65);
                assert(bs[2] == 110 || bs[2] == 78);
            }
        }
        let dec = match scan_decimal(b) {
            Some(d) => d,
            None => return Err(BuildError::ParseFailure),
        };
        let ghost d = decimal_of(bs).unwrap();
        let sign = if dec.neg { Sign::Negative } else { Sign::Positive };
        if is_zero(&dec.digits) {
            return Ok((BigFloat { class: Class::Zero { sign }, precision }, Status { bits: 0 }));
        }
        if dec.exp10 >= 0 {
            let m = pow10_limbs(dec.exp10 as u64);
            let mut n = crate::limbs::nat_mul(&dec.digits, &m);
            trim(&mut n);
            proof {
                let e10 = dec.exp10 as nat;
                lemma_pow_positive(10, e10);
                assert(nat_of(dec.digits@) * nat_of(m@) > 0) by (nonlinear_arith)
                    requires nat_of(dec.digits@) > 0, nat_of(m@) > 0;
                lemma_pow_adds(10, d.2, e10);
                assert(nat_of(n@) < pow(10, d.2 + e10)) by (nonlinear_arith)
                    requires
                        nat_of(n@) == nat_of(dec.digits@) * nat_of(m@),
                        nat_of(dec.digits@) < pow(10, d.2),
                        nat_of(m@) == pow(10, e10),
                        pow(10, e10) > 0,
                        pow(10, d.2 + e10) == pow(10, d.2) * pow(10, e10);
                lemma_pow10_bound(d.2 + e10);
                lemma_pow2_strictly_increases(4 * (d.2 + e10), 64 * 0x2000);
                lemma_trimmed_len(n@, 0x2000);
            }
            if n.len() >= 0x800_0000 {
                return Err(BuildError::ParseFailure);
            }
            Ok(round_sig(dec.neg, &n, false, 0, precision, mode))
        } else {
            let m = pow10_limbs((-dec.exp10) as u64);
            let bm = bit_len(&m);
            let k: u64 = precision as u64 + 2 + bm;
            let x = shl(&dec.digits, k);
            proof {
                lemma_pow_positive(10, (-dec.exp10) as nat);
            }
            let (mut q, rem) = divmod(&x, &m);
            let sticky = !is_zero(&rem);
            trim(&mut q);
            proof {
                let j = (-dec.exp10) as nat;
                let t = pow(10, j) as nat;
                lemma_pow_positive(10, j);
                lemma_bits_unique(t, bm as nat);
                let kk = precision as nat + 2 + bits(t);
                assert(k == kk);
                // q ≥ 2^(p+2): the dividend is at least 2^k and t < 2^bits(t)
                lemma_pow2_adds((precision as nat + 2) as nat, bm as nat);
                assert(nat_of(x@) >= pow2(k as nat)) by (nonlinear_arith)
                    requires nat_of(x@) == nat_of(dec.digits@) * pow2(k as nat), nat_of(dec.digits@) >= 1;
                assert(nat_of(x@) >= pow2((precision as nat + 2) as nat) * t) by (nonlinear_arith)
                    requires
                        nat_of(x@) >= pow2(k as nat),
                        pow2(k as nat) == pow2((precision as nat + 2) as nat) * pow2(bm as nat),
                        t < pow2(bm as nat);
                vstd::arithmetic::div_mod::lemma_div_is_ordered(
                    (pow2((precision as nat + 2) as nat) * t) as int, nat_of(x@) as int, t as int);
                vstd::arithmetic::div_mod::lemma_div_by_multiple(pow2((precision as nat + 2) as nat) as int, t as int);
                assert(nat_of(q@) >= pow2((precision as nat + 2) as nat));
                lemma_pow2_strictly_increases(precision as nat + 1, precision as nat + 2);
                lemma_pow2_pos(precision as nat + 1);
                // and it is small
                vstd::arithmetic::div_mod::lemma_div_is_ordered_by_denominator(nat_of(x@) as int, 1, t as int);
                lemma_nat_of_bound(x@);
                lemma_pow2_strictly_increases((64 * x.len()) as nat, 64 * 0x200_0000);
                lemma_trimmed_len(q@, 0x200_0000);
            }
            if q.len() >= 0x800_0000 || is_zero(&q) {
                return Err(BuildError::ParseFailure);
            }
            let big = crate::round::pow2_limbs(precision + 1);
            if sticky && crate::limbs::lt(&q, &big) {
                return Err(BuildError::ParseFailure);
            }
            Ok(round_sig(dec.neg, &q, sticky, -(k as i128), precision, mode))
        }
    }
}

} // verus!

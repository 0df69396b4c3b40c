#![allow(unused_imports)]

use core::cmp::Ordering;
use pfloat::{BigFloat, BuildError, Class, FixedFloat, RoundingMode, Sign, Status};
use pfloat::math::{ln_2_at, pi_at, pi_over_2_at, two_over_pi_at};

/// `|v − expected| ≤ 2^(−bits)·|expected|` (the bessel test
/// helper). References: `mpmath.zeta` at `mp.dps = 340`
/// (`nix-shell -p 'python3.withPackages(ps:[ps.mpmath])'`),
/// treated as a fact.
fn close_at(v: &BigFloat, expected: &BigFloat, bits: u32) -> bool {
    let (diff, _) = v.sub(expected, RoundingMode::NearestEven);
    let abs_diff = diff.abs();
    if abs_diff.is_zero() {
        return true;
    }
    let p = v.precision().max(expected.precision());
    let one = BigFloat::try_from_i64_exact(1, p).unwrap();
    let two = BigFloat::try_from_i64_exact(2, p).unwrap();
    let abs_b = expected.abs();
    let mut bound = if abs_b.is_zero() { one } else { abs_b };
    for _ in 0..bits {
        bound = bound.div(&two, RoundingMode::NearestEven).0;
    }
    matches!(
        abs_diff.partial_cmp(&bound).0,
        Some(Ordering::Less | Ordering::Equal)
    )
}

fn py(s: &str, p: u32) -> BigFloat {
    BigFloat::parse_str(s, p, RoundingMode::NearestEven)
        .unwrap()
        .0
}

fn at(n: i64, d: i64, p: u32) -> BigFloat {
    let nn = BigFloat::try_from_i64_exact(n, p).unwrap();
    if d == 1 {
        nn
    } else {
        nn.div(
            &BigFloat::try_from_i64_exact(d, p).unwrap(),
            RoundingMode::NearestEven,
        )
        .0
    }
}

// mpmath.zeta, dps = 340 (truncated to fit p).
const Z2: &str = "1.64493406684822643647241516664602518921894990120679843773555822937000747040320087383362890061975870530400431896233719067962872468700500778793510294633086627683173330936776260509525100687214005479681155879489036082327776191984075645587696323563670971009694890208593200805163647887833884604444518405982514525068";
const Z3: &str = "1.20205690315959428539973816151144999076498629234049888179227155534183820578631309018645587360933525814619915779526071941849199599867328321377639683720790016145394178294936006671919157552224249424396156390966410329115909578096551465127991840510571525598801543710978110203982753256678760352233698494166181105701";
const Z4: &str = "1.08232323371113819151600369654116790277475095191872690768297621544412061618696884655690963594169991723299081390804274241458407157457004534928200351471621920708778348091083702932618873482617527360423550621937375061711174534929686775073307606686934118905862833795279512033449589046886262694822083503298363214902";
const Z15: &str = "2.61237534868548834334856756792407163057080065240006340757332824881492776768827286099624386812631195238297635877214975569815763296843445913443832056180833600833933396280548054166294852684829798168645847550187899242552790919645625985746620957819178983247798052614814070472260846524069586856423142070771015331232";
const Z_HALF: &str = "-1.46035450880958681288949915251529801246722933101258149054288608782553052947450062527641937546335681951449637467986952958389234371035889426181923283975376292518263335864916412789122939415410119791731044810824194092788169842885717682395579918451788361465548665937991689152316352160424275374940796571353042261007";
const Z10: &str = "1.00099457512781808533714595890031901700601953156447751725778899463629146515191295439704196861038565275400689206320530767736809020353629380731906959498428739536216033347223525967320521789323288320665440138759279913286048883976147693647789769806971192063361022944054388731501219022076400989382492087774683640358";
// ζ(2) and ζ(3) at 1024-bit precision (dps = 340).
const Z2_BIG: &str = Z2;
const Z3_BIG: &str = Z3;
// ζ near the pole: s = 1.0009765625 (= 1 + 1/1024). The
// 1/(1−2^{1−s}) factor amplifies to ≈ 1024, exercising the
// derived conditioning boost.
const Z_NEAR1: &str = "1024.5772867695045940578681624248887776501597556226467113160352190702981219581341444863800913012818856950855998236564103910760853485875372916860380523003939719972891239530972602843354325731818616935853605173448667011466739027602092030574417526225201845179601125220008848142816634721046490224598777861367925203549";

/// Borwein/CVZ core on the moment region `s > 0`: closed-form
/// pins ζ(2)=π²/6, ζ(4)=π⁴/90, the irrational ζ(3), the
/// critical-line value ζ(1/2) (negative), ζ(3/2), ζ(10), each
/// vs the 340-digit mpmath reference at p = 240. Spans
/// 0 < s < 1 (where the Dirichlet series itself diverges but
/// the eta acceleration converges) and s > 1.
#[test]
fn borwein_matches_reference() {
    let p = 240;
    for (num, den, want) in [
        (2i64, 1i64, Z2),
        (4, 1, Z4),
        (3, 1, Z3),
        (1, 2, Z_HALF),
        (3, 2, Z15),
        (10, 1, Z10),
    ] {
        let s = at(num, den, p);
        let (r, st) = s.zeta(RoundingMode::NearestEven);
        assert!(!st.invalid() && !st.div_by_zero());
        assert!(close_at(&r, &py(want, p), p - 16), "ζ({num:?}/{den:?})");
    }
}

/// Large `s`: ζ(50) is 1 to within 2^{−48} (every eta term past
/// the first is negligible). Sanity that the accelerator does
/// not mis-handle the near-constant regime.
#[test]
fn borwein_large_argument_is_one() {
    let p = 113;
    let s = at(50, 1, p);
    let (r, _) = s.zeta(RoundingMode::NearestEven);
    let one = BigFloat::try_from_i64_exact(1, p).unwrap();
    assert!(close_at(&r, &one, 48), "ζ(50) ≈ 1");
}

/// Conditioning near the pole: s = 1 + 1/1024. ζ ≈ 1024.577;
/// the 1/(1−2^{1−s}) factor loses ≈ 10 bits, absorbed by the
/// derived `cond_boost`. A wrong boost (or sign) fails here.
#[test]
fn borwein_near_pole_conditioning() {
    let p = 160;
    // 1 + 1/1024 exactly (dyadic).
    let s = {
        let one = BigFloat::try_from_i64_exact(1, p).unwrap();
        let d = BigFloat::try_from_i64_exact(1024, p).unwrap();
        one.add(
            &BigFloat::try_from_i64_exact(1, p)
                .unwrap()
                .div(&d, RoundingMode::NearestEven)
                .0,
            RoundingMode::NearestEven,
        )
        .0
    };
    let (r, st) = s.zeta(RoundingMode::NearestEven);
    assert!(!st.invalid());
    assert!(close_at(&r, &py(Z_NEAR1, p), p - 24), "ζ(1+1/1024)");
}

/// Second-term-matters pin at p = 1024 (the derive-don't-recall
/// reflex): ζ(2)=π²/6 and ζ(3) bit-accurate to p−4 against the
/// 340-digit references. A `d_k` recurrence error, a wrong sign
/// in `c = b − c` / the `b` update, or an under-sized working
/// precision is invisible at low p and fails catastrophically
/// here.
#[test]
fn borwein_high_precision_pin() {
    let s = at(2, 1, 1024);
    let (r, _) = s.zeta(RoundingMode::NearestEven);
    assert!(close_at(&r, &py(Z2_BIG, 1024), 1020), "ζ(2) p=1024");
    let s = at(3, 1, 1024);
    let (r, _) = s.zeta(RoundingMode::NearestEven);
    assert!(close_at(&r, &py(Z3_BIG, 1024), 1020), "ζ(3) p=1024");
}

// mpmath.zeta on the negative axis, dps = 340. ζ(−1)=−1/12,
// ζ(−3)=1/120, ζ(−5)=−1/252, ζ(−7)=1/240 (exact rationals,
// routed entirely through the functional equation since the
// negative odd integers are NOT special-cased).
const ZN1: &str = "-0.0833333333333333333333333333333333333333333333333333333333333333333333333333333333333333333333333333333333333333333333333333333333333333333333333333333333333333333333333333333333333333333333333333333333333333333333333333333333333333333333333333333333";
const ZN3: &str = "0.00833333333333333333333333333333333333333333333333333333333333333333333333333333333333333333333333333333333333333333333333333333333333333333333333333333333333333333333333333333333333333333333333333333333333333333333333333333333333333333333333333333333";
const ZN5: &str = "-0.00396825396825396825396825396825396825396825396825396825396825396825396825396825396825396825396825396825396825396825396825396825396825396825396825396825396825396825396825396825396825396825396825396825396825396825396825396825396825396825396825396825397";
const ZN_HALF: &str = "-0.207886224977354566017306725397049302226268531287672537610113557106147291932292340487543266940733215643109975614128689565661326914694458311965705623294109531061640017807007041375078320755666248787786920661504691428291233832569371613677729383610945938789";
const ZN15: &str = "-0.0254852018898330359495429869107047454690249846009729968346454983492493771883392785970925189475243606083956786090522338379231706922081480226595534733619982128781578133045264443099251947318696331135537227085510583845600615587030880946621048463536127324092";
const ZN25: &str = "0.00851692877785033054235856702834448693627599022007447776588885495191457755599180493669488160134326161961109140844500462979255917397088304193018048008544285079380916536592281145828175781513758799235867264721263349427536024814776909920531663911328610074";
const ZN105: &str = "0.0111461224739428141361386754700669760847882533145070950020015456357735060427323428518682330397325401032561182052740841597292413751057605763603111924201930408938517933090311436848472127517446387995128075773617523581154995570298259266384590180139117838251";

/// Functional-equation negative axis (DLMF 25.4.2): exact
/// rationals ζ(−1)=−1/12, ζ(−3)=1/120, ζ(−5)=−1/252, ζ(−7)
/// =1/240 (each computed via the full FE, the negative odd
/// integers deliberately NOT special-cased), plus the
/// non-integer ζ(−1/2), ζ(−3/2), ζ(−5/2), ζ(−21/2) vs the
/// 340-digit mpmath reference at p = 128. (The FE composes
/// Γ+sin+pow+Borwein, so it is costly; `fe_high_precision_pin`
/// carries the p = 512 second-term pin.)
#[test]
fn fe_matches_reference() {
    let p = 128;
    for (num, den, want) in [
        (-1i64, 1i64, ZN1),
        (-3, 1, ZN3),
        (-5, 1, ZN5),
        (-7, 1, "0.004166666666666666666666666666666666666666666666666666666666666666666666666666666666666666666666666666666666666666666666666666666666666666666666666666666666666666666666666666666666666666666666666666666666666666666666666666666666666666666666666666667"),
        (-1, 2, ZN_HALF),
        (-3, 2, ZN15),
        (-5, 2, ZN25),
        (-21, 2, ZN105),
    ] {
        let s = at(num, den, p);
        let (r, st) = s.zeta(RoundingMode::NearestEven);
        assert!(!st.invalid() && !st.div_by_zero());
        assert!(close_at(&r, &py(want, p), p - 24), "ζ({num:?}/{den:?})");
    }
}

/// Functional-equation cross-tie / second-term pin at p = 512:
/// ζ(−1) = −1/12 to p−4 bits. Binds the FE composition
/// (2·(2π)^{s−1}·sin·Γ·ζ(1−s), Borwein on the s>0 side) against
/// the independent exact rational. A sin-vs-cos or
/// Γ(1−s)-vs-Γ(s) error fails here.
#[test]
fn fe_high_precision_pin() {
    let s = at(-1, 1, 512);
    let (r, _) = s.zeta(RoundingMode::NearestEven);
    assert!(close_at(&r, &py(ZN1, 512), 508), "ζ(−1) = −1/12 p=512");
}

#[test]
fn zeta_quiet_nan_propagates() {
    let q = BigFloat::try_new_quiet_nan(Sign::Positive, 53, &[]).unwrap();
    let (r, s) = q.zeta(RoundingMode::NearestEven);
    assert!(r.is_quiet_nan());
    assert!(!s.invalid());
}

#[test]
fn zeta_signaling_nan_raises_invalid() {
    let sn = BigFloat::try_new_signaling_nan(Sign::Positive, 53, &[]).unwrap();
    let (r, st) = sn.zeta(RoundingMode::NearestEven);
    assert!(r.is_quiet_nan());
    assert!(st.invalid());
}

#[test]
fn zeta_pole_at_one() {
    let one = BigFloat::try_from_i64_exact(1, 113).unwrap();
    let (r, s) = one.zeta(RoundingMode::NearestEven);
    assert!(r.is_infinite() && r.is_sign_positive(), "ζ(1) = +∞");
    assert!(s.div_by_zero());
}

#[test]
fn zeta_at_zero_is_minus_half() {
    // ζ(0) = −1/2 exact, for both +0 and −0.
    for sign in [Sign::Positive, Sign::Negative] {
        let z = BigFloat::try_new_zero(sign, 113).unwrap();
        let (r, s) = z.zeta(RoundingMode::NearestEven);
        assert!(!s.invalid() && !s.div_by_zero());
        let expected = {
            let two = BigFloat::try_from_i64_exact(2, 113).unwrap();
            BigFloat::try_from_i64_exact(-1, 113)
                .unwrap()
                .div(&two, RoundingMode::NearestEven)
                .0
        };
        assert!(
            matches!(r.partial_cmp(&expected).0, Some(Ordering::Equal)),
            "ζ(0) = −1/2"
        );
    }
}

#[test]
fn zeta_trivial_zeros_at_negative_even_integers() {
    for k in [-2i64, -4, -6, -10, -42] {
        let s = BigFloat::try_from_i64_exact(k, 113).unwrap();
        let (r, st) = s.zeta(RoundingMode::NearestEven);
        assert!(
            r.is_zero() && r.is_sign_positive(),
            "ζ({k:?}) = +0 (trivial zero)"
        );
        assert!(!st.invalid());
    }
}

#[test]
fn zeta_negative_odd_integers_are_not_trivial_zeros() {
    // ζ(−1), ζ(−3), … are nonzero rationals; they must NOT be
    // special-cased to zero (they route to the functional
    // equation).
    for k in [-1i64, -3, -5] {
        let s = BigFloat::try_from_i64_exact(k, 53).unwrap();
        let (r, _) = s.zeta(RoundingMode::NearestEven);
        assert!(!r.is_zero(), "ζ({k:?}) is not the zero special-case");
    }
}

#[test]
fn zeta_plus_infinity_is_one() {
    let inf = BigFloat::try_new_infinity(Sign::Positive, 53).unwrap();
    let (r, st) = inf.zeta(RoundingMode::NearestEven);
    let one = BigFloat::try_from_i64_exact(1, 53).unwrap();
    assert!(
        matches!(r.partial_cmp(&one).0, Some(Ordering::Equal)),
        "ζ(+∞) = 1"
    );
    assert!(!st.invalid());
}

#[test]
fn zeta_negative_infinity_is_invalid() {
    let ninf = BigFloat::try_new_infinity(Sign::Negative, 53).unwrap();
    let (r, s) = ninf.zeta(RoundingMode::NearestEven);
    assert!(r.is_quiet_nan(), "ζ(−∞) = NaN (no limit)");
    assert!(s.invalid());
}

#[test]
fn zeta_precision_zero_is_rejected() {
    let x = BigFloat::try_from_i64_exact(2, 53).unwrap();
    assert!(x.zeta_round(0, RoundingMode::NearestEven).is_err());
}

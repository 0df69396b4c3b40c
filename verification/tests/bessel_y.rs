#![allow(unused_imports)]

use core::cmp::Ordering;
use pfloat::{BigFloat, BuildError, Class, FixedFloat, RoundingMode, Sign, Status};
use pfloat::math::{ln_2_at, pi_at, pi_over_2_at, two_over_pi_at};
use pfloat::math::bessel_y::{bessel_y_asymptotic, bessel_y_eval_normal_at_w, bessel_y_series};

/// `Y_n(±0)` is the pole for BOTH zero signs: −∞ + `DIV_BY_ZERO`, not
/// NaN + INVALID (log(±0) = −∞ groups −0 with the pole). Order 0 → −∞.
#[test]
fn y0_negative_zero_is_the_pole_not_nan() {
    let nz = BigFloat::try_new_zero(Sign::Negative, 53).unwrap();
    let (r, st) = nz.y0_round(53, RoundingMode::NearestEven).unwrap();
    assert!(
        r.is_infinite() && r.is_sign_negative(),
        "y0(-0) = -inf (the pole), got {r:?}"
    );
    assert!(!st.invalid(), "y0(-0) is a pole (DIV_BY_ZERO), not INVALID");
}

/// `|v − expected| ≤ 2^(−bits)·|expected|` (the `bessel_j`/`erf`
/// test helper). Reference decimals: `mpmath` `bessely(n, x)` at
/// `mp.dps = 330`
/// (`nix-shell -p 'python3.withPackages(ps:[ps.mpmath])'`),
/// treated as a fact.
fn close_at(v: &BigFloat, expected: &BigFloat, bits: u32) -> bool {
    let (diff, _) = v.sub(expected, RoundingMode::NearestEven);
    let abs_diff = diff.abs();
    if abs_diff.is_zero() {
        return true;
    }
    let p = v.precision().max(expected.precision());
    let one = BigFloat::try_from_i64_exact(1, p).unwrap();
    let two = BigFloat::try_from_i64_exact(2, p).unwrap();
    let abs_b = expected.abs();
    let mut bound = if abs_b.is_zero() { one } else { abs_b };
    for _ in 0..bits {
        bound = bound.div(&two, RoundingMode::NearestEven).0;
    }
    matches!(
        abs_diff.partial_cmp(&bound).0,
        Some(Ordering::Less | Ordering::Equal)
    )
}

fn py(s: &str, p: u32) -> BigFloat {
    BigFloat::parse_str(s, p, RoundingMode::NearestEven)
        .unwrap()
        .0
}

fn at(n: i64, d: i64, p: u32) -> BigFloat {
    let nn = BigFloat::try_from_i64_exact(n, p).unwrap();
    if d == 1 {
        nn
    } else {
        nn.div(
            &BigFloat::try_from_i64_exact(d, p).unwrap(),
            RoundingMode::NearestEven,
        )
        .0
    }
}

// mpmath bessely(n, x), dps = 330 (truncated to fit p = 113).
const Y0_HALF: &str = "-0.44451873350670655714839847506833191037356512440151102041489117938823968793141728600040643311534111986534166279374081164055681338354759796819979290414603607710322924252297191321517536861397042466137749158319359986535079";
const Y1_HALF: &str = "-1.4714723926702430691885846353232974532410880554357483229559223834066940909523570678868634705980974507427173395904931472603822957011919081229168205907226988262044905682586324008798759255110477030702664113187480772586178";
const Y2_HALF: &str = "-5.4413708371742657196059400662248579025907870973414822714087983542385366758780109855470474492770486831055276955682317774009723694212200345234674894587447592277147330305115576903043283334302203876196881536917987091691206";
const Y0_52: &str = "0.49807035961523188782747235036208980611506253265681530429974629407406321557566995812355070589537398192385672943001934612775337251591109454305007402401299973085144637759449327183580472195082322152061855168008649846205288";
const Y1_52: &str = "0.14591813796678579887875994053587757127608019654670099984510336876847982786986827339694694495998904089288127698548695420739592301285341299984688991547700642348292700296345898227891129232942949834606441993069787616256066";
const Y2_52: &str = "-0.38133584924180324872446439793338774909419837541945450442366359905927935327977533940599314992738274920955170784162978276183663410562836414317256209163139459206510477522372608601267568808727962284376701573552819753200435";
const Y0_7: &str = "-0.025949743967209264884284963135722970186930836172718446607766370553193513857582489525922712522537272092128691592370516582921565613566622223247970896269009905783095511803775145797385878119661716988114304058052984665018584";
const Y1_7: &str = "-0.30266723702418487006076816955839496834131089203393953780158416495055339422290387639178721348655609063443268492972537685185103628707041049719364672402943351702708751523804853131680988618472817659828972258775307059424644";
const Y2_7: &str = "-0.060526609468272126561648799595247020767729418694121421335543390861250313063247189443159348473621610946280646958979591089035873325596352204521642453453685384796072349692810148864559803647403476325682759538447892647623256";
const Y0_M3: &str = "-4.4714166113759232689802886934264955747044811557836578355293457089934050985223905404716180228246204738260124225710113837270898795280105746607399842023055143947979883646042194261470348839760198332670650930447884411058852";
const Y1_M3: &str = "-636.62216723113942807437320601957569637320004286220162988363010289166468020567331606275382078239146840454146131313959710498920403749964474385892562171738689411877766793201649541296641816020550741373175777008581457495406030";

/// DLMF 10.8.1 log-series path vs mpmath at `p = 113`: orders
/// `0,1,2` over small (`0.5`), moderate (`2.5`, `7`) `x`, plus
/// the pole approach (`1e-3`, where the `(2/x)^n` head dominates
/// for `n ≥ 1`). Large enough orders/arguments that the second
/// `c_k` term materially contributes (the `derive, don't recall`
/// reflex: a low-`x`-only check would hide a coefficient error).
#[test]
fn series_matches_mpmath() {
    let p = 113;
    let x = at(1, 2, p); // 0.5
    for (n, want) in [(0i32, Y0_HALF), (1, Y1_HALF), (2, Y2_HALF)] {
        let (r, _) = x.yn(n, RoundingMode::NearestEven);
        assert!(close_at(&r, &py(want, p), p - 8), "Y_{n:?}(0.5)");
    }
    let x = at(5, 2, p); // 2.5
    for (n, want) in [(0i32, Y0_52), (1, Y1_52), (2, Y2_52)] {
        let (r, _) = x.yn(n, RoundingMode::NearestEven);
        assert!(close_at(&r, &py(want, p), p - 10), "Y_{n:?}(2.5)");
    }
    let x = at(7, 1, p);
    for (n, want) in [(0i32, Y0_7), (1, Y1_7), (2, Y2_7)] {
        let (r, _) = x.yn(n, RoundingMode::NearestEven);
        assert!(close_at(&r, &py(want, p), p - 12), "Y_{n:?}(7)");
    }
    let x = at(1, 1000, p); // 1e-3, pole approach
    for (n, want) in [(0i32, Y0_M3), (1, Y1_M3)] {
        let (r, _) = x.yn(n, RoundingMode::NearestEven);
        assert!(close_at(&r, &py(want, p), p - 12), "Y_{n:?}(1e-3)");
    }
}

// mpmath bessely at large |x| (dps = 90).
const Y0_200: &str =
    "-0.054265775249817910693500115141763046843260653011054063148190169321587553804947092";
const Y1_200: &str =
    "0.01530182458038998921966780774391601230422488536804796783556856489053218931466921";
const Y2_200: &str =
    "0.054418793495621810585696793219202206966302901864734542826545854970492875698093784";
const Y3_200: &str =
    "-0.014213448710477553007953871879531968164898827330753276979037647791122331800707334";
const Y5_200: &str =
    "0.012019640832200107520916455504508441524448832663366991333600968414953269974622734";
const Y0_1000: &str =
    "0.0047159179776228133997732614656652550098590048968019771852800026829151397602999922";
const Y1_1000: &str =
    "-0.024784331292351778914862356097141290938631854864870528758349019940178780233621799";
const Y2_1000: &str =
    "-0.0047654866402075169576029861778595375917362686065317182427967007227954973207672358";

/// DLMF 10.17.4 Hankel-asymptotic path, called directly so the
/// reused `a_k(n)` recurrence and `Y`'s period-4 trig cycle are
/// pinned independently of the regime dispatch:
/// `Y_n` at `x = 200` (`p = 53`) and `x = 1000` (`p = 113`) vs
/// mpmath. Large enough that the second and later `a_k` terms
/// materially contribute, so a recalled coefficient or a wrong
/// trig cycle fails here.
#[test]
fn asymptotic_matches_mpmath() {
    let p = 53;
    let x = at(200, 1, p);
    for (n, want) in [
        (0u32, Y0_200),
        (1, Y1_200),
        (2, Y2_200),
        (3, Y3_200),
        (5, Y5_200),
    ] {
        let (r, _, _) = bessel_y_asymptotic(n, &x, p);
        assert!(close_at(&r, &py(want, p), p - 8), "Y_{n:?}(200)");
    }
    let p = 113;
    let x = at(1000, 1, p);
    for (n, want) in [(0u32, Y0_1000), (1, Y1_1000), (2, Y2_1000)] {
        let (r, _, _) = bessel_y_asymptotic(n, &x, p);
        assert!(close_at(&r, &py(want, p), p - 12), "Y_{n:?}(1000)");
    }

    // Public path at large x must route through bessel_y01 into
    // the asymptotic (pins the bessel_j_threshold dispatch).
    let x = at(200, 1, 53);
    let (r0, _) = x.y0(RoundingMode::NearestEven);
    assert!(close_at(&r0, &py(Y0_200, 53), 45), "y0(200) via dispatch");
    let (r1, _) = x.y1(RoundingMode::NearestEven);
    assert!(close_at(&r1, &py(Y1_200, 53), 45), "y1(200) via dispatch");
}

/// Upward-recurrence cross-tie `Y_{n−1}(x) + Y_{n+1}(x) =
/// (2n/x)·Y_n(x)` (DLMF 10.6.1), binding three orders that all
/// climb from the same `(Y₀, Y₁)` base pair.
#[test]
fn recurrence_spot_check() {
    let p = 160;
    let x = at(5, 2, p); // 2.5
    let (y2, _) = x.yn(2, RoundingMode::NearestEven);
    let (y3, _) = x.yn(3, RoundingMode::NearestEven);
    let (y4, _) = x.yn(4, RoundingMode::NearestEven);
    let (lhs, _) = y2.add(&y4, RoundingMode::NearestEven);
    let six = BigFloat::try_from_i64_exact(6, p).unwrap();
    let (r1, _) = six.mul(&y3, RoundingMode::NearestEven);
    let (rhs, _) = r1.div(&x, RoundingMode::NearestEven);
    assert!(close_at(&lhs, &rhs, p - 10), "Y_2+Y_4 = (6/x)Y_3");
}

/// Recurrence agrees with the direct DLMF 10.8.1 series for
/// `n ≥ 2` (independent paths), at moderate `x`.
#[test]
fn recurrence_matches_series() {
    let p = 160;
    let x = at(7, 2, p); // 3.5
    for n in [2u32, 3, 5] {
        let recur = bessel_y_eval_normal_at_w(n, &x, p, false);
        let (series, _) = bessel_y_series(n, &x, p);
        assert!(close_at(&recur, &series, p - 12), "Y_{n:?}(3.5) recur=series");
    }
}

/// Negative-order parity `Y₋ₙ(x) = (−1)ⁿ Yₙ(x)` (DLMF 10.4.1):
/// the kernel reduces on `m = |n|` and flips the sign, so this
/// is bit-exact.
#[test]
fn negative_order_parity() {
    let p = 160;
    let x = at(9, 4, p); // 2.25
    for n in [1i32, 2, 3, 4] {
        let (pos, _) = x.yn(n, RoundingMode::NearestEven);
        let (neg, _) = x.yn(-n, RoundingMode::NearestEven);
        let expected = if n % 2 == 0 {
            pos.clone()
        } else {
            pos.negated()
        };
        assert_eq!(
            neg.partial_cmp(&expected).0,
            Some(Ordering::Equal),
            "Y_(-{n:?}) = (-1)^{n:?} Y_{n:?}"
        );
    }
}

// mpmath bessely (dps = 340) for the regime-boundary check.
const Y0_256: &str = "-0.0338129017179245490904802001579105142989436828054872732411660094390095268631908096790145694330311129900788922935589008234";
const Y1_256: &str = "0.0365875273992917400808021213386381993171223828654781838181095392316295493832100467605787409863810864302865546691367985571";

/// Cross-regime continuity: at `x = 256` the DLMF 10.17.4
/// asymptotic and the DLMF 10.8.1 series (called directly) agree
/// and both match mpmath. Pins the regime crossover and the
/// `a_k(n)` recurrence against the independent log-series path.
#[test]
fn asymptotic_series_continuity() {
    let p = 113;
    let x = at(256, 1, p);
    let (a0, _, _) = bessel_y_asymptotic(0, &x, p);
    let (s0, _) = bessel_y_series(0, &x, p);
    assert!(close_at(&a0, &s0, p - 14), "asymp vs series Y_0(256)");
    assert!(close_at(&a0, &py(Y0_256, p), p - 12), "asymp Y_0(256)");
    assert!(close_at(&s0, &py(Y0_256, p), p - 12), "series Y_0(256)");
    let (a1, _, _) = bessel_y_asymptotic(1, &x, p);
    let (s1, _) = bessel_y_series(1, &x, p);
    assert!(close_at(&a1, &s1, p - 14), "asymp vs series Y_1(256)");
    assert!(close_at(&a1, &py(Y1_256, p), p - 12), "asymp Y_1(256)");
}

// mpmath bessely (dps = 330) for the p = 1024 second-term pin.
const Y0_52_BIG: &str = "0.498070359615231887827472350362089806115062532656815304299746294074063215575669958123550705895373981923856729430019346127753372515911094543050074024012999730851446377594493271835804721950823221520618551680086498462052887794347122834260248470497165541676516778255376763944618616628570103413678087256903882209128454569424527607827318";
const Y2_256_BIG: &str = "0.0340987417757315158098614667308686252311087014216238215522449902142566327177471381693315908469872152278155060019115320621472548227534413709121545010974754454341942206357994610878177648119695691004956102002044082882671327695788506702585311791097572449883224212162085878637866065222838728564465367755616196261472949877860202203482873";

/// Second-term-matters pin (the `derive, don't recall` reflex):
/// the series path `Y₀(2.5)` and the asymptotic+recurrence path
/// `Y₂(256)` at `p = 1024`, validated to `p − 2` against the
/// 330-digit references. A coefficient or harmonic-reduction
/// error invisible at low precision fails here.
#[test]
fn high_precision_pin() {
    let x = at(5, 2, 1024);
    let (r, _) = x.y0(RoundingMode::NearestEven);
    assert!(close_at(&r, &py(Y0_52_BIG, 1024), 1022), "Y_0(2.5) p=1024");

    let x = at(256, 1, 1024);
    let (r, _) = x.yn(2, RoundingMode::NearestEven);
    assert!(close_at(&r, &py(Y2_256_BIG, 1024), 1022), "Y_2(256) p=1024");
}



#[test]
fn y_positive_zero_is_pole() {
    let z = BigFloat::try_new_zero(Sign::Positive, 53).unwrap();
    let (r, s) = z.y0(RoundingMode::NearestEven);
    assert!(r.is_infinite() && r.is_sign_negative(), "Y0(+0) = −∞");
    assert!(s.div_by_zero());
    let (r1, s1) = z.y1(RoundingMode::NearestEven);
    assert!(r1.is_infinite() && r1.is_sign_negative(), "Y1(+0) = −∞");
    assert!(s1.div_by_zero());
    let (rn, sn) = z.yn(3, RoundingMode::NearestEven);
    assert!(rn.is_infinite() && rn.is_sign_negative(), "Y3(+0) = −∞");
    assert!(sn.div_by_zero());
}

#[test]
fn y_negative_zero_is_the_pole() {
    // Y0(±0) is the pole −∞ + DIV_BY_ZERO for
    // BOTH zero signs (−0 groups with the pole, not the negative
    // axis).
    let z = BigFloat::try_new_zero(Sign::Negative, 53).unwrap();
    let (r, s) = z.y0(RoundingMode::NearestEven);
    assert!(r.is_infinite() && r.is_sign_negative(), "Y0(−0) = −∞");
    assert!(s.div_by_zero() && !s.invalid());
}

#[test]
fn y_negative_argument_is_invalid() {
    let x = BigFloat::try_from_i64_exact(-3, 53).unwrap();
    for n in [0i32, 1, 2, -2] {
        let (r, s) = x.yn(n, RoundingMode::NearestEven);
        assert!(r.is_quiet_nan(), "Y_{n:?}(−3) = NaN (complex)");
        assert!(s.invalid());
    }
}

#[test]
fn y_positive_infinity_is_zero() {
    let inf = BigFloat::try_new_infinity(Sign::Positive, 53).unwrap();
    for n in [0i32, 1, 5, -3] {
        let (r, st) = inf.yn(n, RoundingMode::NearestEven);
        assert!(r.is_zero() && r.is_sign_positive(), "Y_{n:?}(+∞) = +0");
        assert!(!st.invalid());
    }
}

#[test]
fn y_negative_infinity_is_invalid() {
    let ninf = BigFloat::try_new_infinity(Sign::Negative, 53).unwrap();
    let (r, s) = ninf.y1(RoundingMode::NearestEven);
    assert!(r.is_quiet_nan(), "Y1(−∞) = NaN (complex)");
    assert!(s.invalid());
}

#[test]
fn y_quiet_nan_propagates() {
    let q = BigFloat::try_new_quiet_nan(Sign::Positive, 53, &[]).unwrap();
    let (r, _) = q.yn(2, RoundingMode::NearestEven);
    assert!(r.is_quiet_nan());
}

#[test]
fn y_signaling_nan_raises_invalid() {
    let sn = BigFloat::try_new_signaling_nan(Sign::Positive, 53, &[]).unwrap();
    let (r, st) = sn.y0(RoundingMode::NearestEven);
    assert!(r.is_quiet_nan());
    assert!(st.invalid());
}

#[test]
fn bessel_y_precision_zero_is_rejected() {
    let x = BigFloat::try_from_i64_exact(2, 53).unwrap();
    assert!(x.y0_round(0, RoundingMode::NearestEven).is_err());
    assert!(x.yn_round(3, 0, RoundingMode::NearestEven).is_err());
}

#[test]
fn yn_refuses_orders_past_the_budget() {
    let huge = (pfloat::math::bessel_y::MAX_BESSEL_ORDER + 1) as i32;
    let x = BigFloat::try_from_i64_exact(1, 53).unwrap();
    let (ry, sy) = x.yn(huge, RoundingMode::NearestEven);
    assert!(ry.is_nan() && sy.invalid(), "yn(huge) refused");
    let (rn, sn) = x.yn(-huge, RoundingMode::NearestEven);
    assert!(rn.is_nan() && sn.invalid(), "yn(-huge) refused");
}

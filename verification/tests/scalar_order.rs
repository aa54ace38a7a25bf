use rt::interval::Interval;
use rt::scalar::Scalar;
use rt::vector3::Vector3;

fn sc(x: f64) -> Scalar {
    Scalar::from_bits(x.to_bits())
}

fn fl(s: Scalar) -> f64 {
    f64::from_bits(s.to_bits())
}

fn samples() -> Vec<f64> {
    vec![
        0.0,
        -0.0,
        1.0,
        -1.0,
        0.5,
        -0.5,
        1e-8,
        -1e-8,
        0.999,
        0.001,
        2.5,
        -2.5,
        1e300,
        -1e300,
        5e-324,
        -5e-324,
        f64::MIN_POSITIVE,
        f64::MAX,
        f64::MIN,
        f64::INFINITY,
        f64::NEG_INFINITY,
        f64::NAN,
        -f64::NAN,
        3.141592653589793,
        100.5,
        -100.5,
    ]
}

#[test]
fn comparisons_agree_with_binary64() {
    for &a in samples().iter() {
        for &b in samples().iter() {
            assert_eq!(sc(a).lt(sc(b)), a < b, "{a} < {b}");
            assert_eq!(sc(a).le(sc(b)), a <= b, "{a} <= {b}");
            assert_eq!(sc(a).gt(sc(b)), a > b, "{a} > {b}");
            assert_eq!(sc(a).ge(sc(b)), a >= b, "{a} >= {b}");
        }
    }
}

#[test]
fn nan_is_recognised() {
    for &a in samples().iter() {
        assert_eq!(sc(a).is_nan_value(), a.is_nan());
    }
}

#[test]
fn negation_and_magnitude_are_exact() {
    for &a in samples().iter() {
        assert_eq!(sc(a).neg().to_bits(), (-a).to_bits());
        assert_eq!(sc(a).abs().to_bits(), a.abs().to_bits());
    }
}

#[test]
fn min_and_max_agree_with_binary64() {
    for &a in samples().iter() {
        for &b in samples().iter() {
            let lo = fl(sc(a).min(sc(b)));
            let hi = fl(sc(a).max(sc(b)));
            if a.is_nan() && b.is_nan() {
                assert!(lo.is_nan() && hi.is_nan());
            } else {
                assert_eq!(lo, a.min(b), "min({a}, {b})");
                assert_eq!(hi, a.max(b), "max({a}, {b})");
            }
        }
    }
}

#[test]
fn ranking_is_total_and_matches_numbers() {
    let mut numbers: Vec<f64> = samples().into_iter().filter(|x| !x.is_nan()).collect();
    numbers.sort_by(|a, b| a.partial_cmp(b).unwrap());
    for i in 0..numbers.len() {
        for j in 0..numbers.len() {
            let below = sc(numbers[i]).ranks_below(sc(numbers[j]));
            assert_eq!(below, numbers[i] < numbers[j]);
        }
    }
    let nan = sc(f64::NAN);
    assert!(sc(f64::INFINITY).ranks_below(nan));
    assert!(!nan.ranks_below(nan));
}

#[test]
fn named_scalars_have_their_values() {
    assert_eq!(fl(Scalar::zero()), 0.0);
    assert_eq!(fl(Scalar::one()), 1.0);
    assert_eq!(fl(Scalar::infinity()), f64::INFINITY);
    assert_eq!(fl(Scalar::neg_infinity()), f64::NEG_INFINITY);
    assert_eq!(fl(Scalar::from_bits(rt::vector3::NEAR_ZERO_BITS)), 1e-8);
}

#[test]
fn interval_contains_and_surrounds() {
    let i = Interval::new(sc(1.0), sc(2.0));
    assert!(i.contains(sc(1.0)));
    assert!(i.contains(sc(2.0)));
    assert!(i.contains(sc(1.5)));
    assert!(!i.contains(sc(0.999)));
    assert!(!i.contains(sc(f64::NAN)));
    assert!(!i.surrounds(sc(1.0)));
    assert!(!i.surrounds(sc(2.0)));
    assert!(i.surrounds(sc(1.5)));
}

#[test]
fn interval_clamp_moves_to_the_nearer_bound() {
    let i = Interval::new(sc(0.0), sc(0.999));
    assert_eq!(fl(i.clamp(sc(-3.0))), 0.0);
    assert_eq!(fl(i.clamp(sc(7.0))), 0.999);
    assert_eq!(fl(i.clamp(sc(0.25))), 0.25);
    assert!(fl(i.clamp(sc(f64::NAN))).is_nan());
}

#[test]
fn empty_interval_holds_nothing_and_is_the_unit_of_the_hull() {
    let e = Interval::empty();
    assert_eq!(fl(e.min), f64::INFINITY);
    assert_eq!(fl(e.max), f64::NEG_INFINITY);
    for &a in samples().iter() {
        assert!(!e.contains(sc(a)));
        assert!(!e.surrounds(sc(a)));
    }
    let i = Interval::new(sc(-1.0), sc(4.0));
    assert_eq!(Interval::from_intervals(e, i), i);
    assert_eq!(Interval::from_intervals(i, e), i);
}

#[test]
fn hull_of_two_intervals() {
    let a = Interval::new(sc(-1.0), sc(4.0));
    let b = Interval::new(sc(2.0), sc(9.0));
    let h = Interval::from_intervals(a, b);
    assert_eq!(fl(h.min), -1.0);
    assert_eq!(fl(h.max), 9.0);
}

#[test]
fn near_zero_is_strict_on_every_component() {
    let tiny = 9.9e-9;
    assert!(Vector3::new(sc(tiny), sc(-tiny), sc(0.0)).near_zero());
    assert!(!Vector3::new(sc(1e-8), sc(0.0), sc(0.0)).near_zero());
    assert!(!Vector3::new(sc(0.0), sc(-1e-8), sc(0.0)).near_zero());
    assert!(!Vector3::new(sc(0.0), sc(0.0), sc(1.0)).near_zero());
    assert!(!Vector3::new(sc(f64::NAN), sc(0.0), sc(0.0)).near_zero());
}

#[test]
fn vector_accessors_and_negation() {
    let v = Vector3::new(sc(1.0), sc(-2.0), sc(0.0));
    assert_eq!(fl(v.x()), 1.0);
    assert_eq!(fl(v.y()), -2.0);
    assert_eq!(fl(v.z()), 0.0);
    let n = v.neg();
    assert_eq!(fl(n.x()), -1.0);
    assert_eq!(fl(n.y()), 2.0);
    assert_eq!(n.z().to_bits(), (-0.0f64).to_bits());
    let d = Vector3::default();
    assert_eq!((d.x().to_bits(), d.y().to_bits(), d.z().to_bits()), (0, 0, 0));
}

#[test]
fn universe_holds_every_number() {
    let u = Interval::universe();
    for &a in samples().iter() {
        assert_eq!(u.contains(sc(a)), !a.is_nan());
    }
    assert!(!u.surrounds(sc(f64::INFINITY)));
    assert!(u.surrounds(sc(f64::MAX)));
}

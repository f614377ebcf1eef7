use raytracer::scalar::{Scalar, INFINITY_BITS, ONE_BITS, SIGN_BIT};

fn num(x: f32) -> Scalar {
    Scalar::from_bits(x.to_bits())
}

fn float(s: Scalar) -> f32 {
    f32::from_bits(s.to_bits())
}

/// Numbers of every class, both signs, with neighbours that differ in the
/// last place.
fn specimens() -> Vec<f32> {
    let mut all = vec![
        0.0,
        f32::from_bits(1),
        f32::from_bits(2),
        f32::from_bits(0x007f_ffff),
        f32::MIN_POSITIVE,
        f32::from_bits(0x0080_0001),
        0.001,
        0.25,
        0.5,
        f32::from_bits(0x3f7f_ffff),
        1.0,
        f32::from_bits(0x3f80_0001),
        1.5,
        2.0,
        3.0,
        1.0e10,
        f32::MAX,
        f32::INFINITY,
        f32::NAN,
        f32::from_bits(0x7f80_0001),
        f32::from_bits(0x7fff_ffff),
    ];
    let negatives: Vec<f32> = all.iter().map(|x| -*x).collect();
    all.extend(negatives);
    all
}

#[test]
fn bits_round_trip() {
    for bits in [0u32, 1, ONE_BITS, SIGN_BIT, INFINITY_BITS, 0xffff_ffff] {
        assert_eq!(Scalar::from_bits(bits).to_bits(), bits);
    }
}

#[test]
fn constants_are_zero_and_one() {
    assert_eq!(float(Scalar::zero()), 0.0);
    assert!(!Scalar::zero().is_sign_negative());
    assert_eq!(float(Scalar::one()), 1.0);
    assert_eq!(Scalar::one().to_bits(), ONE_BITS);
}

#[test]
fn classification_agrees_with_the_hardware() {
    for x in specimens() {
        let s = num(x);
        assert_eq!(s.is_nan(), x.is_nan(), "is_nan of {x:?}");
        assert_eq!(s.is_infinite(), x.is_infinite(), "is_infinite of {x:?}");
        assert_eq!(s.is_finite(), x.is_finite(), "is_finite of {x:?}");
        assert_eq!(s.is_sign_negative(), x.is_sign_negative(), "sign of {x:?}");
    }
}

#[test]
fn comparisons_agree_with_the_hardware() {
    for x in specimens() {
        for y in specimens() {
            let (a, b) = (num(x), num(y));
            assert_eq!(a.lt(b), x < y, "{x:?} < {y:?}");
            assert_eq!(a.le(b), x <= y, "{x:?} <= {y:?}");
            assert_eq!(a.gt(b), x > y, "{x:?} > {y:?}");
            assert_eq!(a.ge(b), x >= y, "{x:?} >= {y:?}");
            assert_eq!(a == b, x == y, "{x:?} == {y:?}");
            assert_eq!(a != b, x != y, "{x:?} != {y:?}");
        }
    }
}

#[test]
fn lt_follows_the_numbers() {
    assert!(num(-1.5).lt(num(0.25)));
    assert!(!num(0.25).lt(num(-1.5)));
    assert!(num(f32::MAX).lt(num(f32::INFINITY)));
    assert!(num(f32::NEG_INFINITY).lt(num(f32::MIN)));
    assert!(num(-2.0).lt(num(-1.0)));
    assert!(!num(-1.0).lt(num(-2.0)));
}

#[test]
fn the_two_zeros_are_equal_and_neither_is_below_the_other() {
    assert!(num(0.0) == num(-0.0));
    assert!(!num(0.0).lt(num(-0.0)));
    assert!(!num(-0.0).lt(num(0.0)));
    assert!(num(0.0).le(num(-0.0)));
    assert!(num(-0.0).ge(num(0.0)));
}

#[test]
fn a_nan_compares_with_nothing() {
    let nan = num(f32::NAN);
    for x in specimens() {
        let s = num(x);
        assert!(!nan.lt(s) && !nan.le(s) && !nan.gt(s) && !nan.ge(s));
        assert!(!s.lt(nan) && !s.le(nan) && !s.gt(nan) && !s.ge(nan));
        assert!(nan != s);
    }
    assert!(nan != nan);
}

#[test]
fn neg_flips_the_sign_bit_only() {
    for x in specimens() {
        let s = num(x);
        assert_eq!(s.neg().to_bits(), (-x).to_bits(), "negation of {x:?}");
        assert_eq!(s.neg().to_bits(), s.to_bits() ^ SIGN_BIT);
        assert_eq!(s.neg().neg().to_bits(), s.to_bits());
    }
    assert_eq!(num(0.0).neg().to_bits(), SIGN_BIT);
}

#[test]
fn from_dyadic_encodes_exactly() {
    // numerator * 2^shift / 2^149
    assert_eq!(float(Scalar::from_dyadic(false, 1, 149)), 1.0);
    assert_eq!(float(Scalar::from_dyadic(true, 1, 149)), -1.0);
    assert_eq!(float(Scalar::from_dyadic(false, 3, 148)), 1.5);
    assert_eq!(float(Scalar::from_dyadic(false, 1, 148)), 0.5);
    assert_eq!(float(Scalar::from_dyadic(false, 5, 150)), 10.0);
    assert_eq!(float(Scalar::from_dyadic(true, 0x00ff_ffff, 125)), -(16777215.0 / 16777216.0));
    assert_eq!(float(Scalar::from_dyadic(false, 0x0080_0000, 126)), 1.0);
    // the smallest normal number and the largest finite one
    assert_eq!(float(Scalar::from_dyadic(false, 1, 23)), f32::MIN_POSITIVE);
    assert_eq!(float(Scalar::from_dyadic(false, 0x00ff_ffff, 253)), f32::MAX);
}

#[test]
fn from_dyadic_gives_zero_a_clear_sign() {
    assert_eq!(Scalar::from_dyadic(false, 0, 149).to_bits(), 0);
    assert_eq!(Scalar::from_dyadic(true, 0, 23).to_bits(), 0);
}

#[test]
fn from_dyadic_agrees_with_the_hardware() {
    let mut numerator: u32 = 1;
    while numerator < 0x0100_0000 {
        for shift in [23u32, 24, 100, 125, 126, 149, 200, 253] {
            let expected = (numerator as f64) * 2f64.powi(shift as i32 - 149);
            let got = float(Scalar::from_dyadic(false, numerator, shift));
            assert_eq!(got as f64, expected, "{numerator} * 2^{shift}");
            let got = float(Scalar::from_dyadic(true, numerator, shift));
            assert_eq!(got as f64, -expected, "-{numerator} * 2^{shift}");
        }
        numerator = numerator * 3 + 1;
    }
}

use nsc_arbiter::scalar::Scalar;

fn num(x: f32) -> Scalar {
    Scalar::from_bits(x.to_bits())
}

fn samples() -> Vec<f32> {
    let mut v = vec![
        0.0,
        -0.0,
        1.0,
        -1.0,
        0.5,
        2.2,
        0.76,
        3.0,
        1.1,
        10.0,
        -10.0,
        1e-3,
        1e-40,
        -1e-40,
        f32::MIN_POSITIVE,
        f32::MAX,
        f32::MIN,
        f32::EPSILON,
        f32::INFINITY,
        f32::NEG_INFINITY,
        f32::NAN,
        -f32::NAN,
    ];
    v.push(f32::from_bits(0x7fc0_0001));
    v.push(f32::from_bits(0xff80_0001));
    v.push(f32::from_bits(0x0000_0001));
    v.push(f32::from_bits(0x8000_0001));
    v.push(f32::from_bits(0x7f7f_ffff));
    v
}

#[test]
fn bits_round_trip() {
    for x in samples() {
        assert_eq!(num(x).to_bits(), x.to_bits());
    }
    assert_eq!(Scalar::zero().to_bits(), 0.0f32.to_bits());
    assert_eq!(Scalar::one().to_bits(), 1.0f32.to_bits());
    assert_eq!(Scalar::minus_one().to_bits(), (-1.0f32).to_bits());
}

#[test]
fn classification_matches_the_hardware() {
    for x in samples() {
        assert_eq!(num(x).is_nan(), x.is_nan(), "is_nan of {:?}", x);
        assert_eq!(num(x).is_finite(), x.is_finite(), "is_finite of {:?}", x);
        assert_eq!(num(x).is_zero(), x == 0.0, "is_zero of {:?}", x);
    }
}

#[test]
fn comparisons_match_the_hardware() {
    for a in samples() {
        for b in samples() {
            assert_eq!(num(a).lt(num(b)), a < b, "{:?} < {:?}", a, b);
            assert_eq!(num(a).gt(num(b)), a > b, "{:?} > {:?}", a, b);
            assert_eq!(num(a).le(num(b)), a <= b, "{:?} <= {:?}", a, b);
            assert_eq!(num(a).ge(num(b)), a >= b, "{:?} >= {:?}", a, b);
            assert_eq!(num(a).value_eq(num(b)), a == b, "{:?} == {:?}", a, b);
        }
    }
}

#[test]
fn comparisons_match_the_hardware_on_a_sweep_of_bit_patterns() {
    let mut bits: Vec<u32> = Vec::new();
    let mut b: u32 = 0;
    loop {
        bits.push(b);
        bits.push(b ^ 0x8000_0000);
        match b.checked_add(0x0123_4567) {
            Some(n) if n < 0x8000_0000 => b = n,
            _ => break,
        }
    }
    for &x in &bits {
        for &y in &bits {
            let (fx, fy) = (f32::from_bits(x), f32::from_bits(y));
            assert_eq!(Scalar::from_bits(x).lt(Scalar::from_bits(y)), fx < fy);
            assert_eq!(Scalar::from_bits(x).le(Scalar::from_bits(y)), fx <= fy);
            assert_eq!(Scalar::from_bits(x).value_eq(Scalar::from_bits(y)), fx == fy);
        }
    }
}

#[test]
fn clamp_matches_the_hardware() {
    let bands = [(0.1f32, 0.4f32), (0.5, 1.0), (-1.0, 1.0), (0.0, 0.0), (-0.0, 0.0), (f32::NEG_INFINITY, f32::INFINITY)];
    for x in samples() {
        for (lo, hi) in bands {
            let got = num(x).clamp(num(lo), num(hi));
            let want = x.clamp(lo, hi);
            if want.is_nan() {
                assert!(got.is_nan());
            } else {
                assert_eq!(got.to_bits(), want.to_bits(), "clamp {:?} into {:?}..{:?}", x, lo, hi);
            }
        }
    }
}

#[test]
fn clamp_exact_values() {
    assert_eq!(num(0.05).clamp(num(0.1), num(0.4)).to_bits(), 0.1f32.to_bits());
    assert_eq!(num(0.7).clamp(num(0.1), num(0.4)).to_bits(), 0.4f32.to_bits());
    assert_eq!(num(0.25).clamp(num(0.1), num(0.4)).to_bits(), 0.25f32.to_bits());
    assert_eq!(num(0.1).clamp(num(0.1), num(0.4)).to_bits(), 0.1f32.to_bits());
    assert_eq!(num(0.4).clamp(num(0.1), num(0.4)).to_bits(), 0.4f32.to_bits());
}

use lucky_star::double::Double;

fn d(x: f64) -> Double {
    Double::from_bits(x.to_bits())
}

fn f(x: Double) -> f64 {
    f64::from_bits(x.to_bits())
}

fn same(a: Double, b: f64) -> bool {
    if b.is_nan() {
        a.is_nan()
    } else {
        a.to_bits() == b.to_bits()
    }
}

fn samples() -> Vec<f64> {
    let mut v = vec![
        0.0,
        -0.0,
        1.0,
        -1.0,
        0.5,
        2.0,
        0.1,
        0.2,
        0.3,
        -11.06713,
        26.141212,
        1e-12,
        65535.0,
        0.7,
        349.0,
        f64::MAX,
        f64::MIN,
        f64::MIN_POSITIVE,
        5e-324,
        -5e-324,
        2.2250738585072011e-308,
        f64::INFINITY,
        f64::NEG_INFINITY,
        f64::NAN,
        9007199254740992.0,
        9007199254740993.0,
        4503599627370495.5,
        1.7976931348623155e308,
        1e154,
        1e-154,
        1e200,
        1e-200,
    ];
    let mut state: u64 = 0x1234_5678_9abc_def1;
    for _ in 0..60 {
        state ^= state << 13;
        state ^= state >> 7;
        state ^= state << 17;
        v.push(f64::from_bits(state));
    }
    for _ in 0..60 {
        state ^= state << 13;
        state ^= state >> 7;
        state ^= state << 17;
        v.push((state % 2_000_003) as f64 / 997.0 - 900.0);
    }
    v
}

#[test]
fn products_match_the_hardware() {
    for a in samples() {
        for b in samples() {
            assert!(same(d(a).product(d(b)), a * b), "{a:e} * {b:e}");
        }
    }
}

#[test]
fn quotients_match_the_hardware() {
    for a in samples() {
        for b in samples() {
            assert!(same(d(a).quotient(d(b)), a / b), "{a:e} / {b:e}");
        }
    }
}

#[test]
fn sums_match_the_hardware() {
    for a in samples() {
        for b in samples() {
            assert!(same(d(a).sum(d(b)), a + b), "{a:e} + {b:e}");
            assert!(same(d(a).difference(d(b)), a - b), "{a:e} - {b:e}");
        }
    }
}

#[test]
fn operators_are_the_operations() {
    assert_eq!(f(d(1.5) + d(2.25)), 3.75);
    assert_eq!(f(d(1.0) / d(3.0)), 1.0 / 3.0);
    assert_eq!(f(Double::from(2u8)), 2.0);
    assert!(d(0.0) == d(-0.0));
    assert!(d(f64::NAN) != d(f64::NAN));
}

#[test]
fn comparisons_match_the_hardware() {
    for a in samples() {
        for b in samples() {
            assert_eq!(d(a).at_most(d(b)), a <= b);
            assert_eq!(d(a).below(d(b)), a < b);
            assert_eq!(d(a) == d(b), a == b);
            assert_eq!(
                d(a).total_at_most(d(b)),
                a.total_cmp(&b) != std::cmp::Ordering::Greater
            );
            if a != b {
                assert!(same(d(a).larger(d(b)), a.max(b)));
                assert!(same(d(a).smaller(d(b)), a.min(b)));
            }
        }
    }
}

#[test]
fn conversions_match_the_hardware() {
    for a in samples() {
        assert_eq!(d(a).to_u16(), a as u16, "{a:e}");
        assert_eq!(d(a).to_i32(), a as i32, "{a:e}");
        assert_eq!(d(a).ceil_to_i32(), a.ceil() as i32, "{a:e}");
        assert_eq!(d(a).round_to_u32(), a.round() as u32, "{a:e}");
        assert_eq!(d(a).is_nan(), a.is_nan());
        assert_eq!(d(a).is_finite(), a.is_finite());
        assert_eq!(d(a).is_sign_negative(), a.is_sign_negative());
        assert_eq!(d(a).absolute_value().to_bits(), a.abs().to_bits());
        assert_eq!(d(a).negation().to_bits(), (-a).to_bits());
        assert!(same(d(a).clamped(d(0.0), d(1.0)), a.clamp(0.0, 1.0)));
    }
}

#[test]
fn square_roots_match_the_hardware() {
    for a in samples() {
        assert!(same(d(a).square_root(), a.sqrt()), "{a:e}");
        assert!(same(d(a.abs()).square_root(), a.abs().sqrt()), "{a:e}");
    }
}

#[test]
fn integers_match_the_hardware() {
    for i in [
        0u64,
        1,
        2,
        3,
        10,
        255,
        65535,
        1 << 52,
        (1 << 53) - 1,
        1 << 53,
        (1 << 53) + 1,
        (1 << 53) + 3,
        u64::MAX,
        u64::MAX - 1023,
    ] {
        assert_eq!(f(Double::of_u64(i)), i as f64);
        assert_eq!(f(Double::of_usize(i as usize)), i as usize as f64);
    }
    for i in [0i64, -1, 7, -123456789, i64::MIN, i64::MAX, -(1 << 53) - 1] {
        assert_eq!(f(Double::of_i64(i)), i as f64);
    }
}

#[test]
fn ratios_are_decimal_literals() {
    assert_eq!(f(Double::ratio(7, 10)), 0.7);
    assert_eq!(f(Double::ratio(8, 10)), 0.8);
    assert_eq!(f(Double::ratio(275, 10)), 27.5);
    assert_eq!(f(Double::ratio(615, 10)), 61.5);
    assert_eq!(f(Double::ratio(-1106713, 100000)), -11.06713);
    assert_eq!(f(Double::ratio(26141212, 1000000)), 26.141212);
    assert_eq!(f(Double::ratio(1, 1_000_000_000_000)), 1e-12);
}

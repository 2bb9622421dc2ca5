use pathtracer::number::scalar::Scalar;

fn s(x: f64) -> Scalar {
    Scalar::from_bits(x.to_bits())
}

fn same(got: Scalar, want: f64) -> bool {
    if want.is_nan() {
        f64::from_bits(got.to_bits()).is_nan()
    } else {
        got.to_bits() == want.to_bits()
    }
}

struct Lcg(u64);

impl Lcg {
    fn next(&mut self) -> u64 {
        self.0 = self.0.wrapping_mul(6364136223846793005).wrapping_add(1442695040888963407);
        let hi = self.0 >> 32;
        self.0 = self.0.wrapping_mul(6364136223846793005).wrapping_add(1442695040888963407);
        (hi << 32) | (self.0 >> 32)
    }

    /// A double with a random sign and mantissa and an exponent near `mid`.
    fn near(&mut self, mid: u64, spread: u64) -> f64 {
        let w = self.next();
        let e = mid - spread + (self.next() % (2 * spread + 1));
        f64::from_bits((w & 0x800f_ffff_ffff_ffff) | (e << 52))
    }
}

fn specials() -> Vec<f64> {
    vec![
        0.0,
        -0.0,
        1.0,
        -1.0,
        2.0,
        0.5,
        3.0,
        0.1,
        1e-8,
        0.001,
        0.999,
        256.0,
        f64::INFINITY,
        f64::NEG_INFINITY,
        f64::NAN,
        f64::MAX,
        f64::MIN_POSITIVE,
        f64::from_bits(1),
        f64::from_bits(0x000f_ffff_ffff_ffff),
        -f64::from_bits(3),
        f64::EPSILON,
        1.0 + f64::EPSILON,
        1.5,
        9007199254740992.0,
        9007199254740993.0,
        1e300,
        1e-300,
        -1e308,
    ]
}

#[test]
fn special_values_agree_with_the_machine() {
    for &a in &specials() {
        assert!(same(s(a).sqrt(), a.sqrt()), "sqrt {a:e}");
        assert!(same(s(a).neg(), -a) || a.is_nan(), "neg {a:e}");
        assert!(same(s(a).abs(), a.abs()) || a.is_nan(), "abs {a:e}");
        for &b in &specials() {
            assert!(same(s(a).add(s(b)), a + b), "{a:e} + {b:e}");
            assert!(same(s(a).sub(s(b)), a - b), "{a:e} - {b:e}");
            assert!(same(s(a).mul(s(b)), a * b), "{a:e} * {b:e}");
            assert!(same(s(a).div(s(b)), a / b), "{a:e} / {b:e}");
            assert_eq!(s(a).lt(&s(b)), a < b, "{a:e} < {b:e}");
            assert_eq!(s(a).le(&s(b)), a <= b, "{a:e} <= {b:e}");
            assert_eq!(s(a).gt(&s(b)), a > b, "{a:e} > {b:e}");
        }
    }
}

#[test]
fn random_patterns_agree_with_the_machine() {
    let mut g = Lcg(0x1234_5678_9abc_def0);
    for _ in 0..20000 {
        let a = f64::from_bits(g.next());
        let b = f64::from_bits(g.next());
        assert!(same(s(a).add(s(b)), a + b), "{a:e} + {b:e}");
        assert!(same(s(a).sub(s(b)), a - b), "{a:e} - {b:e}");
        assert!(same(s(a).mul(s(b)), a * b), "{a:e} * {b:e}");
        assert!(same(s(a).div(s(b)), a / b), "{a:e} / {b:e}");
        assert!(same(s(a).sqrt(), a.sqrt()), "sqrt {a:e}");
        assert_eq!(s(a).lt(&s(b)), a < b, "{a:e} < {b:e}");
    }
}

#[test]
fn neighbouring_magnitudes_agree_with_the_machine() {
    let mut g = Lcg(42);
    for _ in 0..20000 {
        let a = g.near(1023, 60);
        let b = g.near(1023, 60);
        assert!(same(s(a).add(s(b)), a + b), "{a:e} + {b:e}");
        assert!(same(s(a).sub(s(b)), a - b), "{a:e} - {b:e}");
        assert!(same(s(a).mul(s(b)), a * b), "{a:e} * {b:e}");
        assert!(same(s(a).div(s(b)), a / b), "{a:e} / {b:e}");
        assert!(same(s(a).sqrt(), a.sqrt()), "sqrt {a:e}");
    }
}

#[test]
fn subnormal_results_agree_with_the_machine() {
    let mut g = Lcg(7);
    for _ in 0..20000 {
        let a = g.near(30, 29);
        let b = g.near(1023, 40);
        let c = g.near(500, 40);
        let d = g.near(520, 40);
        assert!(same(s(a).add(s(b)), a + b), "{a:e} + {b:e}");
        assert!(same(s(a).mul(s(b)), a * b), "{a:e} * {b:e}");
        assert!(same(s(a).div(s(b)), a / b), "{a:e} / {b:e}");
        assert!(same(s(c).mul(s(d)), c * d), "{c:e} * {d:e}");
        assert!(same(s(a).sqrt(), a.sqrt()), "sqrt {a:e}");
        let x = f64::from_bits(g.next() >> 12);
        let y = f64::from_bits(g.next() >> 12);
        assert!(same(s(x).add(s(y)), x + y), "{x:e} + {y:e}");
        assert!(same(s(x).sub(s(y)), x - y), "{x:e} - {y:e}");
        assert!(same(s(x).div(s(y)), x / y), "{x:e} / {y:e}");
        assert!(same(s(x).sqrt(), x.sqrt()), "sqrt {x:e}");
    }
}

#[test]
fn overflowing_results_agree_with_the_machine() {
    let mut g = Lcg(99);
    for _ in 0..20000 {
        let a = g.near(2040, 6);
        let b = g.near(2040, 6);
        let c = g.near(1023, 20);
        assert!(same(s(a).add(s(b)), a + b), "{a:e} + {b:e}");
        assert!(same(s(a).sub(s(b)), a - b), "{a:e} - {b:e}");
        assert!(same(s(a).mul(s(c)), a * c), "{a:e} * {c:e}");
        assert!(same(s(a).div(s(c)), a / c), "{a:e} / {c:e}");
    }
}

#[test]
fn whole_numbers_and_ratios_are_the_literals() {
    assert!(same(Scalar::from_int(0), 0.0));
    assert!(same(Scalar::from_int(1), 1.0));
    assert!(same(Scalar::from_int(-7), -7.0));
    assert!(same(Scalar::from_int(i64::MAX), i64::MAX as f64));
    assert!(same(Scalar::from_int(i64::MIN), i64::MIN as f64));
    assert!(same(Scalar::from_int(9007199254740993), 9007199254740993i64 as f64));
    assert!(same(Scalar::ratio(1, 1000), 0.001));
    assert!(same(Scalar::ratio(1, 100_000_000), 1e-8));
    assert!(same(Scalar::ratio(7, 10), 0.7));
    assert!(same(Scalar::ratio(999, 1000), 0.999));
    assert!(same(Scalar::ratio(-1005, 10), -100.5));
    assert!(same(Scalar::one(), 1.0));
    assert!(same(Scalar::two(), 2.0));
    assert!(same(Scalar::half(), 0.5));
    assert!(same(Scalar::zero(), 0.0));
    assert!(same(Scalar::infinity(), f64::INFINITY));
    assert!(f64::from_bits(Scalar::nan().to_bits()).is_nan());
}

#[test]
fn bytes_are_cut_as_a_cast_cuts_them() {
    let mut g = Lcg(5);
    for &a in &specials() {
        assert_eq!(s(a).to_byte(), a as u8, "{a:e}");
    }
    for _ in 0..20000 {
        let a = g.near(1026, 8);
        assert_eq!(s(a).to_byte(), a as u8, "{a:e}");
    }
    assert_eq!(s(255.744).to_byte(), 255);
    assert_eq!(s(254.999).to_byte(), 254);
    assert_eq!(s(0.999).to_byte(), 0);
}

#[test]
fn clamp_holds_a_number_between_its_bounds() {
    let lo = s(0.0);
    let hi = s(0.999);
    for &a in &specials() {
        assert!(same(s(a).clamp(lo, hi), a.clamp(0.0, 0.999)), "{a:e}");
    }
}

#[test]
fn random_words_fall_in_the_unit_interval() {
    let mut g = Lcg(11);
    assert!(same(Scalar::from_word(0), 0.0));
    assert!(same(Scalar::from_word(u64::MAX), 1.0 - f64::EPSILON / 2.0));
    assert!(same(Scalar::from_word(1 << 63), 0.5));
    for _ in 0..1000 {
        let w = g.next();
        let want = (w >> 11) as f64 * (1.0 / 9007199254740992.0);
        assert!(same(Scalar::from_word(w), want));
        assert!(want >= 0.0 && want < 1.0);
    }
}

use pathtracer::number::scalar::Scalar;
use pathtracer::vec3::Vec3;

fn s(x: f64) -> Scalar {
    Scalar::from_bits(x.to_bits())
}

fn f(x: Scalar) -> f64 {
    f64::from_bits(x.to_bits())
}

fn v(x: f64, y: f64, z: f64) -> Vec3 {
    Vec3::with(s(x), s(y), s(z))
}

fn a(u: Vec3) -> [f64; 3] {
    [f(u.x()), f(u.y()), f(u.z())]
}

fn unit(w: u64) -> f64 {
    (w >> 11) as f64 * (1.0 / 9007199254740992.0)
}

#[test]
fn a_word_is_spread_over_the_range() {
    assert_eq!(f(Scalar::in_range(s(-1.0), s(1.0), 0)), -1.0);
    assert_eq!(f(Scalar::in_range(s(-1.0), s(1.0), 1 << 63)), 0.0);
    assert_eq!(f(Scalar::in_range(s(2.0), s(6.0), 1 << 62)), 3.0);
    assert_eq!(f(Scalar::in_range(s(2.0), s(6.0), 3 << 62)), 5.0);
    assert!(f(Scalar::in_range(s(-1.0), s(1.0), u64::MAX)) < 1.0);
    for &w in &[0x0123_4567_89ab_cdefu64, 0xfedc_ba98_7654_3210, 42, u64::MAX] {
        for &(lo, hi) in &[(-1.0, 1.0), (0.0, 1.0), (0.25, 7.5), (-3.0, -2.0)] {
            let want: f64 = lo + (hi - lo) * unit(w);
            assert_eq!(f(Scalar::in_range(s(lo), s(hi), w)).to_bits(), want.to_bits());
            assert!(want >= lo && want <= hi);
        }
    }
}

#[test]
fn three_words_make_a_vector() {
    let got = a(Vec3::from_words(s(-1.0), s(1.0), 0, 1 << 63, 3 << 62));
    assert_eq!(got, [-1.0, 0.0, 0.5]);
    let got = a(Vec3::disk_words(1 << 62, 1 << 63));
    assert_eq!(got, [-0.5, 0.0, 0.0]);
}

#[test]
fn random_numbers_lie_in_the_unit_interval() {
    let mut sum = 0.0;
    for _ in 0..2000 {
        let x = f(Scalar::random());
        assert!(x >= 0.0 && x < 1.0);
        sum += x;
    }
    assert!(sum > 800.0 && sum < 1200.0);
}

#[test]
fn random_vectors_keep_to_their_range() {
    let mut seen = [false; 2];
    for _ in 0..500 {
        let p = a(Vec3::random(s(-2.0), s(3.0)));
        for i in 0..3 {
            assert!(p[i] >= -2.0 && p[i] < 3.0);
            seen[(p[i] > 0.5) as usize] = true;
        }
    }
    assert!(seen[0] && seen[1]);
}

#[test]
fn points_of_the_unit_ball_lie_inside_it() {
    for _ in 0..500 {
        let p = a(Vec3::random_in_unit_sphere());
        assert!(p[0] * p[0] + p[1] * p[1] + p[2] * p[2] < 1.0);
    }
}

#[test]
fn points_of_the_unit_disk_lie_inside_it() {
    for _ in 0..500 {
        let p = a(Vec3::random_in_unit_disk());
        assert!(p[0] * p[0] + p[1] * p[1] < 1.0);
        assert_eq!(p[2], 0.0);
    }
}

#[test]
fn random_directions_have_length_one() {
    for _ in 0..500 {
        let p = Vec3::random_unit_vector();
        assert!((f(p.len()) - 1.0).abs() < 1e-9);
    }
}

#[test]
fn toward_turns_a_vector_to_the_side_of_the_normal() {
    let n = v(0.0, 1.0, 0.0);
    assert_eq!(a(Vec3::toward(v(0.3, 0.5, -0.2), &n)), [0.3, 0.5, -0.2]);
    assert_eq!(a(Vec3::toward(v(0.3, -0.5, -0.2), &n)), [-0.3, 0.5, 0.2]);
    assert_eq!(a(Vec3::toward(v(0.3, 0.0, 0.0), &n))[0], -0.3);
}

#[test]
fn the_hemisphere_lies_on_the_side_of_the_normal() {
    let n = v(0.6, 0.0, -0.8);
    for _ in 0..500 {
        let p = Vec3::random_in_hemisphere(&n);
        assert!(f(Vec3::dot(&p, &n)) >= 0.0);
        assert!(f(p.len_sqr()) < 1.0);
    }
}

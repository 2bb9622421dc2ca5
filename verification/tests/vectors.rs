use pathtracer::ray::Ray;
use pathtracer::number::scalar::Scalar;
use pathtracer::vec3::Vec3;

fn s(x: f64) -> Scalar {
    Scalar::from_bits(x.to_bits())
}

fn f(x: Scalar) -> f64 {
    f64::from_bits(x.to_bits())
}

fn v(x: f64, y: f64, z: f64) -> Vec3 {
    Vec3::with(s(x), s(y), s(z))
}

fn a(u: Vec3) -> [f64; 3] {
    [f(u.x()), f(u.y()), f(u.z())]
}

fn bits(u: [f64; 3]) -> [u64; 3] {
    [u[0].to_bits(), u[1].to_bits(), u[2].to_bits()]
}

fn dot(u: [f64; 3], w: [f64; 3]) -> f64 {
    u[0] * w[0] + u[1] * w[1] + u[2] * w[2]
}

fn samples() -> Vec<[f64; 3]> {
    vec![
        [1.0, 2.0, 3.0],
        [-0.5, 0.25, 8.0],
        [0.1, 0.2, 0.3],
        [3.0, -4.0, 12.0],
        [1e-3, 1e3, -1e-3],
        [0.6, 0.8, 0.0],
        [0.0, 1.0, 0.0],
        [-7.25, 0.3333333333333333, 2.718281828459045],
    ]
}

#[test]
fn new_is_the_zero_vector() {
    assert_eq!(bits(a(Vec3::new())), bits([0.0, 0.0, 0.0]));
}

#[test]
fn with_keeps_the_components() {
    let u = v(1.5, -2.5, 3.5);
    assert_eq!(f(u.x()), 1.5);
    assert_eq!(f(u.y()), -2.5);
    assert_eq!(f(u.z()), 3.5);
}

#[test]
fn componentwise_operations_are_those_of_the_machine() {
    for &p in &samples() {
        for &q in &samples() {
            let (u, w) = (v(p[0], p[1], p[2]), v(q[0], q[1], q[2]));
            assert_eq!(bits(a(u.add(w))), bits([p[0] + q[0], p[1] + q[1], p[2] + q[2]]));
            assert_eq!(bits(a(u.sub(w))), bits([p[0] - q[0], p[1] - q[1], p[2] - q[2]]));
            assert_eq!(bits(a(u.mul(w))), bits([p[0] * q[0], p[1] * q[1], p[2] * q[2]]));
            assert_eq!(f(Vec3::dot(&u, &w)).to_bits(), dot(p, q).to_bits());
            let c = [
                p[1] * q[2] - p[2] * q[1],
                p[2] * q[0] - p[0] * q[2],
                p[0] * q[1] - p[1] * q[0],
            ];
            assert_eq!(bits(a(Vec3::cross(&u, &w))), bits(c));
        }
        let u = v(p[0], p[1], p[2]);
        let t = 0.3;
        assert_eq!(bits(a(u.scale(s(t)))), bits([p[0] * t, p[1] * t, p[2] * t]));
        assert_eq!(bits(a(u.add_scalar(s(t)))), bits([p[0] + t, p[1] + t, p[2] + t]));
        let k = 1.0 / t;
        assert_eq!(bits(a(u.div(s(t)))), bits([p[0] * k, p[1] * k, p[2] * k]));
        assert_eq!(bits(a(u.neg())), bits([-p[0], -p[1], -p[2]]));
        assert_eq!(f(u.len_sqr()).to_bits(), dot(p, p).to_bits());
        assert_eq!(f(u.len()).to_bits(), dot(p, p).sqrt().to_bits());
    }
}

#[test]
fn assignments_change_the_vector_in_place() {
    let mut u = v(1.0, 2.0, 3.0);
    u.add_assign(v(0.5, 0.5, 0.5));
    assert_eq!(a(u), [1.5, 2.5, 3.5]);
    u.sub_assign(v(1.0, 1.0, 1.0));
    assert_eq!(a(u), [0.5, 1.5, 2.5]);
    u.mul_assign(s(4.0));
    assert_eq!(a(u), [2.0, 6.0, 10.0]);
    u.div_assign(s(3.0));
    assert_eq!(bits(a(u)), bits([2.0 / 3.0, 6.0 / 3.0, 10.0 / 3.0]));
}

#[test]
fn dot_of_given_vectors() {
    assert_eq!(f(Vec3::dot(&v(1.0, 2.0, 3.0), &v(4.0, -5.0, 6.0))), 12.0);
}

#[test]
fn cross_of_the_axes() {
    assert_eq!(a(Vec3::cross(&v(1.0, 0.0, 0.0), &v(0.0, 1.0, 0.0))), [0.0, 0.0, 1.0]);
    assert_eq!(a(Vec3::cross(&v(0.0, 1.0, 0.0), &v(1.0, 0.0, 0.0))), [0.0, 0.0, -1.0]);
}

#[test]
fn length_of_a_pythagorean_vector() {
    assert_eq!(f(v(3.0, -4.0, 12.0).len()), 13.0);
    assert_eq!(f(v(3.0, -4.0, 12.0).len_sqr()), 169.0);
}

#[test]
fn normalize_gives_length_one() {
    for &p in &samples() {
        let n = v(p[0], p[1], p[2]).normalize();
        assert!((f(n.len()) - 1.0).abs() < 1e-9, "{p:?}");
    }
}

#[test]
fn normalize_leaves_a_unit_vector_as_it_is() {
    for &p in &[[0.0, 1.0, 0.0], [0.6, 0.8, 0.0], [-1.0, 0.0, 0.0]] {
        let u = v(p[0], p[1], p[2]);
        assert_eq!(f(u.len()), 1.0);
        assert_eq!(bits(a(u.normalize())), bits(p));
        assert_eq!(f(u.normalize().len()), 1.0);
    }
}

#[test]
fn normalize_of_the_zero_vector_is_not_a_number() {
    let n = Vec3::new().normalize();
    assert!(f(n.x()).is_nan() && f(n.y()).is_nan() && f(n.z()).is_nan());
}

#[test]
fn reflect_is_v_minus_twice_the_part_along_the_normal() {
    for &p in &samples() {
        for &q in &samples() {
            let d = 2.0 * dot(p, q);
            let want = [p[0] - q[0] * d, p[1] - q[1] * d, p[2] - q[2] * d];
            let got = Vec3::reflect(&v(p[0], p[1], p[2]), &v(q[0], q[1], q[2]));
            assert_eq!(bits(a(got)), bits(want));
        }
    }
    assert_eq!(a(Vec3::reflect(&v(1.0, -1.0, 0.0), &v(0.0, 1.0, 0.0))), [1.0, 1.0, 0.0]);
}

#[test]
fn reflect_twice_gives_the_vector_back() {
    let normals = [[0.0, 1.0, 0.0], [1.0, 0.0, 0.0], [0.6, 0.8, 0.0], [0.0, 0.0, -1.0]];
    for &p in &samples() {
        for &q in &normals {
            let n = v(q[0], q[1], q[2]);
            let once = Vec3::reflect(&v(p[0], p[1], p[2]), &n);
            let twice = a(Vec3::reflect(&once, &n));
            for i in 0..3 {
                assert!((twice[i] - p[i]).abs() <= 1e-9 * (1.0 + p[i].abs()), "{p:?} {q:?}");
            }
        }
    }
    let n = v(0.0, 1.0, 0.0);
    let once = Vec3::reflect(&v(1.0, 2.0, 3.0), &n);
    assert_eq!(a(Vec3::reflect(&once, &n)), [1.0, 2.0, 3.0]);
}

fn refract(uv: [f64; 3], n: [f64; 3], ratio: f64) -> [f64; 3] {
    let d = dot([-uv[0], -uv[1], -uv[2]], n);
    let cos = if d > 1.0 { 1.0 } else { d };
    let perp = [
        (uv[0] + n[0] * cos) * ratio,
        (uv[1] + n[1] * cos) * ratio,
        (uv[2] + n[2] * cos) * ratio,
    ];
    let k = -(1.0 - dot(perp, perp)).abs().sqrt();
    [perp[0] + n[0] * k, perp[1] + n[1] * k, perp[2] + n[2] * k]
}

#[test]
fn refract_follows_snell() {
    let n = [0.0, 1.0, 0.0];
    for &p in &samples() {
        let l = dot(p, p).sqrt();
        let uv = [p[0] * (1.0 / l), p[1] * (1.0 / l), p[2] * (1.0 / l)];
        for &ratio in &[1.0, 1.5, 1.0 / 1.5, 0.3] {
            let got = Vec3::refract(&v(uv[0], uv[1], uv[2]), &v(n[0], n[1], n[2]), s(ratio));
            assert_eq!(bits(a(got)), bits(refract(uv, n, ratio)));
        }
    }
    // straight through, whatever the ratio
    let got = a(Vec3::refract(&v(0.0, -1.0, 0.0), &v(0.0, 1.0, 0.0), s(1.5)));
    assert_eq!(got, [0.0, -1.0, 0.0]);
    // from air into glass at 45 degrees: sin is divided by 1.5
    let h = 0.5f64.sqrt();
    let got = a(Vec3::refract(&v(h, -h, 0.0), &v(0.0, 1.0, 0.0), s(1.0 / 1.5)));
    assert!((got[0] - h / 1.5).abs() < 1e-12);
    assert!((dot(got, got) - 1.0).abs() < 1e-12);
}

#[test]
fn near_zero_needs_every_component_small() {
    assert!(Vec3::new().near_zero());
    assert!(v(9e-9, -9e-9, 0.0).near_zero());
    assert!(v(-0.0, 0.0, 9.999e-9).near_zero());
    assert!(!v(1e-8, 0.0, 0.0).near_zero());
    assert!(!v(0.0, -1e-8, 0.0).near_zero());
    assert!(!v(0.0, 0.0, 1.0).near_zero());
    assert!(!v(f64::NAN, 0.0, 0.0).near_zero());
}

fn rgb(c: [f64; 3], samples: f64) -> [u8; 3] {
    let scale = 1.0 / samples;
    c.map(|t| (t * scale).sqrt()).map(|t| 256.0 * t.clamp(0.0, 0.999)).map(|t| t.trunc() as u8)
}

#[test]
fn into_rgb_takes_the_root_of_the_mean() {
    assert_eq!(v(0.0, 0.25, 1.0).into_rgb(s(1.0)), [0, 128, 255]);
    assert_eq!(v(1.0, 2.5, 10.0).into_rgb(s(10.0)), [80, 128, 255]);
    assert_eq!(v(-1.0, f64::NAN, 1e9).into_rgb(s(1.0)), [0, 0, 255]);
    for &p in &samples() {
        for &n in &[1.0, 10.0, 100.0, 3.0] {
            assert_eq!(v(p[0], p[1], p[2]).into_rgb(s(n)), rgb(p, n), "{p:?} {n}");
        }
    }
}

#[test]
fn a_ray_keeps_its_origin_and_direction() {
    let r = Ray::with(&v(1.0, 2.0, 3.0), &v(0.0, 0.0, -1.0));
    assert_eq!(a(r.origin()), [1.0, 2.0, 3.0]);
    assert_eq!(a(r.direction()), [0.0, 0.0, -1.0]);
    let z = Ray::new();
    assert_eq!(a(z.origin()), [0.0, 0.0, 0.0]);
    assert_eq!(a(z.direction()), [0.0, 0.0, 0.0]);
}

#[test]
fn at_walks_along_the_ray() {
    let r = Ray::with(&v(1.0, 2.0, 3.0), &v(0.5, 0.0, -1.0));
    assert_eq!(a(r.at(s(0.0))), [1.0, 2.0, 3.0]);
    assert_eq!(a(r.at(s(2.0))), [2.0, 2.0, 1.0]);
    assert_eq!(a(r.at(s(-4.0))), [-1.0, 2.0, 7.0]);
    assert_eq!(bits(a(r.at(s(0.1)))), bits([1.0 + 0.5 * 0.1, 2.0 + 0.0 * 0.1, 3.0 + -1.0 * 0.1]));
}

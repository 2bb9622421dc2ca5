use pathtracer::hittable::HitRecord;
use pathtracer::material::{reflectance, Dielectric, Lambertian, Material, Metal, Surface};
use pathtracer::ray::Ray;
use pathtracer::number::scalar::Scalar;
use pathtracer::vec3::Vec3;

fn s(x: f64) -> Scalar {
    Scalar::from_bits(x.to_bits())
}

fn f(x: Scalar) -> f64 {
    f64::from_bits(x.to_bits())
}

fn v(x: f64, y: f64, z: f64) -> Vec3 {
    Vec3::with(s(x), s(y), s(z))
}

fn a(u: Vec3) -> [f64; 3] {
    [f(u.x()), f(u.y()), f(u.z())]
}

/// A hit at the origin of a floor with normal (0, 1, 0).
fn floor(m: Surface, front_face: bool) -> HitRecord {
    HitRecord { point: v(0.0, 0.0, 0.0), normal: v(0.0, 1.0, 0.0), t: s(1.0), front_face, material: m }
}

fn down() -> Ray {
    Ray::with(&v(0.0, 1.0, 0.0), &v(0.0, -1.0, 0.0))
}

#[test]
fn lambertian_always_scatters_with_its_colour() {
    let m = Lambertian::new(&v(0.7, 0.3, 0.3));
    let rec = floor(Surface::Lambertian(m), true);
    for _ in 0..200 {
        let (ray, colour) = m.scatter(&down(), &rec).expect("scattered");
        assert_eq!(a(colour), [0.7, 0.3, 0.3]);
        assert_eq!(a(ray.origin()), [0.0, 0.0, 0.0]);
        // normal plus a unit vector: never below the surface
        let d = a(ray.direction());
        assert!(d[1] >= -1e-9 && d[1] <= 2.0 + 1e-9);
        let (_, colour) = Surface::Lambertian(m).scatter(&down(), &rec).expect("scattered");
        assert_eq!(a(colour), [0.7, 0.3, 0.3]);
    }
}

#[test]
fn lambertian_adds_the_unit_vector_to_the_normal() {
    let m = Lambertian::new(&v(0.1, 0.2, 0.3));
    let rec = floor(Surface::Lambertian(m), true);
    let (ray, colour) = m.scatter_with(&down(), &rec, &v(0.0, 0.0, 0.5), s(0.0)).unwrap();
    assert_eq!(a(ray.direction()), [0.0, 1.0, 1.0]);
    assert_eq!(a(ray.origin()), [0.0, 0.0, 0.0]);
    assert_eq!(a(colour), [0.1, 0.2, 0.3]);
    let (ray, _) = m.scatter_with(&down(), &rec, &v(0.3, 0.0, 0.4), s(0.0)).unwrap();
    assert_eq!(a(ray.direction()), [0.3 * (1.0 / 0.5), 1.0, 0.4 * (1.0 / 0.5)]);
}

#[test]
fn lambertian_falls_back_to_the_normal_where_the_sum_cancels() {
    let m = Lambertian::new(&v(0.1, 0.2, 0.3));
    let rec = floor(Surface::Lambertian(m), true);
    let (ray, colour) = m.scatter_with(&down(), &rec, &v(0.0, -0.25, 0.0), s(0.0)).unwrap();
    assert_eq!(a(ray.direction()), [0.0, 1.0, 0.0]);
    assert_eq!(a(colour), [0.1, 0.2, 0.3]);
}

#[test]
fn metal_without_fuzz_is_a_mirror() {
    let m = Metal::new(&v(0.8, 0.8, 0.3), s(0.0));
    let rec = floor(Surface::Metal(m), true);
    for _ in 0..50 {
        let (ray, colour) = m.scatter(&down(), &rec).expect("scattered");
        assert_eq!(a(ray.direction()), [0.0, 1.0, 0.0]);
        assert_eq!(a(ray.origin()), [0.0, 0.0, 0.0]);
        assert_eq!(a(colour), [0.8, 0.8, 0.3]);
    }
    // at 45 degrees, and whatever the length of the incoming direction
    let slant = Ray::with(&v(-3.0, 3.0, 0.0), &v(3.0, -3.0, 0.0));
    let (ray, _) = m.scatter_with(&slant, &rec, &v(0.9, 0.0, 0.0), s(0.0)).unwrap();
    let d = a(ray.direction());
    let h = 0.5f64.sqrt();
    assert!((d[0] - h).abs() < 1e-12 && (d[1] - h).abs() < 1e-12 && d[2] == 0.0);
}

#[test]
fn metal_adds_fuzz_times_the_point_of_the_ball() {
    let m = Metal::new(&v(0.8, 0.8, 0.3), s(0.5));
    let rec = floor(Surface::Metal(m), true);
    let (ray, colour) = m.scatter_with(&down(), &rec, &v(0.5, 0.25, -0.5), s(0.0)).unwrap();
    assert_eq!(a(ray.direction()), [0.25, 1.125, -0.25]);
    assert_eq!(a(colour), [0.8, 0.8, 0.3]);
}

#[test]
fn metal_takes_up_what_would_enter_the_surface() {
    let m = Metal::new(&v(0.8, 0.8, 0.3), s(1.0));
    let rec = floor(Surface::Metal(m), true);
    // a ray that grazes the surface, pushed below it by the fuzz
    let graze = Ray::with(&v(-1.0, 0.0, 0.0), &v(1.0, -0.001, 0.0));
    assert!(m.scatter_with(&graze, &rec, &v(0.0, -0.5, 0.0), s(0.0)).is_none());
    assert!(m.scatter_with(&graze, &rec, &v(0.0, 0.5, 0.0), s(0.0)).is_some());
    // a direction along the surface is taken up too
    let mirror = Metal::new(&v(0.8, 0.8, 0.3), s(0.0));
    let along = Ray::with(&v(-1.0, 0.0, 0.0), &v(1.0, 0.0, 0.0));
    assert!(mirror.scatter_with(&along, &rec, &v(0.0, 0.0, 0.0), s(0.0)).is_none());
    assert!(Surface::Metal(mirror).scatter_with(&along, &rec, &v(0.0, 0.0, 0.0), s(0.0)).is_none());
}

#[test]
fn metal_holds_its_fuzz_between_zero_and_one() {
    let c = v(0.5, 0.5, 0.5);
    assert_eq!(f(Metal::new(&c, s(0.3)).fuzz), 0.3);
    assert_eq!(f(Metal::new(&c, s(1.0)).fuzz), 1.0);
    assert_eq!(f(Metal::new(&c, s(7.0)).fuzz), 1.0);
    assert_eq!(f(Metal::new(&c, s(f64::INFINITY)).fuzz), 1.0);
    assert_eq!(f(Metal::new(&c, s(f64::NAN)).fuzz), 1.0);
    assert_eq!(f(Metal::new(&c, s(-2.0)).fuzz), 0.0);
    assert_eq!(f(Metal::new(&c, s(0.0)).fuzz), 0.0);
    assert_eq!(a(Metal::new(&c, s(0.3)).color), [0.5, 0.5, 0.5]);
}

#[test]
fn a_dielectric_of_matched_index_lets_the_ray_straight_through() {
    let m = Dielectric::new(s(1.0));
    let rec = floor(Surface::Dielectric(m), true);
    for _ in 0..50 {
        let (ray, colour) = m.scatter(&down(), &rec).expect("scattered");
        let d = a(ray.direction());
        assert_eq!([d[0].abs(), d[1], d[2].abs()], [0.0, -1.0, 0.0]);
        assert_eq!(a(ray.origin()), [0.0, 0.0, 0.0]);
        assert_eq!(a(colour), [1.0, 1.0, 1.0]);
    }
    for &chance in &[0.0, 0.25, 0.999999] {
        let (ray, _) = m.scatter_with(&down(), &rec, &v(0.0, 0.0, 0.0), s(chance)).unwrap();
        let d = a(ray.direction());
        assert_eq!([d[0].abs(), d[1], d[2].abs()], [0.0, -1.0, 0.0]);
    }
    // at a slant too, the direction of length 1 is kept
    let slant = Ray::with(&v(-3.0, 4.0, 0.0), &v(3.0, -4.0, 0.0));
    let (ray, _) = m.scatter_with(&slant, &rec, &v(0.0, 0.0, 0.0), s(0.5)).unwrap();
    let d = a(ray.direction());
    assert!((d[0] - 0.6).abs() < 1e-12 && (d[1] + 0.8).abs() < 1e-12 && d[2].abs() < 1e-12);
}

#[test]
fn a_dielectric_always_scatters_white() {
    let m = Dielectric::new(s(1.5));
    for &front in &[true, false] {
        let rec = floor(Surface::Dielectric(m), front);
        let slant = Ray::with(&v(-1.0, 1.0, 0.0), &v(1.0, -0.2, 0.3));
        for _ in 0..100 {
            let (_, colour) = m.scatter(&slant, &rec).expect("scattered");
            assert_eq!(a(colour), [1.0, 1.0, 1.0]);
            let (_, colour) = Surface::Dielectric(m).scatter(&slant, &rec).expect("scattered");
            assert_eq!(a(colour), [1.0, 1.0, 1.0]);
        }
    }
}

#[test]
fn a_dielectric_bends_the_ray_toward_the_normal_on_entry() {
    let m = Dielectric::new(s(1.5));
    let rec = floor(Surface::Dielectric(m), true);
    let h = 0.5f64.sqrt();
    let slant = Ray::with(&v(-1.0, 1.0, 0.0), &v(h, -h, 0.0));
    // a chance of 0.9 is above the reflectance: refracted
    let (ray, _) = m.scatter_with(&slant, &rec, &v(0.0, 0.0, 0.0), s(0.9)).unwrap();
    let d = a(ray.direction());
    assert!((d[0] - h / 1.5).abs() < 1e-12);
    assert!(d[1] < 0.0);
    // a chance of 0 is below it: reflected
    let (ray, _) = m.scatter_with(&slant, &rec, &v(0.0, 0.0, 0.0), s(0.0)).unwrap();
    let d = a(ray.direction());
    assert!((d[0] - h).abs() < 1e-12 && (d[1] - h).abs() < 1e-12);
}

#[test]
fn a_dielectric_reflects_all_where_the_ray_cannot_leave() {
    let m = Dielectric::new(s(1.5));
    // from inside, at a flat angle: 1.5 * sin > 1
    let rec = floor(Surface::Dielectric(m), false);
    let flat = Ray::with(&v(-1.0, 0.2, 0.0), &v(1.0, -0.2, 0.0));
    for &chance in &[0.0, 0.5, 0.999999] {
        let (ray, colour) = m.scatter_with(&flat, &rec, &v(0.0, 0.0, 0.0), s(chance)).unwrap();
        let d = a(ray.direction());
        assert!(d[1] > 0.0, "reflected");
        assert!((d[0] * d[0] + d[1] * d[1] + d[2] * d[2] - 1.0).abs() < 1e-12);
        assert_eq!(a(colour), [1.0, 1.0, 1.0]);
    }
}

#[test]
fn reflectance_is_schlicks_estimate() {
    // matched index: r0 = 0
    assert_eq!(f(reflectance(s(1.0), s(1.0))), 0.0);
    assert_eq!(f(reflectance(s(0.0), s(1.0))), 1.0);
    // glass, straight on: r0 = (0.5 / 2.5)^2 = 0.04
    assert!((f(reflectance(s(1.0), s(1.5))) - 0.04).abs() < 1e-15);
    // glass, grazing: all is reflected
    assert_eq!(f(reflectance(s(0.0), s(1.5))), 1.0);
    for &(c, n) in &[(0.3, 1.5), (0.9, 0.6666666666666666), (0.5, 2.4), (0.75, 1.33)] {
        let q: f64 = (1.0 - n) / (1.0 + n);
        let r0 = q * q;
        let x: f64 = 1.0 - c;
        let want = r0 + (1.0 - r0) * (((x * x) * (x * x)) * x);
        assert_eq!(f(reflectance(s(c), s(n))).to_bits(), want.to_bits());
        assert!((want - (r0 + (1.0 - r0) * x.powf(5.0))).abs() < 1e-15);
    }
}

#[test]
fn a_surface_answers_as_its_material_does() {
    let rec = floor(Surface::Lambertian(Lambertian::new(&v(0.1, 0.2, 0.3))), true);
    let ball = v(0.3, 0.0, 0.4);
    let kinds = [
        Surface::Lambertian(Lambertian::new(&v(0.1, 0.2, 0.3))),
        Surface::Metal(Metal::new(&v(0.8, 0.8, 0.3), s(0.5))),
        Surface::Dielectric(Dielectric::new(s(1.5))),
    ];
    for kind in kinds {
        let got = kind.scatter_with(&down(), &rec, &ball, s(0.5));
        let want = match kind {
            Surface::Lambertian(m) => m.scatter_with(&down(), &rec, &ball, s(0.5)),
            Surface::Metal(m) => m.scatter_with(&down(), &rec, &ball, s(0.5)),
            Surface::Dielectric(m) => m.scatter_with(&down(), &rec, &ball, s(0.5)),
        };
        let (g, w) = (got.unwrap(), want.unwrap());
        assert_eq!(a(g.0.direction()), a(w.0.direction()));
        assert_eq!(a(g.1), a(w.1));
    }
}

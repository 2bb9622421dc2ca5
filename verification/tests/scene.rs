use pathtracer::hittable::{HitRecord, Hittable};
use pathtracer::material::{Dielectric, Lambertian, Metal, Surface};
use pathtracer::ray::Ray;
use pathtracer::number::scalar::Scalar;
use pathtracer::sphere::Sphere;
use pathtracer::vec3::Vec3;
use pathtracer::world::World;

fn s(x: f64) -> Scalar {
    Scalar::from_bits(x.to_bits())
}

fn f(x: Scalar) -> f64 {
    f64::from_bits(x.to_bits())
}

fn v(x: f64, y: f64, z: f64) -> Vec3 {
    Vec3::with(s(x), s(y), s(z))
}

fn a(u: Vec3) -> [f64; 3] {
    [f(u.x()), f(u.y()), f(u.z())]
}

fn matt(r: f64, g: f64, b: f64) -> Surface {
    Surface::Lambertian(Lambertian::new(&v(r, g, b)))
}

fn ball(x: f64, y: f64, z: f64, radius: f64, m: Surface) -> Sphere {
    Sphere::new(&v(x, y, z), s(radius), m)
}

fn colour_of(rec: &HitRecord) -> [f64; 3] {
    match rec.material {
        Surface::Lambertian(m) => a(m.color),
        Surface::Metal(m) => a(m.color),
        Surface::Dielectric(_) => [1.0, 1.0, 1.0],
    }
}

#[test]
fn a_ray_aimed_at_the_centre_hits_at_distance_less_radius() {
    let cases: [([f64; 3], [f64; 3], f64); 4] = [
        ([0.0, 0.0, 0.0], [0.0, 0.0, -1.0], 0.5),
        ([1.0, 2.0, 3.0], [-4.0, 0.5, 9.0], 2.0),
        ([10.0, -3.0, 0.25], [0.0, 0.0, 0.0], 1.25),
        ([0.0, 5.0, 0.0], [0.0, -100.5, -1.0], 100.0),
    ];
    for &(o, c, r) in &cases {
        let d = [c[0] - o[0], c[1] - o[1], c[2] - o[2]];
        let dist = (d[0] * d[0] + d[1] * d[1] + d[2] * d[2]).sqrt();
        let unit = [d[0] / dist, d[1] / dist, d[2] / dist];
        let ray = Ray::with(&v(o[0], o[1], o[2]), &v(unit[0], unit[1], unit[2]));
        let sphere = ball(c[0], c[1], c[2], r, matt(0.5, 0.5, 0.5));
        let rec = sphere.hit(&ray, s(0.001), s(f64::INFINITY)).expect("a hit");
        assert!((f(rec.t) - (dist - r)).abs() < 1e-9, "{o:?}");
        assert!(rec.front_face);
        let n = a(rec.normal);
        let p = a(rec.point);
        for i in 0..3 {
            assert!((n[i] - (p[i] - c[i]) / r).abs() < 1e-9);
            assert!((n[i] + unit[i]).abs() < 1e-9);
        }
        assert!((n[0] * n[0] + n[1] * n[1] + n[2] * n[2] - 1.0).abs() < 1e-9);
    }
}

#[test]
fn a_hit_straight_on_has_exact_values() {
    let ray = Ray::with(&v(0.0, 0.0, 0.0), &v(0.0, 0.0, -1.0));
    let sphere = ball(0.0, 0.0, -2.0, 0.5, matt(0.1, 0.2, 0.3));
    let rec = sphere.hit(&ray, s(0.001), s(f64::INFINITY)).expect("a hit");
    assert_eq!(f(rec.t), 1.5);
    assert_eq!(a(rec.point), [0.0, 0.0, -1.5]);
    assert_eq!(a(rec.normal), [0.0, 0.0, 1.0]);
    assert!(rec.front_face);
    assert_eq!(colour_of(&rec), [0.1, 0.2, 0.3]);
}

#[test]
fn a_ray_that_passes_beside_the_sphere_misses() {
    let sphere = ball(0.0, 0.0, -5.0, 1.0, matt(0.5, 0.5, 0.5));
    for &off in &[1.0000001, 1.5, 2.0, 100.0] {
        let ray = Ray::with(&v(off, 0.0, 0.0), &v(0.0, 0.0, -1.0));
        assert!(sphere.hit(&ray, s(0.001), s(f64::INFINITY)).is_none(), "{off}");
        let ray = Ray::with(&v(0.0, -off, 0.0), &v(0.0, 0.0, -3.0));
        assert!(sphere.hit(&ray, s(0.001), s(f64::INFINITY)).is_none(), "{off}");
    }
    let ray = Ray::with(&v(0.5, 0.0, 0.0), &v(0.0, 0.0, -1.0));
    assert!(sphere.hit(&ray, s(0.001), s(f64::INFINITY)).is_some());
}

#[test]
fn a_sphere_behind_the_ray_is_not_hit() {
    let sphere = ball(0.0, 0.0, 5.0, 1.0, matt(0.5, 0.5, 0.5));
    let ray = Ray::with(&v(0.0, 0.0, 0.0), &v(0.0, 0.0, -1.0));
    assert!(sphere.hit(&ray, s(0.001), s(f64::INFINITY)).is_none());
}

#[test]
fn the_far_root_is_taken_where_the_near_one_is_out_of_range() {
    let sphere = ball(0.0, 0.0, -2.0, 0.5, matt(0.5, 0.5, 0.5));
    let ray = Ray::with(&v(0.0, 0.0, 0.0), &v(0.0, 0.0, -1.0));
    // both roots in range: the near one
    assert_eq!(f(sphere.hit(&ray, s(0.0), s(10.0)).unwrap().t), 1.5);
    // the bounds are part of the interval
    assert_eq!(f(sphere.hit(&ray, s(1.5), s(1.5)).unwrap().t), 1.5);
    // the near one below t_min: the far one
    let rec = sphere.hit(&ray, s(2.0), s(10.0)).unwrap();
    assert_eq!(f(rec.t), 2.5);
    assert_eq!(a(rec.point), [0.0, 0.0, -2.5]);
    // the ray leaves the sphere there: the normal is turned against it
    assert!(!rec.front_face);
    assert_eq!(a(rec.normal), [0.0, 0.0, 1.0]);
    // neither in range
    assert!(sphere.hit(&ray, s(1.6), s(2.4)).is_none());
    assert!(sphere.hit(&ray, s(2.6), s(10.0)).is_none());
    assert!(sphere.hit(&ray, s(0.0), s(1.4)).is_none());
}

#[test]
fn a_ray_from_inside_sees_the_back_of_the_surface() {
    let sphere = ball(0.0, 0.0, 0.0, 2.0, matt(0.5, 0.5, 0.5));
    let ray = Ray::with(&v(0.0, 0.0, 0.0), &v(1.0, 0.0, 0.0));
    let rec = sphere.hit(&ray, s(0.001), s(f64::INFINITY)).unwrap();
    assert_eq!(f(rec.t), 2.0);
    assert!(!rec.front_face);
    assert_eq!(a(rec.normal), [-1.0, 0.0, 0.0]);
}

#[test]
fn a_ray_without_direction_hits_nothing() {
    let sphere = ball(0.0, 0.0, -2.0, 0.5, matt(0.5, 0.5, 0.5));
    let ray = Ray::with(&v(0.0, 0.0, 0.0), &v(0.0, 0.0, 0.0));
    assert!(sphere.hit(&ray, s(0.001), s(f64::INFINITY)).is_none());
    let inside = Ray::with(&v(0.0, 0.0, -2.0), &v(0.0, 0.0, 0.0));
    assert!(sphere.hit(&inside, s(0.001), s(f64::INFINITY)).is_none());
}

#[test]
fn a_record_is_turned_against_the_ray() {
    let ray = Ray::with(&v(0.0, 0.0, 0.0), &v(0.0, 0.0, -1.0));
    let m = matt(0.5, 0.5, 0.5);
    let front = HitRecord::new(&ray, &v(0.0, 0.0, -2.0), s(1.5), s(0.5), m);
    assert!(front.front_face);
    assert_eq!(a(front.normal), [0.0, 0.0, 1.0]);
    assert_eq!(a(front.point), [0.0, 0.0, -1.5]);
    assert_eq!(f(front.t), 1.5);
    let back = HitRecord::new(&ray, &v(0.0, 0.0, -2.0), s(2.5), s(0.5), m);
    assert!(!back.front_face);
    assert_eq!(a(back.normal), [0.0, 0.0, 1.0]);
}

#[test]
fn of_two_spheres_on_a_ray_the_nearer_is_hit() {
    let near = ball(0.0, 0.0, -2.0, 0.5, matt(1.0, 0.0, 0.0));
    let far = ball(0.0, 0.0, -2.4, 0.5, matt(0.0, 0.0, 1.0));
    let ray = Ray::with(&v(0.0, 0.0, 0.0), &v(0.0, 0.0, -1.0));
    for order in [[near, far], [far, near]] {
        let mut world = World::new();
        world.add(order[0]);
        world.add(order[1]);
        let rec = world.hit(&ray, s(0.001), s(f64::INFINITY)).expect("a hit");
        assert_eq!(f(rec.t), 1.5);
        assert_eq!(colour_of(&rec), [1.0, 0.0, 0.0]);
        assert_eq!(a(rec.point), [0.0, 0.0, -1.5]);
    }
}

#[test]
fn a_world_reports_what_its_nearest_member_reports() {
    let spheres = [
        ball(0.0, -100.5, -1.0, 100.0, matt(0.8, 0.8, 0.0)),
        ball(0.0, 0.0, -1.0, 0.5, matt(0.7, 0.3, 0.3)),
        ball(-1.0, 0.0, -1.0, 0.5, Surface::Metal(Metal::new(&v(0.8, 0.8, 0.3), s(0.5)))),
        ball(1.0, 0.0, -1.0, 0.5, Surface::Dielectric(Dielectric::new(s(1.5)))),
    ];
    let mut world = World::new();
    for sp in spheres {
        world.add(sp);
    }
    assert_eq!(world.len(), 4);
    let dirs = [
        [0.0, 0.0, -1.0],
        [-1.0, 0.0, -1.0],
        [1.0, 0.1, -1.0],
        [0.3, -0.4, -1.0],
        [0.0, 1.0, 0.0],
        [2.0, -0.2, -1.0],
    ];
    for &d in &dirs {
        let ray = Ray::with(&v(0.0, 0.0, 0.0), &v(d[0], d[1], d[2]));
        let got = world.hit(&ray, s(0.001), s(f64::INFINITY));
        let mut want: Option<HitRecord> = None;
        for sp in &spheres {
            if let Some(rec) = sp.hit(&ray, s(0.001), s(f64::INFINITY)) {
                if want.map_or(true, |w| f(rec.t) < f(w.t)) {
                    want = Some(rec);
                }
            }
        }
        match (got, want) {
            (None, None) => {}
            (Some(g), Some(w)) => {
                assert_eq!(g.t.to_bits(), w.t.to_bits());
                assert_eq!(a(g.point), a(w.point));
                assert_eq!(a(g.normal), a(w.normal));
                assert_eq!(g.front_face, w.front_face);
            }
            _ => panic!("{d:?}"),
        }
    }
}

#[test]
fn an_empty_world_is_never_hit() {
    let world: World<Sphere> = World::new();
    assert_eq!(world.len(), 0);
    let ray = Ray::with(&v(0.0, 0.0, 0.0), &v(0.0, 0.0, -1.0));
    assert!(world.hit(&ray, s(0.001), s(f64::INFINITY)).is_none());
}

#[test]
fn a_world_forgets_what_is_cleared() {
    let mut world = World::new();
    world.add(ball(0.0, 0.0, -2.0, 0.5, matt(1.0, 0.0, 0.0)));
    let ray = Ray::with(&v(0.0, 0.0, 0.0), &v(0.0, 0.0, -1.0));
    assert!(world.hit(&ray, s(0.001), s(f64::INFINITY)).is_some());
    world.clear();
    assert_eq!(world.len(), 0);
    assert!(world.hit(&ray, s(0.001), s(f64::INFINITY)).is_none());
    world.add(ball(0.0, 0.0, -3.0, 0.5, matt(1.0, 0.0, 0.0)));
    assert_eq!(f(world.hit(&ray, s(0.001), s(f64::INFINITY)).unwrap().t), 2.5);
}

#[test]
fn a_world_keeps_to_the_interval() {
    let mut world = World::new();
    world.add(ball(0.0, 0.0, -2.0, 0.5, matt(1.0, 0.0, 0.0)));
    world.add(ball(0.0, 0.0, -6.0, 0.5, matt(0.0, 1.0, 0.0)));
    let ray = Ray::with(&v(0.0, 0.0, 0.0), &v(0.0, 0.0, -1.0));
    assert_eq!(f(world.hit(&ray, s(3.0), s(10.0)).unwrap().t), 5.5);
    assert!(world.hit(&ray, s(3.0), s(5.0)).is_none());
    assert_eq!(f(world.hit(&ray, s(2.0), s(5.0)).unwrap().t), 2.5);
}

#[test]
fn worlds_can_be_nested() {
    let mut inner = World::new();
    inner.add(ball(0.0, 0.0, -2.0, 0.5, matt(1.0, 0.0, 0.0)));
    let mut outer = World::new();
    outer.add(inner);
    let ray = Ray::with(&v(0.0, 0.0, 0.0), &v(0.0, 0.0, -1.0));
    assert_eq!(f(outer.hit(&ray, s(0.001), s(f64::INFINITY)).unwrap().t), 1.5);
}

use raytracer::fixed::{div_floor, isqrt, ONE};
use raytracer::hittable::{HitRecord, Hittable, HittableList, Sphere};
use raytracer::material::{Lambertian, Material};
use raytracer::ray::Ray;
use raytracer::utils::Interval;
use raytracer::vec3::{dot, first_in_ball, reflect, refract, vec3, Vec3};

fn grey() -> Material {
    Material::Lambertian(Lambertian { albedo: Vec3::new(ONE / 2, ONE / 2, ONE / 2) })
}

fn bounce() -> Interval {
    Interval::with(66, i64::MAX)
}

#[test]
fn integer_square_roots() {
    assert_eq!(isqrt(0), 0);
    assert_eq!(isqrt(15), 3);
    assert_eq!(isqrt(16), 4);
    assert_eq!(isqrt(1_000_000_000_000_000_000), 1_000_000_000);
}

#[test]
fn division_rounds_down() {
    assert_eq!(div_floor(-3, 2), -2);
    assert_eq!(div_floor(3, 2), 1);
    assert_eq!(div_floor(-4, 2), -2);
}

#[test]
fn vector_algebra() {
    let a = Vec3::new(ONE, 2 * ONE, 3 * ONE);
    let b = Vec3::new(4 * ONE, 5 * ONE, 6 * ONE);
    assert_eq!(dot(&a, &b), 32 * ONE);
    assert_eq!(a.plus(&b), Vec3::new(5 * ONE, 7 * ONE, 9 * ONE));
    assert_eq!(b.minus(&a), vec3(3 * ONE));
    assert_eq!(a.scaled(ONE / 2), Vec3::new(ONE / 2, ONE, 3 * ONE / 2));
    assert_eq!(Vec3::new(3 * ONE, 4 * ONE, 0).normalize(), Vec3::new(39321, 52428, 0));
    assert_eq!(Vec3::new(0, 0, 0).normalize(), Vec3::new(0, 0, 0));
}

#[test]
fn reflection_and_refraction() {
    let n = Vec3::new(0, ONE, 0);
    assert_eq!(reflect(Vec3::new(0, -ONE, 0), n), Vec3::new(0, ONE, 0));
    assert_eq!(refract(Vec3::new(0, -ONE, 0), n, ONE), Vec3::new(0, -ONE, 0));
}

#[test]
fn interval_tests() {
    let iv = Interval::with(-ONE, ONE);
    assert!(iv.contains(ONE));
    assert!(!iv.surrounds(ONE));
    assert!(iv.surrounds(0));
    assert_eq!(iv.clamp(2 * ONE), ONE);
    assert_eq!(iv.clamp(-2 * ONE), -ONE);
    assert_eq!(iv.clamp(7), 7);
    assert!(!Interval::empty().contains(0));
    assert!(Interval::universe().contains(i64::MAX));
}

#[test]
fn ray_points() {
    let r = Ray::new(Vec3::new(ONE, 0, 0), Vec3::new(0, 0, -2 * ONE));
    assert_eq!(r.at(ONE / 2), Vec3::new(ONE, 0, -ONE));
    assert_eq!(r.at_clamped(ONE), Vec3::new(ONE, 0, -2 * ONE));
    assert_eq!(r.at_clamped(i64::MAX), Vec3::new(ONE, 0, -268435456));
}

#[test]
fn sphere_hit_from_outside() {
    let s = Sphere::new(&Vec3::new(0, 0, -ONE), ONE / 2, grey());
    let r = Ray::new(Vec3::new(0, 0, 0), Vec3::new(0, 0, -ONE));
    let rec = s.hit(&r, &bounce()).unwrap();
    assert_eq!(rec.t, ONE / 2);
    assert_eq!(rec.p, Vec3::new(0, 0, -ONE / 2));
    assert_eq!(rec.normal, Vec3::new(0, 0, ONE));
    assert!(rec.front_face);
}

#[test]
fn sphere_miss_and_interval_rejection() {
    let s = Sphere::new(&Vec3::new(0, 0, -ONE), ONE / 2, grey());
    let up = Ray::new(Vec3::new(0, 0, 0), Vec3::new(0, ONE, 0));
    assert!(s.hit(&up, &bounce()).is_none());
    let toward = Ray::new(Vec3::new(0, 0, 0), Vec3::new(0, 0, -ONE));
    // Only the far side lies inside (ONE, 2 ONE).
    let rec = s.hit(&toward, &Interval::with(ONE, 2 * ONE)).unwrap();
    assert_eq!(rec.t, 3 * ONE / 2);
    assert!(s.hit(&toward, &Interval::with(2 * ONE, 3 * ONE)).is_none());
    let zero = Ray::new(Vec3::new(0, 0, 0), Vec3::new(0, 0, 0));
    assert!(s.hit(&zero, &bounce()).is_none());
}

#[test]
fn normal_faces_ray_from_inside() {
    let s = Sphere::new(&Vec3::new(0, 0, -ONE), ONE / 2, grey());
    let r = Ray::new(Vec3::new(0, 0, -ONE), Vec3::new(ONE, 0, 0));
    let rec = s.hit(&r, &bounce()).unwrap();
    assert!(!rec.front_face);
    assert_eq!(rec.normal, Vec3::new(-ONE, 0, 0));
    assert!(dot(&r.dir, &rec.normal) <= 0);
}

#[test]
fn normal_faces_ray_for_many_directions() {
    let s = Sphere::new(&Vec3::new(0, 0, -2 * ONE), ONE, grey());
    for dx in -3i64..=3 {
        for dy in -3i64..=3 {
            let r = Ray::new(Vec3::new(0, 0, -2 * ONE), Vec3::new(dx * ONE / 3, dy * ONE / 3, -ONE));
            if let Some(rec) = s.hit(&r, &bounce()) {
                assert!(dot(&r.dir, &rec.normal) <= 0);
            }
            let outside = Ray::new(Vec3::new(0, 0, 0), Vec3::new(dx * ONE / 8, dy * ONE / 8, -ONE));
            if let Some(rec) = s.hit(&outside, &bounce()) {
                assert!(dot(&outside.dir, &rec.normal) <= 0);
                assert!(rec.front_face);
            }
        }
    }
}

#[test]
fn closest_hit_not_first_in_order() {
    let mut world = HittableList::new();
    world.add(Sphere::new(&Vec3::new(0, 0, -3 * ONE), ONE / 2, grey()));
    world.add(Sphere::new(&Vec3::new(0, 0, -ONE), ONE / 2, grey()));
    world.add(Sphere::new(&Vec3::new(0, 0, -2 * ONE), ONE / 2, grey()));
    let r = Ray::new(Vec3::new(0, 0, 0), Vec3::new(0, 0, -ONE));
    let rec = world.hit(&r, &bounce()).unwrap();
    assert_eq!(rec.t, ONE / 2);
    assert_eq!(rec.p, Vec3::new(0, 0, -ONE / 2));
    let empty = HittableList::new();
    assert!(empty.hit(&r, &bounce()).is_none());
}

#[test]
fn closest_hit_with_nested_spheres() {
    let mut world = HittableList::new();
    world.add(Sphere::new(&Vec3::new(0, 0, -4 * ONE), 2 * ONE, grey()));
    world.add(Sphere::new(&Vec3::new(0, 0, -4 * ONE), ONE, grey()));
    let r = Ray::new(Vec3::new(0, 0, 0), Vec3::new(0, 0, -ONE));
    assert_eq!(world.hit(&r, &bounce()).unwrap().t, 2 * ONE);
    let narrowed = world.hit(&r, &Interval::with(5 * ONE / 2, i64::MAX)).unwrap();
    assert_eq!(narrowed.t, 3 * ONE);
}

#[test]
fn face_normal_setter() {
    let mut rec = HitRecord::new();
    let r = Ray::new(Vec3::new(0, 0, 0), Vec3::new(0, 0, -ONE));
    rec.set_face_normal(&r, &Vec3::new(0, 0, -ONE));
    assert!(!rec.front_face);
    assert_eq!(rec.normal(), Vec3::new(0, 0, ONE));
    rec.set_face_normal(&r, &Vec3::new(0, 0, ONE));
    assert!(rec.front_face);
    assert_eq!(rec.normal(), Vec3::new(0, 0, ONE));
}

#[test]
fn scene_validity() {
    let mut world = HittableList::new();
    world.add(Sphere::new(&Vec3::new(0, 0, -ONE), ONE / 2, grey()));
    assert!(world.is_valid());
    let bad_radius = Sphere::new(&Vec3::new(0, 0, -ONE), 0, grey());
    assert!(!bad_radius.is_valid());
    let bad_albedo = Material::Lambertian(Lambertian { albedo: Vec3::new(2 * ONE, 0, 0) });
    assert!(!bad_albedo.is_valid());
    let bad_glass = Material::Dielectric(raytracer::material::Dielectric { ir: 0 });
    assert!(!bad_glass.is_valid());
    world.add(Sphere::new(&Vec3::new(0, 0, -ONE), ONE / 2, bad_albedo));
    assert!(!world.is_valid());
    assert!(HitRecord::new().normal() == Vec3::new(0, 0, 0));
}

#[test]
fn nearest_and_first_hit_agree_with_trait() {
    let s = Sphere::new(&Vec3::new(0, 0, -ONE), ONE / 2, grey());
    let r = Ray::new(Vec3::new(0, 0, 0), Vec3::new(0, 0, -ONE));
    assert_eq!(s.first_hit(&r, &bounce()), s.hit(&r, &bounce()));
    let mut world = HittableList::new();
    world.add(s);
    assert_eq!(world.nearest_hit(&r, &bounce()), world.hit(&r, &bounce()));
}

#[test]
fn sphere_reaching_world_edge_still_hit() {
    let s = Sphere::new(&Vec3::new(0, 0, -4096 * ONE), 4096 * ONE, grey());
    let r = Ray::new(Vec3::new(0, 0, 0), Vec3::new(0, 0, -ONE));
    let rec = s.hit(&r, &Interval::with(66, i64::MAX)).unwrap();
    assert_eq!(rec.t, 8192 * ONE);
    assert_eq!(rec.p, Vec3::new(0, 0, -268435456));
}

#[test]
fn reflect_longer_vectors() {
    let n = Vec3::new(0, ONE, 0);
    assert_eq!(reflect(Vec3::new(ONE, -ONE, 0), n), Vec3::new(ONE, ONE, 0));
    assert_eq!(reflect(Vec3::new(2 * ONE, -3 * ONE, ONE), n), Vec3::new(2 * ONE, 3 * ONE, ONE));
}

#[test]
fn short_vectors_normalize_to_unit_length() {
    assert_eq!(Vec3::new(1, 1, 1).normalize(), Vec3::new(37837, 37837, 37837));
    let u = Vec3::new(1, 1, -65535).normalize();
    let len2 = (u.x as i128).pow(2) + (u.y as i128).pow(2) + (u.z as i128).pow(2);
    let one2 = (ONE as i128).pow(2);
    assert!(one2 - 7 * (ONE as i128) < len2 && len2 < one2 + 10 * (ONE as i128));
    // A short upward direction still sees the sky straight above.
    let r = Ray::new(Vec3::new(0, 0, 0), Vec3::new(0, 1, 0));
    assert_eq!(raytracer::camera::background(&r), Vec3::new(raytracer::camera::SKY_RG, raytracer::camera::SKY_RG, ONE));
}

#[test]
fn first_draw_in_ball_is_chosen() {
    let draws = vec![
        Vec3::new(ONE - 1, ONE - 1, 0),
        Vec3::new(0, 0, 0),
        Vec3::new(ONE / 2, 0, 0),
        Vec3::new(0, ONE / 4, 0),
    ];
    assert_eq!(first_in_ball(&draws), Some(Vec3::new(ONE / 2, 0, 0)));
    assert_eq!(first_in_ball(&vec![Vec3::new(-ONE, 0, 0)]), None);
    assert_eq!(first_in_ball(&vec![]), None);
}

#[test]
fn wide_fuzz_is_valid() {
    let m = Material::Metal(raytracer::material::Metal { albedo: Vec3::new(ONE, ONE, ONE), fuzz: 10 * ONE });
    assert!(m.is_valid());
}

use raytracer::camera::{background, Camera, CameraError, SampleDraw, SKY_RG};
use raytracer::color::{linear_to_gamma, write_color, Rgb};
use raytracer::fixed::ONE;
use raytracer::hittable::{HitRecord, Hittable, HittableList, Sphere};
use raytracer::material::{Dielectric, Lambertian, Material, Metal};
use raytracer::ray::Ray;
use raytracer::scheduler::assemble_rows;
use raytracer::utils::Interval;
use raytracer::vec3::{random_in_unit_sphere, random_unit_vector, random_vec3, random_vec3_range, Vec3};

fn grey() -> Material {
    Material::Lambertian(Lambertian { albedo: Vec3::new(ONE / 2, ONE / 2, ONE / 2) })
}

fn hit_up(front_face: bool) -> HitRecord {
    let mut rec = HitRecord::new();
    rec.normal = Vec3::new(0, ONE, 0);
    rec.front_face = front_face;
    rec
}

#[test]
fn gamma_and_clamp() {
    assert_eq!(write_color(Vec3::new(ONE, ONE, ONE), 1), Rgb { r: 255, g: 255, b: 255 });
    assert_eq!(write_color(Vec3::new(0, 0, 0), 1), Rgb { r: 0, g: 0, b: 0 });
    assert_eq!(write_color(Vec3::new(ONE / 4, 4 * ONE, 0), 4), Rgb { r: 64, g: 255, b: 0 });
    assert_eq!(linear_to_gamma(ONE / 4), ONE / 2);
}

#[test]
fn miss_gradient() {
    assert_eq!(background(&Ray::new(Vec3::new(0, 0, 0), Vec3::new(0, ONE, 0))), Vec3::new(SKY_RG, SKY_RG, ONE));
    assert_eq!(background(&Ray::new(Vec3::new(0, 0, 0), Vec3::new(0, -ONE, 0))), Vec3::new(ONE, ONE, ONE));
    let cam = Camera::new(ONE, 10, 1, 5).unwrap();
    let world = HittableList::new();
    let up = Ray::new(Vec3::new(0, 0, 0), Vec3::new(0, 3, 0));
    assert_eq!(cam.ray_color(&up, 0, &world), Vec3::new(SKY_RG, SKY_RG, ONE));
    let down = Ray::new(Vec3::new(0, 0, 0), Vec3::new(0, -7 * ONE, 0));
    assert_eq!(cam.ray_color(&down, 0, &world), Vec3::new(ONE, ONE, ONE));
}

#[test]
fn zero_depth_is_black() {
    let cam = Camera::new(ONE, 10, 1, 0).unwrap();
    let world = HittableList::new();
    let r = Ray::new(Vec3::new(0, 0, 0), Vec3::new(0, ONE, 0));
    assert_eq!(cam.ray_color(&r, 0, &world), Vec3::new(0, 0, 0));
    assert_eq!(cam.ray_color_with(&r, 0, &world, &vec![]), Vec3::new(0, 0, 0));
}

#[test]
fn depth_budget_between_mirrors() {
    // Two facing mirrors: the ray bounces until the budget is spent.
    let mirror = Material::Metal(Metal { albedo: Vec3::new(ONE / 2, ONE / 2, ONE / 2), fuzz: 0 });
    let mut world = HittableList::new();
    world.add(Sphere::new(&Vec3::new(0, 0, -1000 * ONE), 998 * ONE, mirror));
    world.add(Sphere::new(&Vec3::new(0, 0, 1000 * ONE), 998 * ONE, mirror));
    let r = Ray::new(Vec3::new(0, 0, 0), Vec3::new(0, 0, -ONE));
    for depth in 0..6 {
        let cam = Camera::new(ONE, 10, 1, depth).unwrap();
        let units = vec![Vec3::new(0, ONE, 0); 8];
        assert_eq!(cam.ray_color_with(&r, 0, &world, &units), Vec3::new(0, 0, 0));
        assert_eq!(cam.ray_color(&r, 0, &world), Vec3::new(0, 0, 0));
    }
}

#[test]
fn one_bounce_attenuates_sky() {
    // A grey diffuse floor seen from above scatters straight up (unit vector
    // straight up), so the result is the attenuated sky.
    let floor = Material::Lambertian(Lambertian { albedo: Vec3::new(ONE / 2, ONE / 2, ONE / 2) });
    let mut world = HittableList::new();
    world.add(Sphere::new(&Vec3::new(0, -1001 * ONE, 0), 1000 * ONE, floor));
    let cam = Camera::new(ONE, 10, 1, 2).unwrap();
    let r = Ray::new(Vec3::new(0, 0, 0), Vec3::new(0, -ONE, 0));
    let c = cam.ray_color_with(&r, 0, &world, &vec![Vec3::new(0, ONE, 0), Vec3::new(0, ONE, 0)]);
    assert_eq!(c, Vec3::new(SKY_RG / 2, SKY_RG / 2, ONE / 2));
}

#[test]
fn lambertian_degenerate_direction_uses_normal() {
    let rec = hit_up(true);
    let r = Ray::new(Vec3::new(0, ONE, 0), Vec3::new(0, -ONE, 0));
    let (att, scattered) = grey().scatter(&r, &rec, Vec3::new(0, -ONE, 0)).unwrap();
    assert_eq!(att, Vec3::new(ONE / 2, ONE / 2, ONE / 2));
    assert_eq!(scattered.dir, Vec3::new(0, ONE, 0));
    let (_, tilted) = grey().scatter(&r, &rec, Vec3::new(ONE, 0, 0)).unwrap();
    assert_eq!(tilted.dir, Vec3::new(46340, 46340, 0));
}

#[test]
fn metal_reflects() {
    let rec = hit_up(true);
    let m = Metal { albedo: Vec3::new(ONE, ONE / 2, 0), fuzz: 0 };
    let r = Ray::new(Vec3::new(0, ONE, 0), Vec3::new(0, -ONE, 0));
    let (att, scattered) = m.scatter(&r, &rec, Vec3::new(ONE, 0, 0)).unwrap();
    assert_eq!(att, Vec3::new(ONE, ONE / 2, 0));
    assert_eq!(scattered.dir, Vec3::new(0, ONE, 0));
    assert_eq!(scattered.orig, rec.p);
    let fuzzy = Metal { albedo: Vec3::new(ONE, ONE, ONE), fuzz: ONE };
    let (_, f) = fuzzy.scatter(&r, &rec, Vec3::new(ONE, 0, 0)).unwrap();
    assert_eq!(f.dir, Vec3::new(46340, 46340, 0));
}

#[test]
fn dielectric_refracts_and_reflects() {
    let glass = Dielectric { ir: 3 * ONE / 2 };
    let rec = hit_up(true);
    let straight = Ray::new(Vec3::new(0, ONE, 0), Vec3::new(0, -ONE, 0));
    let (att, s) = glass.scatter(&straight, &rec).unwrap();
    assert_eq!(att, Vec3::new(ONE, ONE, ONE));
    assert_eq!(s.dir, Vec3::new(0, -ONE, 0));
    // Leaving glass at a grazing angle: total internal reflection.
    let inside = hit_up(false);
    let grazing = Ray::new(Vec3::new(0, ONE, 0), Vec3::new(ONE, -ONE / 8, 0));
    let (_, reflected) = glass.scatter(&grazing, &inside).unwrap();
    assert!(reflected.dir.y > 0);
    assert!(reflected.dir.x > 0);
}

#[test]
fn camera_configuration() {
    let cam = Camera::new(116508, 1650, 100, 50).unwrap();
    assert_eq!(cam.height, 928);
    assert_eq!(Camera::new(0, 10, 1, 1).unwrap_err(), CameraError::NonPositiveAspectRatio);
    assert_eq!(Camera::new(ONE, 0, 1, 1).unwrap_err(), CameraError::NonPositiveWidth);
    assert_eq!(Camera::new(ONE, 10, 0, 1).unwrap_err(), CameraError::NonPositiveSamples);
    assert_eq!(Camera::new(ONE, 10, 1, -1).unwrap_err(), CameraError::NegativeDepth);
    assert_eq!(Camera::new(20 * ONE, 10, 1, 1).unwrap_err(), CameraError::ZeroHeight);
    assert_eq!(Camera::new(ONE, 100_000, 1, 1).unwrap_err(), CameraError::TooLarge);
    assert_eq!(Camera::new(1, 100, 1, 1).unwrap_err(), CameraError::TooLarge);
}

#[test]
fn camera_rays_through_pixels() {
    let cam = Camera::new(ONE, 100, 1, 1).unwrap();
    let centre = cam.get_ray_with(50, 50, 0, 0);
    assert_eq!(centre.orig, Vec3::new(0, 0, 0));
    assert!(centre.dir.z < 0);
    let corner = cam.get_ray_with(0, 0, 0, 0);
    assert!(corner.dir.x < 0 && corner.dir.y > 0);
    let jittered = cam.get_ray_with(0, 0, ONE - 1, ONE - 1);
    assert!(jittered.dir.x <= corner.dir.x);
    let random = cam.get_ray(0, 0);
    assert!(random.dir.x < 0 && random.dir.y > 0);
}

fn zero_draws(cam: &Camera) -> Vec<Vec<SampleDraw>> {
    let mut draws = Vec::new();
    for _ in 0..cam.width {
        let mut px = Vec::new();
        for _ in 0..cam.samples_per_pixel {
            px.push(SampleDraw { jitter_u: 0, jitter_v: 0, units: vec![Vec3::new(0, ONE, 0); cam.max_depth as usize] });
        }
        draws.push(px);
    }
    draws
}

#[test]
fn single_sphere_scenario() {
    let mut world = HittableList::new();
    world.add(Sphere::new(&Vec3::new(0, 0, -ONE), ONE / 2, grey()));
    let cam = Camera::new(ONE, 100, 1, 1).unwrap();
    assert_eq!(cam.height, 100);
    let draws = zero_draws(&cam);
    let mut inside = 0;
    for j in 0..cam.height {
        let row = cam.render_row_with(&world, j, &draws);
        assert_eq!(row.len(), 100);
        for i in 0..cam.width {
            let r = cam.get_ray_with(i, j, 0, 0);
            let px = row[i as usize];
            if world.hit(&r, &Interval::with(66, i64::MAX)).is_some() {
                inside += 1;
                assert_eq!(px, Rgb { r: 0, g: 0, b: 0 });
            } else {
                assert_eq!(px, write_color(background(&r), 1));
                assert_ne!(px, Rgb { r: 0, g: 0, b: 0 });
            }
        }
    }
    assert!(inside > 0);
    let centre = cam.render_row_with(&world, 50, &draws)[50];
    assert_eq!(centre, Rgb { r: 0, g: 0, b: 0 });
}

#[test]
fn replay_is_deterministic() {
    let mut world = HittableList::new();
    world.add(Sphere::new(&Vec3::new(0, 0, -ONE), ONE / 2, grey()));
    world.add(Sphere::new(&Vec3::new(0, -100 * ONE - ONE / 2, -ONE), 100 * ONE, grey()));
    let cam = Camera::new(2 * ONE, 16, 1, 4).unwrap();
    let mut draws = Vec::new();
    for i in 0..cam.width {
        draws.push(vec![SampleDraw {
            jitter_u: (i as i64 * 997) % ONE,
            jitter_v: (i as i64 * 4099) % ONE,
            units: vec![random_unit_vector(); 4],
        }]);
    }
    for j in 0..cam.height {
        let a = cam.render_row_with(&world, j, &draws);
        let b = cam.render_row_with(&world, j, &draws);
        assert_eq!(a, b);
    }
}

#[test]
fn random_render_has_image_shape() {
    let mut world = HittableList::new();
    world.add(Sphere::new(&Vec3::new(0, 0, -ONE), ONE / 2, grey()));
    let cam = Camera::new(2 * ONE, 8, 2, 3).unwrap();
    let image = cam.render(&world);
    assert_eq!(image.len(), 4);
    for row in &image {
        assert_eq!(row.len(), 8);
    }
    let px = cam.pixel_color(&world, 0, 0);
    assert_ne!(px, Rgb { r: 0, g: 0, b: 0 });
    assert_eq!(cam.render_row(&world, 1).len(), 8);
}

#[test]
fn rows_reassembled_by_index() {
    let row = |v: u8| vec![Rgb { r: v, g: v, b: v }];
    let parts = vec![(2usize, row(2)), (0usize, row(0)), (1usize, row(1))];
    let rows = assemble_rows(parts, 3).unwrap();
    assert_eq!(rows, vec![row(0), row(1), row(2)]);
    assert!(assemble_rows(vec![(0usize, row(0)), (0usize, row(0))], 2).is_none());
    assert!(assemble_rows(vec![(0usize, row(0))], 2).is_none());
    assert!(assemble_rows(vec![(0usize, row(0)), (5usize, row(5))], 2).is_none());
    assert_eq!(assemble_rows(vec![], 0), Some(vec![]));
}

#[test]
fn random_sources_stay_in_range() {
    let mut seen = std::collections::HashSet::new();
    for _ in 0..200 {
        let v = random_vec3_range(-ONE, ONE);
        assert!(-ONE <= v.x && v.x < ONE && -ONE <= v.y && v.y < ONE && -ONE <= v.z && v.z < ONE);
        seen.insert(v.x);
        let w = random_vec3();
        assert!(0 <= w.x && w.x < ONE && 0 <= w.y && w.y < ONE && 0 <= w.z && w.z < ONE);
        let p = random_in_unit_sphere();
        assert!((p.x as i128).pow(2) + (p.y as i128).pow(2) + (p.z as i128).pow(2) < (ONE as i128).pow(2));
        let u = random_unit_vector();
        let len2 = (u.x as i128).pow(2) + (u.y as i128).pow(2) + (u.z as i128).pow(2);
        assert!(len2 <= 3 * (ONE as i128).pow(2));
        let h = raytracer::vec3::random_on_hemisphere(Vec3::new(0, ONE, 0));
        assert!(h.y >= 0);
    }
    assert!(seen.len() > 100);
}

#[test]
fn negative_and_large_channels_saturate() {
    assert_eq!(write_color(Vec3::new(-ONE, -1, 0), 1), Rgb { r: 0, g: 0, b: 0 });
    assert_eq!(write_color(Vec3::new(i64::MAX, 3 * ONE, ONE / 4), 3), Rgb { r: 255, g: 255, b: 73 });
}

#[test]
fn whole_image_replay() {
    let mut world = HittableList::new();
    world.add(Sphere::new(&Vec3::new(0, 0, -ONE), ONE / 2, grey()));
    let cam = Camera::new(2 * ONE, 8, 1, 1).unwrap();
    let mut draws = Vec::new();
    for _ in 0..cam.height {
        draws.push(zero_draws(&cam));
    }
    let a = cam.render_with(&world, &draws);
    let b = cam.render_with(&world, &draws);
    assert_eq!(a, b);
    assert_eq!(a.len(), 4);
    for (j, row) in a.iter().enumerate() {
        assert_eq!(row, &cam.render_row_with(&world, j as i32, &draws[j]));
    }
}

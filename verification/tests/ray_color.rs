use raytracer::hittable::absorber::Absorber;
use raytracer::hittable::list::HittableList;
use raytracer::hittable::sphere::Sphere;
use raytracer::hittable::{HitRecord, Hittable, Material};
use raytracer::ray::{Ray, DIR_MAX, SKY_GREEN, SKY_RED};
use raytracer::utilities::fixed::{EPS, INFINITY, ONE};
use raytracer::utilities::p3d::{P3d, WORLD_MAX};
use raytracer::utilities::rgb::RGB;
use raytracer::utilities::vec3::Vec3;

/// Sends every ray back along the normal with half its light, and counts
/// the rays it has scattered in the random stream.
struct Bouncer;

impl Material for Bouncer {
    type Rng = u64;

    fn scatter_spec(&self, _ray: Ray, _rec: HitRecord<'_, Self>, _rng: u64) -> Option<(Ray, RGB)> {
        unreachable!()
    }

    fn rng_spec(&self, _ray: Ray, _rec: HitRecord<'_, Self>, _rng: u64) -> u64 {
        unreachable!()
    }

    fn scatter(&self, _ray: &Ray, rec: &HitRecord<'_, Self>, rng: &mut u64) -> Option<(Ray, RGB)> {
        *rng += 1;
        Some((Ray::new(rec.point, rec.normal), RGB::new(ONE / 2, ONE / 2, ONE / 2)))
    }
}

fn black() -> RGB {
    RGB::new(0, 0, 0)
}

fn sky_blue() -> RGB {
    RGB::new(SKY_RED, SKY_GREEN, ONE)
}

fn forward_ray() -> Ray {
    Ray::new(P3d::new(0, 0, 0), Vec3::new(0, 0, -ONE))
}

fn upward_ray() -> Ray {
    Ray::new(P3d::new(0, 0, 0), Vec3::new(0, ONE, 0))
}

#[test]
fn new_keeps_origin_and_direction() {
    let ray = Ray::new(P3d::new(1, 2, 3), Vec3::new(4, 5, 6));
    assert_eq!(ray.origin(), P3d::new(1, 2, 3));
    assert_eq!(ray.direction(), Vec3::new(4, 5, 6));
    assert_eq!(ray.origin, P3d::new(1, 2, 3));
    assert_eq!(ray.direction, Vec3::new(4, 5, 6));
}

#[test]
fn from_to_points_at_the_destination() {
    let from = P3d::new(ONE, -2 * ONE, 77);
    let to = P3d::new(-5 * ONE, 3, 9 * ONE);
    let ray = Ray::from_to(from, to);
    assert_eq!(ray.origin(), from);
    assert_eq!(ray.direction(), Vec3::new(-6 * ONE, 3 + 2 * ONE, 9 * ONE - 77));
    assert_eq!(ray.at(ONE), to);
    assert_eq!(ray.at(0), from);
}

#[test]
fn from_to_across_the_whole_range() {
    let from = P3d::new(i64::MIN, -1, i64::MAX);
    let to = P3d::new(-1, i64::MAX - 1, 0);
    let ray = Ray::from_to(from, to);
    assert_eq!(ray.direction(), Vec3::new(i64::MAX, i64::MAX, -i64::MAX));
    assert_eq!(ray.at(ONE), to);
}

#[test]
fn at_rounds_each_step_down() {
    let ray = Ray::new(P3d::new(10, 20, 30), Vec3::new(3, -3, ONE));
    assert_eq!(ray.at(ONE / 2), P3d::new(11, 18, 30 + ONE / 2));
    assert_eq!(ray.at(-ONE / 2), P3d::new(8, 21, 30 - ONE / 2));
    assert_eq!(ray.at(0), P3d::new(10, 20, 30));
    assert_eq!(ray.at(2 * ONE), P3d::new(16, 14, 30 + 2 * ONE));
    assert_eq!(ray.at(1), P3d::new(10, 19, 31));
}

#[test]
fn well_formed_rays() {
    assert!(forward_ray().is_wf());
    assert!(!Ray::new(P3d::new(0, 0, 0), Vec3::new(0, 0, 0)).is_wf());
    assert!(Ray::new(P3d::new(WORLD_MAX, 0, 0), Vec3::new(DIR_MAX, 0, -DIR_MAX)).is_wf());
    assert!(!Ray::new(P3d::new(WORLD_MAX + 1, 0, 0), Vec3::new(1, 0, 0)).is_wf());
    assert!(!Ray::new(P3d::new(0, 0, 0), Vec3::new(0, DIR_MAX + 1, 0)).is_wf());
    assert_eq!(DIR_MAX, 2 * WORLD_MAX);
}

#[test]
fn background_runs_from_white_to_blue() {
    assert_eq!(upward_ray().background(), sky_blue());
    assert_eq!(Ray::new(P3d::new(0, 0, 0), Vec3::new(0, -5, 0)).background(), RGB::new(ONE, ONE, ONE));
    assert_eq!(forward_ray().background(), RGB::new(49152, 55705, ONE));
    assert_eq!(
        Ray::new(P3d::new(9, 9, 9), Vec3::new(3 * ONE, 4 * ONE, 0)).background(),
        RGB::new(36045, 47841, ONE)
    );
    assert_eq!(
        Ray::new(P3d::new(0, 0, 0), Vec3::new(ONE, -ONE, ONE)).background(),
        RGB::new(58611, 61381, ONE)
    );
}

#[test]
fn no_depth_left_is_black() {
    let world = Sphere::new(P3d::new(0, 0, -ONE), ONE / 2, Bouncer);
    let mut rng = 17u64;
    assert_eq!(forward_ray().color(&world, 0, &mut rng), black());
    assert_eq!(upward_ray().color(&world, 0, &mut rng), black());
    assert_eq!(forward_ray().color(&world, -3, &mut rng), black());
    assert_eq!(forward_ray().color(&world, i32::MIN, &mut rng), black());
    assert_eq!(rng, 17);
}

#[test]
fn no_depth_left_is_black_for_any_ray_and_scene() {
    // neither the ray nor the sphere is within the range of the arithmetic
    let world = Sphere::new(P3d::new(i64::MAX, i64::MIN, 0), i64::MAX, Absorber);
    let ray = Ray::new(P3d::new(i64::MIN, i64::MAX, 1), Vec3::new(0, 0, 0));
    assert_eq!(ray.color(&world, 0, &mut ()), black());
}

#[test]
fn empty_world_shows_the_sky() {
    let world: HittableList<Sphere<Absorber>> = HittableList::new();
    assert_eq!(upward_ray().color(&world, 10, &mut ()), sky_blue());
    assert_eq!(forward_ray().color(&world, 1, &mut ()), RGB::new(49152, 55705, ONE));
}

#[test]
fn missed_sphere_shows_the_sky() {
    let world = Sphere::new(P3d::new(0, 0, -ONE), ONE / 2, Absorber);
    assert_eq!(upward_ray().color(&world, 10, &mut ()), sky_blue());
}

#[test]
fn absorbing_sphere_is_black() {
    let world = Sphere::new(P3d::new(0, 0, -ONE), ONE / 2, Absorber);
    for depth in [1, 2, 50].iter() {
        assert_eq!(forward_ray().color(&world, *depth, &mut ()), black());
    }
}

#[test]
fn absorbing_scene_is_black_where_hit_and_sky_elsewhere() {
    let mut world = HittableList::new();
    world.push(Sphere::new(P3d::new(0, 0, -ONE), ONE / 2, Absorber));
    world.push(Sphere::new(P3d::new(0, -100 * ONE - ONE / 2, -ONE), 100 * ONE, Absorber));
    for i in -4i64..=4 {
        for j in -4i64..=4 {
            let ray = Ray::new(P3d::new(0, 0, 0), Vec3::new(i * ONE / 4, j * ONE / 4, -ONE));
            let seen = ray.color(&world, 5, &mut ());
            let struck = world.objects.iter().any(|s| s.hit(&ray, EPS, INFINITY).is_some());
            if struck {
                assert_eq!(seen, black());
            } else {
                assert_eq!(seen, ray.background());
            }
        }
    }
}

#[test]
fn scattered_light_is_dimmed_by_the_surface() {
    let world = Sphere::new(P3d::new(0, 0, -ONE), ONE / 2, Bouncer);
    let mut rng = 0u64;
    // the ray is sent back along (0, 0, 1), misses, and sees the sky at half height
    assert_eq!(forward_ray().color(&world, 2, &mut rng), RGB::new(24576, 27852, 32768));
    assert_eq!(rng, 1);
    assert_eq!(forward_ray().color(&world, 50, &mut rng), RGB::new(24576, 27852, 32768));
    assert_eq!(rng, 2);
}

#[test]
fn last_bounce_ends_in_black() {
    let world = Sphere::new(P3d::new(0, 0, -ONE), ONE / 2, Bouncer);
    let mut rng = 0u64;
    assert_eq!(forward_ray().color(&world, 1, &mut rng), black());
    assert_eq!(rng, 1);
}

#[test]
fn light_is_dimmed_once_for_each_bounce() {
    // two spheres that face each other: the ray bounces between their poles
    let mut world = HittableList::new();
    world.push(Sphere::new(P3d::new(0, 0, -2 * ONE), ONE, Bouncer));
    world.push(Sphere::new(P3d::new(0, 0, 2 * ONE), ONE, Bouncer));
    let ray = forward_ray();
    let mut rng = 0u64;
    assert_eq!(ray.color(&world, 3, &mut rng), black());
    assert_eq!(rng, 3);
    let mut rng = 0u64;
    assert_eq!(ray.color(&world, 12, &mut rng), black());
    assert_eq!(rng, 12);
}

#[test]
fn same_arguments_give_the_same_colour() {
    let mut world = HittableList::new();
    world.push(Sphere::new(P3d::new(0, 0, -ONE), ONE / 2, Bouncer));
    world.push(Sphere::new(P3d::new(0, -100 * ONE - ONE / 2, -ONE), 100 * ONE, Bouncer));
    for i in -3i64..=3 {
        let ray = Ray::new(P3d::new(0, 0, 0), Vec3::new(i * ONE / 5, -ONE / 9, -ONE));
        let mut first = 5u64;
        let mut second = 5u64;
        let a = ray.color(&world, 8, &mut first);
        let b = ray.color(&world, 8, &mut second);
        assert_eq!(a, b);
        assert_eq!(first, second);
        assert!(a.is_wf());
    }
}

#[test]
fn default_ray_has_no_direction() {
    let ray = Ray::default();
    assert_eq!(ray.origin(), P3d::new(0, 0, 0));
    assert_eq!(ray.direction(), Vec3::new(0, 0, 0));
    assert!(!ray.is_wf());
    assert_eq!(RGB::default(), black());
    assert_eq!(P3d::default(), P3d::new(0, 0, 0));
    assert_eq!(Vec3::default(), Vec3::new(0, 0, 0));
}

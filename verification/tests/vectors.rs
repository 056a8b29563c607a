use raytracer::utilities::fixed::ONE;
use raytracer::utilities::p3d::{P3d, WORLD_MAX};
use raytracer::utilities::rgb::{unit_product, RGB};
use raytracer::utilities::vec3::{Vec3, DOT_MAX};

#[test]
fn vec3_new_keeps_components() {
    let v = Vec3::new(1, -2, 3);
    assert_eq!((v.x, v.y, v.z), (1, -2, 3));
}

#[test]
fn dot_is_exact() {
    let u = Vec3::new(ONE, 2 * ONE, -3 * ONE);
    let v = Vec3::new(4, -5, 6);
    assert_eq!(u.dot(&v), (ONE as i128) * (4 - 10 - 18));
    assert_eq!(v.dot(&u), u.dot(&v));
}

#[test]
fn dot_at_the_largest_components() {
    let u = Vec3::new(DOT_MAX, DOT_MAX, DOT_MAX);
    let v = Vec3::new(-DOT_MAX, -DOT_MAX, -DOT_MAX);
    assert_eq!(u.dot(&u), 3 * (1i128 << 124));
    assert_eq!(u.dot(&v), -3 * (1i128 << 124));
}

#[test]
fn length2_is_the_dot_with_itself() {
    let v = Vec3::new(3 * ONE, -4 * ONE, 0);
    assert_eq!(v.length2(), 25 * (ONE as i128) * (ONE as i128));
    assert_eq!(Vec3::new(0, 0, 0).length2(), 0);
}

#[test]
fn neg_negates_each_component() {
    assert_eq!(Vec3::new(1, -2, 0).neg(), Vec3::new(-1, 2, 0));
    assert_eq!(Vec3::new(i64::MAX, -i64::MAX, 5).neg(), Vec3::new(-i64::MAX, i64::MAX, -5));
}

#[test]
fn unit_rounds_each_component_down() {
    assert_eq!(Vec3::new(3 * ONE, 4 * ONE, 0).unit(), Vec3::new(39321, 52428, 0));
    assert_eq!(Vec3::new(-3 * ONE, 4 * ONE, 0).unit(), Vec3::new(-39322, 52428, 0));
    assert_eq!(Vec3::new(3, -4, 12).unit(), Vec3::new(15123, -20165, 60494));
    assert_eq!(Vec3::new(0, 0, -7).unit(), Vec3::new(0, 0, -ONE));
}

#[test]
fn unit_of_a_vector_shorter_than_two_steps() {
    // the rounded length of (1, 1, 1) is one grid step
    assert_eq!(Vec3::new(1, 1, 1).unit(), Vec3::new(ONE, ONE, ONE));
}

#[test]
fn unit_stays_within_one() {
    let samples = [
        Vec3::new(DOT_MAX, -DOT_MAX, DOT_MAX),
        Vec3::new(1, 0, 0),
        Vec3::new(-1, -1, 0),
        Vec3::new(123456789, -987654321, 55555),
    ];
    for v in samples.iter() {
        assert!(v.unit().is_within(ONE));
    }
}

#[test]
fn is_within_tests_every_component() {
    let v = Vec3::new(5, -7, 3);
    assert!(v.is_within(7));
    assert!(!v.is_within(6));
    assert!(Vec3::new(0, 0, 0).is_within(0));
}

#[test]
fn point_minus_point_is_a_displacement() {
    let p = P3d::new(5, 6, 7);
    let q = P3d::new(1, 8, -3);
    assert_eq!(p.minus(&q), Vec3::new(4, -2, 10));
    assert_eq!(q.minus(&p), Vec3::new(-4, 2, -10));
}

#[test]
fn world_cube_includes_its_faces() {
    assert_eq!(WORLD_MAX, 1 << 29);
    assert!(P3d::new(WORLD_MAX, -WORLD_MAX, 0).is_in_world());
    assert!(!P3d::new(WORLD_MAX + 1, 0, 0).is_in_world());
    assert!(!P3d::new(0, -WORLD_MAX - 1, 0).is_in_world());
    assert!(!P3d::new(0, 0, WORLD_MAX + 1).is_in_world());
}

#[test]
fn unit_product_rounds_down() {
    assert_eq!(unit_product(ONE, ONE), ONE);
    assert_eq!(unit_product(ONE / 2, ONE / 2), ONE / 4);
    assert_eq!(unit_product(32768, 55705), 27852);
    assert_eq!(unit_product(1, 1), 0);
    assert_eq!(unit_product(0, ONE), 0);
}

#[test]
fn colours_multiply_channel_by_channel() {
    let a = RGB::new(ONE / 2, ONE / 2, ONE / 2);
    let b = RGB::new(49152, 55705, ONE);
    assert_eq!(a.times(&b), RGB::new(24576, 27852, 32768));
    assert_eq!(b.times(&a), a.times(&b));
    assert_eq!(a.times(&RGB::new(0, 0, 0)), RGB::new(0, 0, 0));
    assert_eq!(b.times(&RGB::new(ONE, ONE, ONE)), b);
}

#[test]
fn lerp_blends_between_its_ends() {
    let white = RGB::new(ONE, ONE, ONE);
    let blue = RGB::new(32768, 45875, ONE);
    assert_eq!(white.lerp(&blue, 0), white);
    assert_eq!(white.lerp(&blue, ONE), blue);
    assert_eq!(white.lerp(&blue, ONE / 2), RGB::new(49152, 55705, ONE));
    assert_eq!(white.lerp(&blue, 58982), RGB::new(36045, 47841, ONE));
    assert_eq!(white.lerp(&blue, 13849), RGB::new(58611, 61381, ONE));
}

#[test]
fn colour_well_formedness() {
    assert!(RGB::new(0, ONE, 1).is_wf());
    assert!(!RGB::new(-1, 0, 0).is_wf());
    assert!(!RGB::new(0, ONE + 1, 0).is_wf());
    assert!(!RGB::new(0, 0, ONE + 1).is_wf());
}

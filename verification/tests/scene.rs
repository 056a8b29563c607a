use raytracer::hittable::list::HittableList;
use raytracer::hittable::sphere::Sphere;
use raytracer::hittable::{HitRecord, Hittable, Material};
use raytracer::ray::Ray;
use raytracer::utilities::fixed::{EPS, INFINITY, ONE};
use raytracer::utilities::p3d::P3d;
use raytracer::utilities::rgb::RGB;
use raytracer::utilities::vec3::Vec3;

/// An absorbing material with a name, to tell the spheres apart.
struct Tagged(u8);

impl Material for Tagged {
    type Rng = ();

    fn scatter_spec(&self, _ray: Ray, _rec: HitRecord<'_, Self>, _rng: ()) -> Option<(Ray, RGB)> {
        unreachable!()
    }

    fn rng_spec(&self, _ray: Ray, _rec: HitRecord<'_, Self>, _rng: ()) {
        unreachable!()
    }

    fn scatter(&self, _ray: &Ray, _rec: &HitRecord<'_, Self>, _rng: &mut ()) -> Option<(Ray, RGB)> {
        None
    }
}

fn forward_ray() -> Ray {
    Ray::new(P3d::new(0, 0, 0), Vec3::new(0, 0, -ONE))
}

fn row(order: &[u8]) -> HittableList<Sphere<Tagged>> {
    let mut list = HittableList::new();
    for tag in order.iter() {
        let z = -(*tag as i64) * 2 * ONE;
        list.push(Sphere::new(P3d::new(0, 0, z), ONE / 2, Tagged(*tag)));
    }
    list
}

#[test]
fn empty_scene_is_never_hit() {
    let list: HittableList<Sphere<Tagged>> = HittableList::new();
    assert!(list.objects.is_empty());
    assert!(list.hit(&forward_ray(), EPS, INFINITY).is_none());
    assert!(list.hit(&forward_ray(), -INFINITY, INFINITY).is_none());
}

#[test]
fn push_keeps_the_order() {
    let list = row(&[3, 1, 2]);
    assert_eq!(list.objects.len(), 3);
    assert_eq!(list.objects[0].material.0, 3);
    assert_eq!(list.objects[1].material.0, 1);
    assert_eq!(list.objects[2].material.0, 2);
}

#[test]
fn nearest_sphere_wins_in_any_order() {
    let orders: [[u8; 3]; 6] = [[1, 2, 3], [1, 3, 2], [2, 1, 3], [2, 3, 1], [3, 1, 2], [3, 2, 1]];
    for order in orders.iter() {
        let list = row(order);
        let rec = list.hit(&forward_ray(), EPS, INFINITY).expect("the ray runs through the row");
        assert_eq!(rec.material.0, 1);
        assert_eq!(rec.t, 3 * ONE / 2);
        assert_eq!(rec.point, P3d::new(0, 0, -3 * ONE / 2));
        assert_eq!(rec.normal, Vec3::new(0, 0, ONE));
        assert!(rec.front_face);
    }
}

#[test]
fn window_selects_among_the_members() {
    let list = row(&[3, 1, 2]);
    let ray = forward_ray();
    // past the first sphere: the second is the nearest
    let rec = list.hit(&ray, 3 * ONE, INFINITY).expect("two spheres are left");
    assert_eq!(rec.material.0, 2);
    assert_eq!(rec.t, 7 * ONE / 2);
    // inside the first sphere: its far side
    let rec = list.hit(&ray, 2 * ONE, INFINITY).expect("the far side of the first");
    assert_eq!(rec.material.0, 1);
    assert_eq!(rec.t, 5 * ONE / 2);
    assert!(!rec.front_face);
    // a window that ends before the row
    assert!(list.hit(&ray, EPS, 3 * ONE / 2).is_none());
    // a window that starts behind it
    assert!(list.hit(&ray, 13 * ONE / 2, INFINITY).is_none());
}

#[test]
fn first_of_two_equal_strikes_is_kept() {
    let mut list = HittableList::new();
    list.push(Sphere::new(P3d::new(0, 0, -ONE), ONE / 2, Tagged(7)));
    list.push(Sphere::new(P3d::new(0, 0, -ONE), ONE / 2, Tagged(8)));
    let rec = list.hit(&forward_ray(), EPS, INFINITY).expect("both are struck");
    assert_eq!(rec.material.0, 7);
}

#[test]
fn scene_agrees_with_its_nearest_member() {
    let mut list = HittableList::new();
    list.push(Sphere::new(P3d::new(0, 0, -ONE), ONE / 2, Tagged(1)));
    list.push(Sphere::new(P3d::new(0, -100 * ONE - ONE / 2, -ONE), 100 * ONE, Tagged(2)));
    list.push(Sphere::new(P3d::new(ONE, 0, -ONE), ONE / 2, Tagged(3)));
    for i in -6i64..=6 {
        for j in -6i64..=6 {
            let ray = Ray::new(P3d::new(0, 0, 0), Vec3::new(i * ONE / 6, j * ONE / 6, -ONE));
            let mut nearest: Option<(i64, u8)> = None;
            for s in list.objects.iter() {
                if let Some(rec) = s.hit(&ray, EPS, INFINITY) {
                    if nearest.map_or(true, |(t, _)| rec.t < t) {
                        nearest = Some((rec.t, rec.material.0));
                    }
                }
            }
            let found = list.hit(&ray, EPS, INFINITY).map(|rec| (rec.t, rec.material.0));
            assert_eq!(found, nearest);
        }
    }
}

#[test]
fn scenes_nest() {
    let mut outer = HittableList::new();
    outer.push(row(&[3]));
    outer.push(row(&[2, 1]));
    let rec = outer.hit(&forward_ray(), EPS, INFINITY).expect("the ray runs through the row");
    assert_eq!(rec.material.0, 1);
}

//! The sphere, and the roots of its quadratic along a ray.

use crate::hittable::quadratic::{
    abs, lemma_cauchy_schwarz, lemma_component_along, lemma_quotient_within, lemma_root_below,
    lemma_root_in_ball, lemma_rounded_step,
};
use crate::hittable::{HitRecord, Hittable, Material};
use crate::ray::Ray;
use crate::utilities::fixed::{
    floor_div, isqrt, lemma_floor_sqrt_not_negative, product, ONE,
};
use crate::utilities::p3d::P3d;
use crate::utilities::vec3::Vec3;
use vstd::prelude::*;

verus! {

/// The half-width of the cube about the origin in which a sphere must lie.
pub const SPHERE_MAX: i64 = 0x1000_0000;

/// A sphere of one material. A negative radius turns its normals inwards.
#[derive(Debug)]
pub struct Sphere<M> {
    pub center: P3d,
    pub radius: i64,
    pub material: M,
}

impl<M> Sphere<M> {
    /// The sphere lies in the cube of half-width `SPHERE_MAX` about the origin.
    pub open spec fn fits(self) -> bool {
        &&& abs(self.center.x as int) + abs(self.radius as int) <= SPHERE_MAX
        &&& abs(self.center.y as int) + abs(self.radius as int) <= SPHERE_MAX
        &&& abs(self.center.z as int) + abs(self.radius as int) <= SPHERE_MAX
    }

    /// The offset of the ray's origin from the centre.
    pub open spec fn oc(self, ray: Ray) -> Vec3 {
        ray.origin.minus_spec(self.center)
    }

    /// Half the linear coefficient of the quadratic in the ray parameter.
    pub open spec fn half_b(self, ray: Ray) -> int {
        self.oc(ray).dot_spec(ray.direction)
    }

    /// The constant coefficient of the quadratic: positive where the ray
    /// starts outside the sphere.
    pub open spec fn c(self, ray: Ray) -> int {
        self.oc(ray).length2_spec() - self.radius * self.radius
    }

    /// A quarter of the discriminant of the quadratic: positive where the
    /// line of the ray passes through the sphere, zero where it touches it.
    pub open spec fn discriminant(self, ray: Ray) -> int {
        self.half_b(ray) * self.half_b(ray) - ray.direction.length2_spec() * self.c(ray)
    }

    /// The smaller root of the quadratic, rounded down to the grid.
    pub open spec fn near_root(self, ray: Ray) -> int {
        ((-self.half_b(ray) - crate::utilities::fixed::floor_sqrt(self.discriminant(ray))) * ONE)
            / ray.direction.length2_spec()
    }

    /// The larger root of the quadratic, rounded down to the grid.
    pub open spec fn far_root(self, ray: Ray) -> int {
        ((-self.half_b(ray) + crate::utilities::fixed::floor_sqrt(self.discriminant(ray))) * ONE)
            / ray.direction.length2_spec()
    }

    /// The record of the strike at the parameter `t`: the point of the ray
    /// there, and the offset of that point from the centre divided by the
    /// radius, turned against the ray.
    pub open spec fn record_at(&self, ray: Ray, t: i64) -> HitRecord<'_, M> {
        let point = ray.at_spec(t as int);
        (HitRecord {
            point,
            normal: point.minus_spec(self.center).over_spec(self.radius as int),
            t,
            front_face: true,
            material: &self.material,
        }).face_normal_spec(ray)
    }

    /// The strike of `ray` on the sphere: none where the discriminant is not
    /// positive; else at the smaller root where it lies strictly between
    /// `t_min` and `t_max`; else at the larger root where that does.
    pub open spec fn strike(&self, ray: Ray, t_min: i64, t_max: i64) -> Option<HitRecord<'_, M>> {
        if self.discriminant(ray) <= 0 {
            None
        } else if t_min < self.near_root(ray) < t_max {
            Some(self.record_at(ray, self.near_root(ray) as i64))
        } else if t_min < self.far_root(ray) < t_max {
            Some(self.record_at(ray, self.far_root(ray) as i64))
        } else {
            None
        }
    }

    pub fn new(center: P3d, radius: i64, material: M) -> (sphere: Self)
        ensures
            sphere == (Sphere { center, radius, material }),
    {
        Sphere { center, radius, material }
    }

    /// Tells whether the sphere lies in the cube of half-width `SPHERE_MAX`.
    pub fn is_fit(&self) -> (b: bool)
        ensures
            b == self.fits(),
    {
        if !(-SPHERE_MAX <= self.radius && self.radius <= SPHERE_MAX) {
            return false;
        }
        let reach: i64 = if self.radius < 0 {
            -self.radius
        } else {
            self.radius
        };
        let room: i64 = SPHERE_MAX - reach;
        -room <= self.center.x && self.center.x <= room && -room <= self.center.y && self.center.y
            <= room && -room <= self.center.z && self.center.z <= room
    }

    /// The record of the strike at a root `t` of the quadratic.
    fn strike_at(&self, ray: &Ray, t: i64, Ghost(m): Ghost<int>) -> (rec: HitRecord<'_, M>)
        requires
            self.fits(),
            ray.wf(),
            self.discriminant(*ray) > 0,
            m * m <= self.discriminant(*ray),
            t == ((-self.half_b(*ray) + m) * ONE) / ray.direction.length2_spec(),
        ensures
            rec == self.record_at(*ray, t),
            rec.wf(*ray),
    {
        proof {
            self.lemma_root_in_reach(*ray, m);
        }
        let point = ray.at(t);
        let offset = point.minus(&self.center);
        let outward = Vec3 {
            x: floor_div(product(offset.x, ONE), self.radius as i128) as i64,
            y: floor_div(product(offset.y, ONE), self.radius as i128) as i64,
            z: floor_div(product(offset.z, ONE), self.radius as i128) as i64,
        };
        let mut rec = HitRecord::new(point, outward, t, &self.material);
        rec.set_face_normal(ray);
        rec
    }

    /// Where the discriminant of a sphere of radius zero would be positive,
    /// the ray's direction and the offset of its origin would break the
    /// inequality of Cauchy and Schwarz: so the radius is not zero there.
    pub proof fn lemma_strike_needs_radius(self, ray: Ray)
        requires
            self.discriminant(ray) > 0,
        ensures
            self.radius != 0,
    {
        if self.radius == 0 {
            let oc = self.oc(ray);
            lemma_cauchy_schwarz(oc, ray.direction);
            assert(self.radius * self.radius == 0);
            assert(oc.length2_spec() * ray.direction.length2_spec() == ray.direction.length2_spec()
                * oc.length2_spec()) by (nonlinear_arith);
        }
    }

    /// The point at a rounded root lies in the world, within a grid step and
    /// a step of the direction of the ball; the ray reaches it; and its
    /// offset from the centre, divided by the radius, is a bounded normal.
    pub proof fn lemma_root_in_reach(self, ray: Ray, m: int)
        requires
            self.fits(),
            ray.wf(),
            self.discriminant(ray) > 0,
            m * m <= self.discriminant(ray),
        ensures
            ({
                let t = ((-self.half_b(ray) + m) * ONE) / ray.direction.length2_spec();
                let point = ray.at_spec(t);
                let offset = point.minus_spec(self.center);
                let outward = offset.over_spec(self.radius as int);
                &&& self.radius != 0
                &&& ray.reaches(t)
                &&& point.in_world()
                &&& offset.within(abs(self.radius as int) + 0x4001)
                &&& offset.x == point.x - self.center.x
                &&& offset.y == point.y - self.center.y
                &&& offset.z == point.z - self.center.z
                &&& outward.within(crate::hittable::NORMAL_MAX as int)
                &&& outward.x == crate::utilities::fixed::floor_quot(offset.x * ONE, self.radius as int)
                &&& outward.y == crate::utilities::fixed::floor_quot(offset.y * ONE, self.radius as int)
                &&& outward.z == crate::utilities::fixed::floor_quot(offset.z * ONE, self.radius as int)
            }),
    {
        let oc = self.oc(ray);
        let d = ray.direction;
        let a = d.length2_spec();
        let n = -self.half_b(ray) + m;
        let r = abs(self.radius as int);
        let t = (n * ONE) / a;
        self.lemma_strike_needs_radius(ray);
        crate::utilities::vec3::lemma_length2_positive(d);
        lemma_root_in_ball(oc, d, self.radius as int, m);
        lemma_rounded_step(a, n, oc.x as int, d.x as int, r);
        lemma_rounded_step(a, n, oc.y as int, d.y as int, r);
        lemma_rounded_step(a, n, oc.z as int, d.z as int, r);
        let k = 0x4001int;
        let point = ray.at_spec(t);
        let offset = point.minus_spec(self.center);
        lemma_quotient_within(offset.x as int, self.radius as int, k);
        lemma_quotient_within(offset.y as int, self.radius as int, k);
        lemma_quotient_within(offset.z as int, self.radius as int, k);
    }
}

/// What holds of every ray and every sphere.
impl<M> Sphere<M> {
    /// The smaller root is not above the larger.
    pub proof fn lemma_roots_ordered(self, ray: Ray)
        requires
            !ray.direction.is_zero(),
        ensures
            self.near_root(ray) <= self.far_root(ray),
    {
        let root = crate::utilities::fixed::floor_sqrt(self.discriminant(ray));
        let h = self.half_b(ray);
        lemma_floor_sqrt_not_negative(self.discriminant(ray));
        crate::utilities::vec3::lemma_length2_positive(ray.direction);
        assert((-h - root) * ONE <= (-h + root) * ONE) by (nonlinear_arith)
            requires
                root >= 0,
        ;
        vstd::arithmetic::div_mod::lemma_div_is_ordered(
            (-h - root) * ONE,
            (-h + root) * ONE,
            ray.direction.length2_spec(),
        );
    }

    /// A ray whose line passes the centre at more than the radius strikes
    /// nothing, whatever the window: the squared distance of the centre from
    /// the line is the squared cross product of the origin's offset and the
    /// direction, divided by the squared length of the direction.
    pub proof fn lemma_distant_line_misses(&self, ray: Ray, t_min: i64, t_max: i64)
        requires
            crate::hittable::quadratic::cross2_spec(self.oc(ray), ray.direction)
                > ray.direction.length2_spec() * (self.radius * self.radius),
        ensures
            self.strike(ray, t_min, t_max) is None,
    {
        let a = ray.direction.length2_spec();
        let q = self.oc(ray).length2_spec();
        let r2 = self.radius * self.radius;
        crate::hittable::quadratic::lemma_lagrange(self.oc(ray), ray.direction);
        assert(a * (q - r2) == q * a - a * r2) by (nonlinear_arith);
    }

    /// A strike lies strictly inside its window, and its record is well
    /// formed: the point lies on the ray and in the world, and the normal is
    /// bounded and does not point along the ray.
    pub proof fn lemma_strike_wf(&self, ray: Ray, t_min: i64, t_max: i64)
        requires
            self.fits(),
            ray.wf(),
        ensures
            self.strike(ray, t_min, t_max) matches Some(rec) ==> t_min < rec.t < t_max && rec.wf(
                ray,
            ),
    {
        if self.discriminant(ray) > 0 {
            let root = crate::utilities::fixed::floor_sqrt(self.discriminant(ray));
            crate::utilities::fixed::lemma_floor_sqrt_is_root(self.discriminant(ray));
            assert((-root) * (-root) == root * root) by (nonlinear_arith);
            self.lemma_root_in_reach(ray, -root);
            self.lemma_root_in_reach(ray, root);
            if t_min < self.near_root(ray) < t_max {
                let t = self.near_root(ray) as i64;
                let point = ray.at_spec(t as int);
                let outward = point.minus_spec(self.center).over_spec(self.radius as int);
                crate::utilities::vec3::lemma_dot_negated(ray.direction, outward);
            } else if t_min < self.far_root(ray) < t_max {
                let t = self.far_root(ray) as i64;
                let point = ray.at_spec(t as int);
                let outward = point.minus_spec(self.center).over_spec(self.radius as int);
                crate::utilities::vec3::lemma_dot_negated(ray.direction, outward);
            }
        }
    }

    /// A strike found in one window is not found again once the window ends
    /// at or before it.
    pub proof fn lemma_window_ends_before(&self, ray: Ray, t_min: i64, t_max: i64, sooner: i64)
        requires
            !ray.direction.is_zero(),
            self.strike(ray, t_min, t_max) matches Some(rec) && sooner <= rec.t,
        ensures
            self.strike(ray, t_min, sooner) is None,
    {
        self.lemma_roots_ordered(ray);
    }

    /// A strike found in one window is not found again once the window
    /// starts at or after it, unless the larger root lies in the new window.
    pub proof fn lemma_window_starts_after(
        &self,
        ray: Ray,
        t_min: i64,
        t_max: i64,
        later: i64,
        end: i64,
    )
        requires
            !ray.direction.is_zero(),
            self.strike(ray, t_min, t_max) matches Some(rec) && later >= rec.t,
            !(later < self.far_root(ray) < end),
        ensures
            self.strike(ray, later, end) is None,
    {
        self.lemma_roots_ordered(ray);
    }

    /// A ray that starts outside the sphere and points at its centre passes
    /// through it, and strikes it at the smaller root, which is not negative,
    /// wherever the window holds that root.
    pub proof fn lemma_aimed_ray_strikes(&self, ray: Ray, t_min: i64, t_max: i64)
        requires
            !ray.direction.is_zero(),
            self.radius != 0,
            self.c(ray) > 0,
            crate::hittable::quadratic::cross2_spec(self.oc(ray), ray.direction) == 0,
            self.half_b(ray) < 0,
        ensures
            self.discriminant(ray) == ray.direction.length2_spec() * (self.radius * self.radius),
            self.discriminant(ray) > 0,
            0 <= self.near_root(ray) <= self.far_root(ray),
            t_min < self.near_root(ray) < t_max ==> self.strike(ray, t_min, t_max) == Some(
                self.record_at(ray, self.near_root(ray) as i64),
            ),
    {
        let a = ray.direction.length2_spec();
        let q = self.oc(ray).length2_spec();
        let h = self.half_b(ray);
        let r2 = self.radius * self.radius;
        let disc = self.discriminant(ray);
        crate::hittable::quadratic::lemma_lagrange(self.oc(ray), ray.direction);
        crate::utilities::vec3::lemma_length2_positive(ray.direction);
        assert(a * (q - r2) == q * a - a * r2) by (nonlinear_arith);
        assert(disc == a * r2);
        assert(a * r2 > 0 && r2 > 0) by (nonlinear_arith)
            requires
                a > 0,
                self.radius != 0,
                r2 == self.radius * self.radius,
        ;
        assert(a * r2 < a * q) by (nonlinear_arith)
            requires
                a > 0,
                r2 < q,
        ;
        let root = crate::utilities::fixed::floor_sqrt(disc);
        crate::utilities::fixed::lemma_floor_sqrt_is_root(disc);
        assert(root < -h) by (nonlinear_arith)
            requires
                0 <= root,
                h < 0,
                root * root < h * h,
        ;
        assert((-h - root) * ONE >= 0) by (nonlinear_arith)
            requires
                -h - root >= 0,
        ;
        vstd::arithmetic::div_mod::lemma_div_is_ordered(0, (-h - root) * ONE, a);
        self.lemma_roots_ordered(ray);
    }
}

/// How near the sphere a strike lies.
impl<M> Sphere<M> {
    /// How far rounding can move a strike of `ray` off a sphere, in units of
    /// `1 / (ONE * ONE)`: five grid steps and one, and a grid step for each
    /// `ONE` in the sum of the components of the direction.
    pub open spec fn surface_slack(ray: Ray) -> int {
        crate::hittable::quadratic::V3::of(ray.direction).norm1() + 5 * ONE + 1
    }

    /// The point at a rounded root of the quadratic lies on the sphere up to
    /// rounding.
    pub proof fn lemma_root_on_surface(self, ray: Ray, m: int)
        requires
            self.fits(),
            ray.wf(),
            self.discriminant(ray) > 0,
            m * m <= self.discriminant(ray) < (abs(m) + 1) * (abs(m) + 1),
        ensures
            ({
                let t = ((-self.half_b(ray) + m) * ONE) / ray.direction.length2_spec();
                let offset = ray.at_spec(t).minus_spec(self.center);
                let reach = ONE * abs(self.radius as int);
                let slack = Self::surface_slack(ray);
                &&& (ONE * ONE) * offset.length2_spec() <= (reach + slack) * (reach + slack)
                &&& reach >= slack ==> (ONE * ONE) * offset.length2_spec() > (reach - slack) * (
                reach - slack)
            }),
    {
        self.lemma_root_in_reach(ray, m);
        crate::utilities::vec3::lemma_length2_positive(ray.direction);
        crate::hittable::quadratic::lemma_point_near_surface(
            crate::hittable::quadratic::V3::of(self.oc(ray)),
            crate::hittable::quadratic::V3::of(ray.direction),
            self.radius as int,
            m,
        );
    }

    /// Every strike lies on the sphere up to rounding: the distance of its
    /// point from the centre differs from the radius by less than
    /// `surface_slack / ONE` grid steps.
    pub proof fn lemma_strike_on_surface(&self, ray: Ray, t_min: i64, t_max: i64)
        requires
            self.fits(),
            ray.wf(),
        ensures
            self.strike(ray, t_min, t_max) matches Some(rec) ==> ({
                let offset = rec.point.minus_spec(self.center);
                let reach = ONE * abs(self.radius as int);
                let slack = Self::surface_slack(ray);
                &&& (ONE * ONE) * offset.length2_spec() <= (reach + slack) * (reach + slack)
                &&& reach >= slack ==> (ONE * ONE) * offset.length2_spec() > (reach - slack) * (
                reach - slack)
            }),
    {
        if self.discriminant(ray) > 0 {
            let root = crate::utilities::fixed::floor_sqrt(self.discriminant(ray));
            crate::utilities::fixed::lemma_floor_sqrt_is_root(self.discriminant(ray));
            assert((-root) * (-root) == root * root) by (nonlinear_arith);
            self.lemma_root_on_surface(ray, -root);
            self.lemma_root_on_surface(ray, root);
        }
    }
}

/// How long the normal of a strike is.
impl<M> Sphere<M> {
    /// The normal of every strike has the length one up to rounding: scaled
    /// by the radius, its length differs from `ONE` radii by less than the
    /// slack of the surface and three radii.
    pub proof fn lemma_normal_near_unit(&self, ray: Ray, t_min: i64, t_max: i64)
        requires
            self.fits(),
            ray.wf(),
        ensures
            self.strike(ray, t_min, t_max) matches Some(rec) ==> ({
                let r = self.radius as int;
                let reach = ONE * abs(r);
                let more = Self::surface_slack(ray) + 3 * abs(r);
                &&& (r * r) * rec.normal.length2_spec() <= (reach + more) * (reach + more)
                &&& reach >= more ==> (r * r) * rec.normal.length2_spec() > (reach - more) * (reach
                    - more)
            }),
    {
        if self.discriminant(ray) > 0 {
            let root = crate::utilities::fixed::floor_sqrt(self.discriminant(ray));
            crate::utilities::fixed::lemma_floor_sqrt_is_root(self.discriminant(ray));
            assert((-root) * (-root) == root * root) by (nonlinear_arith);
            self.lemma_root_normal(ray, -root);
            self.lemma_root_normal(ray, root);
        }
    }

    /// The normal at a rounded root, turned either way, has the length one
    /// up to rounding.
    pub proof fn lemma_root_normal(self, ray: Ray, m: int)
        requires
            self.fits(),
            ray.wf(),
            self.discriminant(ray) > 0,
            m * m <= self.discriminant(ray) < (abs(m) + 1) * (abs(m) + 1),
        ensures
            ({
                let t = ((-self.half_b(ray) + m) * ONE) / ray.direction.length2_spec();
                let outward = ray.at_spec(t).minus_spec(self.center).over_spec(self.radius as int);
                let r = self.radius as int;
                let reach = ONE * abs(r);
                let more = Self::surface_slack(ray) + 3 * abs(r);
                &&& (r * r) * outward.length2_spec() <= (reach + more) * (reach + more)
                &&& reach >= more ==> (r * r) * outward.length2_spec() > (reach - more) * (reach
                    - more)
                &&& outward.neg_spec().length2_spec() == outward.length2_spec()
            }),
    {
        let t = ((-self.half_b(ray) + m) * ONE) / ray.direction.length2_spec();
        let offset = ray.at_spec(t).minus_spec(self.center);
        let outward = offset.over_spec(self.radius as int);
        self.lemma_root_in_reach(ray, m);
        self.lemma_root_on_surface(ray, m);
        crate::hittable::quadratic::lemma_quotient_near_unit(
            crate::hittable::quadratic::V3::of(offset),
            self.radius as int,
            ONE * abs(self.radius as int),
            Self::surface_slack(ray),
        );
        assert((-outward.x) * (-outward.x) == outward.x * outward.x && (-outward.y) * (-outward.y)
            == outward.y * outward.y && (-outward.z) * (-outward.z) == outward.z * outward.z)
            by (nonlinear_arith);
    }
}

/// Which face a ray strikes.
impl<M> Sphere<M> {
    /// The ray passes through the sphere steeply enough for rounding not to
    /// decide which face it strikes: the rounded root of the discriminant
    /// outweighs what rounding can add to the normal taken along the ray.
    pub open spec fn clear_of_grazing(self, ray: Ray) -> bool {
        let d = ray.direction;
        ONE * crate::utilities::fixed::floor_sqrt(self.discriminant(ray)) >= d.length2_spec() + (ONE
            + abs(self.radius as int)) * (abs(d.x as int) + abs(d.y as int) + abs(d.z as int))
    }

    /// The surface's own normal at a rounded root, taken along the ray and
    /// scaled by the radius, lies within the bound of rounding of `ONE` times
    /// the root of the discriminant that gave the point, less what rounding
    /// took from the parameter.
    pub proof fn lemma_normal_along(self, ray: Ray, m: int)
        requires
            self.fits(),
            ray.wf(),
            self.radius > 0,
            self.discriminant(ray) > 0,
            m * m <= self.discriminant(ray),
        ensures
            ({
                let d = ray.direction;
                let a = d.length2_spec();
                let t = ((-self.half_b(ray) + m) * ONE) / a;
                let outward = ray.at_spec(t).minus_spec(self.center).over_spec(self.radius as int);
                let slack = (ONE + self.radius) * (abs(d.x as int) + abs(d.y as int) + abs(
                    d.z as int,
                ));
                ONE * m - a - slack < self.radius * d.dot_spec(outward) <= ONE * m + slack
            }),
    {
        let d = ray.direction;
        let oc = self.oc(ray);
        let a = d.length2_spec();
        let h = self.half_b(ray);
        let n = -h + m;
        let t = (n * ONE) / a;
        let r = self.radius as int;
        let outward = ray.at_spec(t).minus_spec(self.center).over_spec(r);
        self.lemma_root_in_reach(ray, m);
        crate::utilities::vec3::lemma_length2_positive(d);
        lemma_component_along(oc.x as int, d.x as int, t, r);
        lemma_component_along(oc.y as int, d.y as int, t, r);
        lemma_component_along(oc.z as int, d.z as int, t, r);
        vstd::arithmetic::div_mod::lemma_fundamental_div_mod(n * ONE, a);
        vstd::arithmetic::div_mod::lemma_mod_bound(n * ONE, a);
        let e = (n * ONE) % a;
        crate::hittable::quadratic::lemma_distribute3(d.x * oc.x, d.y * oc.y, d.z * oc.z, ONE as int);
        crate::hittable::quadratic::lemma_distribute3(d.x * d.x, d.y * d.y, d.z * d.z, t);
        crate::hittable::quadratic::lemma_distribute3(
            d.x * outward.x,
            d.y * outward.y,
            d.z * outward.z,
            r,
        );
        crate::hittable::quadratic::lemma_distribute3(
            abs(d.x as int),
            abs(d.y as int),
            abs(d.z as int),
            ONE + r,
        );
        crate::utilities::vec3::lemma_dot_negated(d, oc);
        let exact = ONE * h + t * a;
        assert(exact == ONE * m - e) by (nonlinear_arith)
            requires
                exact == ONE * h + t * a,
                n == -h + m,
                n * ONE == a * t + e,
        ;
    }

    /// Of a sphere of positive radius that the ray does not graze, and in a
    /// window that does not start before the ray does: the front face is
    /// struck if and only if the ray starts outside the sphere, unless the
    /// window starts at or after the smaller root of a ray that starts
    /// outside.
    pub proof fn lemma_front_face(&self, ray: Ray, t_min: i64, t_max: i64)
        requires
            self.fits(),
            ray.wf(),
            self.radius > 0,
            self.clear_of_grazing(ray),
            0 <= t_min,
            !(self.c(ray) > 0 && self.near_root(ray) <= t_min),
        ensures
            self.strike(ray, t_min, t_max) matches Some(rec) ==> (rec.front_face <==> self.c(ray)
                > 0),
    {
        if self.discriminant(ray) > 0 {
            let a = ray.direction.length2_spec();
            let h = self.half_b(ray);
            let c = self.c(ray);
            let disc = self.discriminant(ray);
            let root = crate::utilities::fixed::floor_sqrt(disc);
            crate::utilities::fixed::lemma_floor_sqrt_is_root(disc);
            crate::utilities::vec3::lemma_length2_positive(ray.direction);
            assert((-root) * (-root) == root * root) by (nonlinear_arith);
            self.lemma_normal_along(ray, -root);
            self.lemma_normal_along(ray, root);
            self.lemma_root_in_reach(ray, -root);
            self.lemma_root_in_reach(ray, root);
            self.lemma_roots_ordered(ray);
            if t_min < self.near_root(ray) < t_max {
                let t = self.near_root(ray);
                let outward = ray.at_spec(t).minus_spec(self.center).over_spec(self.radius as int);
                assert(ray.direction.dot_spec(outward) <= 0) by (nonlinear_arith)
                    requires
                        self.radius > 0,
                        self.radius * ray.direction.dot_spec(outward) <= 0,
                ;
                // a positive rounded root comes of a positive numerator
                let n = -h - root;
                assert(n > 0) by (nonlinear_arith)
                    requires
                        a > 0,
                        (n * ONE) / a > 0,
                {
                    if n <= 0 {
                        assert(n * ONE <= 0);
                        vstd::arithmetic::div_mod::lemma_div_is_ordered(n * ONE, 0, a);
                    }
                }
                assert(a * c > 0) by (nonlinear_arith)
                    requires
                        0 <= root,
                        root + 1 <= -h,
                        h * h - a * c < (root + 1) * (root + 1),
                ;
                assert(c > 0) by (nonlinear_arith)
                    requires
                        a > 0,
                        a * c > 0,
                ;
            } else if t_min < self.far_root(ray) < t_max {
                let t = self.far_root(ray);
                let outward = ray.at_spec(t).minus_spec(self.center).over_spec(self.radius as int);
                assert(ray.direction.dot_spec(outward) > 0) by (nonlinear_arith)
                    requires
                        self.radius > 0,
                        self.radius * ray.direction.dot_spec(outward) > 0,
                ;
            }
        }
    }
}

impl<M: Material> Hittable for Sphere<M> {
    type Mat = M;

    open spec fn wf(&self) -> bool {
        self.fits()
    }

    open spec fn hit_spec(&self, ray: Ray, t_min: i64, t_max: i64) -> Option<HitRecord<'_, M>> {
        self.strike(ray, t_min, t_max)
    }

    proof fn lemma_hit_wf(&self, ray: Ray, t_min: i64, t_max: i64) {
        self.lemma_strike_wf(ray, t_min, t_max);
    }

    proof fn lemma_hit_nearest(&self, ray: Ray, t_min: i64, t_max: i64, sooner: i64) {
        self.lemma_roots_ordered(ray);
    }

    /// The nearest strike of `ray` on the sphere in the window: the roots of
    /// the quadratic are tried in ascending order, and a ray that only
    /// touches the sphere misses it.
    fn hit(&self, ray: &Ray, t_min: i64, t_max: i64) -> (rec: Option<HitRecord<'_, M>>) {
        let direction = ray.direction();
        let oc = ray.origin().minus(&self.center);
        proof {
            crate::utilities::vec3::lemma_dot_within(oc, direction, 0x3000_0000, 0x4000_0000);
            crate::utilities::vec3::lemma_dot_within(oc, oc, 0x3000_0000, 0x3000_0000);
            crate::utilities::vec3::lemma_dot_within(direction, direction, 0x4000_0000, 0x4000_0000);
            crate::utilities::vec3::lemma_length2_positive(direction);
            crate::utilities::vec3::lemma_length2_positive(oc);
            crate::utilities::fixed::lemma_mul_within(
                self.radius as int,
                self.radius as int,
                0x1000_0000,
                0x1000_0000,
            );
        }
        let a: i128 = direction.length2();
        let half_b: i128 = oc.dot(&direction);
        let c: i128 = oc.length2() - product(self.radius, self.radius);
        proof {
            crate::utilities::fixed::lemma_mul_within(
                half_b as int,
                half_b as int,
                0x2400_0000_0000_0000int,
                0x2400_0000_0000_0000int,
            );
            crate::utilities::fixed::lemma_mul_within(
                a as int,
                c as int,
                0x3000_0000_0000_0000int,
                0x1C00_0000_0000_0000int,
            );
        }
        let discriminant: i128 = half_b * half_b - a * c;

        if discriminant > 0 {
            let root: i128 = isqrt(discriminant as u128) as i128;
            proof {
                crate::utilities::fixed::lemma_floor_sqrt_is_root(discriminant as int);
                lemma_root_below(root as int, discriminant as int, 0x4000_0000_0000_0000);
                assert((-root) * (-root) == root * root) by (nonlinear_arith);
            }

            let near: i128 = -half_b - root;
            let far: i128 = -half_b + root;
            proof {
                crate::utilities::fixed::lemma_mul_within(
                    near as int,
                    ONE as int,
                    0x8000_0000_0000_0000,
                    0x1_0000,
                );
                crate::utilities::fixed::lemma_mul_within(
                    far as int,
                    ONE as int,
                    0x8000_0000_0000_0000,
                    0x1_0000,
                );
            }
            let t: i128 = floor_div(near * (ONE as i128), a);
            if (t_min as i128) < t && t < (t_max as i128) {
                return Some(self.strike_at(ray, t as i64, Ghost(-(root as int))));
            }
            let t: i128 = floor_div(far * (ONE as i128), a);
            if (t_min as i128) < t && t < (t_max as i128) {
                return Some(self.strike_at(ray, t as i64, Ghost(root as int)));
            }
        }
        None
    }
}

impl<M: Default> Default for Sphere<M> {
    /// The sphere of radius zero at the origin, of the default material.
    fn default() -> (sphere: Self)
        ensures
            sphere.center == (P3d { x: 0, y: 0, z: 0 }),
            sphere.radius == 0,
    {
        Sphere { center: P3d { x: 0, y: 0, z: 0 }, radius: 0, material: M::default() }
    }
}

impl<M: Clone> Clone for Sphere<M> {
    /// A sphere of the same centre and radius, of a clone of the material.
    fn clone(&self) -> (sphere: Self)
        ensures
            sphere.center == self.center,
            sphere.radius == self.radius,
    {
        Sphere { center: self.center, radius: self.radius, material: self.material.clone() }
    }
}

} // verus!

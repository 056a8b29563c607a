//! What a ray can strike, what it learns where it strikes, and how the
//! surface answers.

use crate::ray::Ray;
use crate::utilities::p3d::P3d;
use crate::utilities::rgb::RGB;
use crate::utilities::vec3::Vec3;
use vstd::prelude::*;

pub mod absorber;
pub mod list;
pub mod quadratic;
pub mod sphere;

verus! {

/// The largest component of a surface normal in a hit record.
pub const NORMAL_MAX: i64 = 0x8000_0000;

/// What is known of the place where a ray strikes a surface.
pub struct HitRecord<'a, M> {
    /// Where the ray strikes.
    pub point: P3d,
    /// The surface normal there, turned against the ray.
    pub normal: Vec3,
    /// The ray parameter of `point`.
    pub t: i64,
    /// Whether the ray strikes the side to which the surface's own normal points.
    pub front_face: bool,
    /// The material of the surface.
    pub material: &'a M,
}

impl<'a, M> HitRecord<'a, M> {
    /// The record lies on `ray` at its parameter, inside the world, with a
    /// bounded normal that does not point along the ray.
    pub open spec fn wf(self, ray: Ray) -> bool {
        &&& self.point == ray.at_spec(self.t as int)
        &&& self.point.in_world()
        &&& self.normal.within(NORMAL_MAX as int)
        &&& self.normal.dot_spec(ray.direction) <= 0
    }

    /// The record with its normal turned against `ray`: it is kept, and the
    /// face is the front, where it does not point along the ray; else it is
    /// negated, and the face is the back.
    pub open spec fn face_normal_spec(self, ray: Ray) -> Self {
        let front = ray.direction.dot_spec(self.normal) <= 0;
        HitRecord {
            point: self.point,
            normal: if front {
                self.normal
            } else {
                self.normal.neg_spec()
            },
            t: self.t,
            front_face: front,
            material: self.material,
        }
    }

    /// A record of a strike at `point`, with the surface's own normal, taken
    /// for the front face until `set_face_normal` has looked at the ray.
    pub fn new(point: P3d, normal: Vec3, t: i64, material: &'a M) -> (rec: Self)
        ensures
            rec == (HitRecord { point, normal, t, front_face: true, material }),
    {
        HitRecord { point, normal, t, front_face: true, material }
    }

    /// Turns the normal against `ray` and records which face was struck.
    pub fn set_face_normal(&mut self, ray: &Ray)
        requires
            ray.direction.within(crate::utilities::vec3::DOT_MAX as int),
            old(self).normal.within(crate::utilities::vec3::DOT_MAX as int),
        ensures
            *final(self) == old(self).face_normal_spec(*ray),
            final(self).normal.dot_spec(ray.direction) <= 0,
    {
        let along: i128 = ray.direction.dot(&self.normal);
        proof {
            crate::utilities::vec3::lemma_dot_negated(ray.direction, self.normal);
        }
        if along > 0 {
            self.normal = self.normal.neg();
            self.front_face = false;
        } else {
            self.front_face = true;
        }
    }
}

/// How a surface answers a ray that strikes it.
pub trait Material: Sized {
    /// The stream of random numbers that the material draws from.
    type Rng;

    /// The ray that leaves the surface together with the share of its light
    /// that the surface passes on, or `None` where the surface absorbs the ray.
    spec fn scatter_spec(&self, ray: Ray, rec: HitRecord<'_, Self>, rng: Self::Rng) -> Option<
        (Ray, RGB),
    >;

    /// The random stream as `scatter` leaves it.
    spec fn rng_spec(&self, ray: Ray, rec: HitRecord<'_, Self>, rng: Self::Rng) -> Self::Rng;

    /// Scatters `ray` at the strike `rec`. The answer and the state in which
    /// the stream is left depend on the arguments alone; a scattered ray is
    /// well formed and its light is dimmed, never amplified.
    fn scatter(&self, ray: &Ray, rec: &HitRecord<'_, Self>, rng: &mut Self::Rng) -> (out: Option<
        (Ray, RGB),
    >)
        requires
            ray.wf(),
            rec.wf(*ray),
        ensures
            out == self.scatter_spec(*ray, *rec, *old(rng)),
            *final(rng) == self.rng_spec(*ray, *rec, *old(rng)),
            out matches Some((scattered, attenuation)) ==> scattered.wf() && attenuation.wf(),
    ;
}

/// Anything a ray can strike.
pub trait Hittable {
    /// The material of which the surface is made.
    type Mat: Material;

    /// The surface lies where the arithmetic can reach it.
    spec fn wf(&self) -> bool;

    /// The nearest strike of `ray` whose parameter lies strictly between
    /// `t_min` and `t_max`, or `None` where there is none.
    spec fn hit_spec(&self, ray: Ray, t_min: i64, t_max: i64) -> Option<HitRecord<'_, Self::Mat>>;

    /// A strike lies strictly inside its window, and its record is well formed.
    proof fn lemma_hit_wf(&self, ray: Ray, t_min: i64, t_max: i64)
        requires
            self.wf(),
            ray.wf(),
        ensures
            self.hit_spec(ray, t_min, t_max) matches Some(h) ==> t_min < h.t < t_max && h.wf(ray),
    ;

    /// The strike is the nearest: in a window cut at or before it there is
    /// none, and where the whole window holds none, no part of it does.
    proof fn lemma_hit_nearest(&self, ray: Ray, t_min: i64, t_max: i64, sooner: i64)
        requires
            self.wf(),
            ray.wf(),
            sooner <= t_max,
            self.hit_spec(ray, t_min, t_max) matches Some(h) ==> sooner <= h.t,
        ensures
            self.hit_spec(ray, t_min, sooner) is None,
    ;

    /// Looks for the nearest strike of `ray` with a parameter strictly between
    /// `t_min` and `t_max`.
    fn hit(&self, ray: &Ray, t_min: i64, t_max: i64) -> (rec: Option<HitRecord<'_, Self::Mat>>)
        requires
            self.wf(),
            ray.wf(),
        ensures
            rec == self.hit_spec(*ray, t_min, t_max),
            rec matches Some(h) ==> t_min < h.t < t_max && h.wf(*ray),
    ;
}

} // verus!

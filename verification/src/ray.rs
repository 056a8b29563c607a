//! Rays, and the colour seen along one.

use crate::hittable::{Hittable, Material};
use crate::utilities::fixed::{floor_div, lemma_one_times, product, EPS, INFINITY, ONE};
use crate::utilities::p3d::P3d;
use crate::utilities::rgb::RGB;
use crate::utilities::vec3::Vec3;
use vstd::prelude::*;

verus! {

/// The largest component of the direction of a well-formed ray: with it the
/// direction can lead from any point of the world to any other.
pub const DIR_MAX: i64 = 0x4000_0000;

/// The red channel of the sky's blue, one half.
pub const SKY_RED: i64 = 32768;

/// The green channel of the sky's blue, seven tenths.
pub const SKY_GREEN: i64 = 45875;

/// A half-line: the points `origin + t * direction`.
#[derive(Clone, Copy, Debug, PartialEq, Eq, Structural)]
pub struct Ray {
    pub origin: P3d,
    pub direction: Vec3,
}

impl Ray {
    /// The ray starts in the world and has a bounded direction that is not zero.
    pub open spec fn wf(self) -> bool {
        &&& self.origin.in_world()
        &&& self.direction.within(DIR_MAX as int)
        &&& !self.direction.is_zero()
    }

    /// The point `origin + t * direction`, each product rounded down.
    pub open spec fn at_spec(self, t: int) -> P3d {
        P3d {
            x: (self.origin.x + (t * self.direction.x) / (ONE as int)) as i64,
            y: (self.origin.y + (t * self.direction.y) / (ONE as int)) as i64,
            z: (self.origin.z + (t * self.direction.z) / (ONE as int)) as i64,
        }
    }

    /// `origin + t * direction` can be held: no coordinate leaves `i64`.
    pub open spec fn reaches(self, t: int) -> bool {
        &&& i64::MIN <= self.origin.x + (t * self.direction.x) / (ONE as int) <= i64::MAX
        &&& i64::MIN <= self.origin.y + (t * self.direction.y) / (ONE as int) <= i64::MAX
        &&& i64::MIN <= self.origin.z + (t * self.direction.z) / (ONE as int) <= i64::MAX
    }

    pub open spec fn white() -> RGB {
        RGB { r: ONE, g: ONE, b: ONE }
    }

    pub open spec fn sky_blue() -> RGB {
        RGB { r: SKY_RED, g: SKY_GREEN, b: ONE }
    }

    /// What a ray sees that strikes nothing: white where it points straight
    /// down, the sky's blue where it points straight up, and between them the
    /// blend by half the height of its direction plus a half.
    pub open spec fn background_spec(self) -> RGB {
        Self::white().lerp_spec(Self::sky_blue(), (self.direction.unit_spec().y + ONE) / 2)
    }

    pub fn new(origin: P3d, direction: Vec3) -> (ray: Self)
        ensures
            ray == (Ray { origin, direction }),
    {
        Ray { origin, direction }
    }

    /// The ray from `from` whose parameter one lands on `to`.
    pub fn from_to(from: P3d, to: P3d) -> (ray: Self)
        requires
            i64::MIN <= to.x - from.x <= i64::MAX,
            i64::MIN <= to.y - from.y <= i64::MAX,
            i64::MIN <= to.z - from.z <= i64::MAX,
        ensures
            ray == (Ray { origin: from, direction: to.minus_spec(from) }),
            ray.at_spec(ONE as int) == to,
    {
        proof {
            lemma_one_times(to.x - from.x);
            lemma_one_times(to.y - from.y);
            lemma_one_times(to.z - from.z);
        }
        Ray { origin: from, direction: to.minus(&from) }
    }

    pub fn origin(&self) -> (p: P3d)
        ensures
            p == self.origin,
    {
        self.origin
    }

    pub fn direction(&self) -> (v: Vec3)
        ensures
            v == self.direction,
    {
        self.direction
    }

    /// Tells whether the ray is well formed.
    pub fn is_wf(&self) -> (b: bool)
        ensures
            b == self.wf(),
    {
        self.origin.is_in_world() && self.direction.is_within(DIR_MAX) && !(self.direction.x == 0
            && self.direction.y == 0 && self.direction.z == 0)
    }

    /// The point `origin + t * direction`; `t` may be negative.
    pub fn at(&self, t: i64) -> (p: P3d)
        requires
            self.reaches(t as int),
        ensures
            p == self.at_spec(t as int),
    {
        let sx: i128 = floor_div(product(t, self.direction.x), ONE as i128);
        let sy: i128 = floor_div(product(t, self.direction.y), ONE as i128);
        let sz: i128 = floor_div(product(t, self.direction.z), ONE as i128);
        P3d {
            x: (self.origin.x as i128 + sx) as i64,
            y: (self.origin.y as i128 + sy) as i64,
            z: (self.origin.z as i128 + sz) as i64,
        }
    }

    /// The colour seen along the ray with `depth` bounces left, and the
    /// random stream as the computation leaves it. With no bounce left it is
    /// black. A ray that strikes nothing sees the sky. A ray that strikes a
    /// surface which absorbs it sees black; where the surface scatters it, it
    /// sees what the scattered ray sees with one bounce less, dimmed channel
    /// by channel by the surface.
    pub open spec fn color_spec<T: Hittable>(
        self,
        world: &T,
        depth: int,
        rng: <T::Mat as Material>::Rng,
    ) -> (RGB, <T::Mat as Material>::Rng)
        decreases depth,
    {
        if depth <= 0 {
            (RGB::black(), rng)
        } else {
            match world.hit_spec(self, EPS, INFINITY) {
                None => (self.background_spec(), rng),
                Some(rec) => {
                    let left = rec.material.rng_spec(self, rec, rng);
                    match rec.material.scatter_spec(self, rec, rng) {
                        None => (RGB::black(), left),
                        Some((scattered, attenuation)) => {
                            let (seen, last) = scattered.color_spec(world, depth - 1, left);
                            (attenuation.times_spec(seen), last)
                        },
                    }
                },
            }
        }
    }

    /// The colour seen along the ray in `world`, following at most `depth`
    /// bounces. The colour and the state in which `rng` is left depend on the
    /// arguments alone.
    pub fn color<T: Hittable>(
        &self,
        world: &T,
        depth: i32,
        rng: &mut <T::Mat as Material>::Rng,
    ) -> (c: RGB)
        requires
            depth > 0 ==> world.wf() && self.wf(),
        ensures
            c == self.color_spec(world, depth as int, *old(rng)).0,
            *final(rng) == self.color_spec(world, depth as int, *old(rng)).1,
            c.wf(),
            depth <= 0 ==> c == RGB::black() && *final(rng) == *old(rng),
        decreases depth,
    {
        if depth <= 0 {
            return RGB::new(0, 0, 0);
        }
        if let Some(rec) = world.hit(self, EPS, INFINITY) {
            if let Some((scattered, attenuation)) = rec.material.scatter(self, &rec, rng) {
                attenuation.times(&scattered.color(world, depth - 1, rng))
            } else {
                RGB::new(0, 0, 0)
            }
        } else {
            self.background()
        }
    }

    /// The colour of the sky in the direction of the ray.
    pub fn background(&self) -> (c: RGB)
        requires
            self.direction.within(crate::utilities::vec3::DOT_MAX as int),
            !self.direction.is_zero(),
        ensures
            c == self.background_spec(),
            c.wf(),
    {
        let up: i64 = self.direction.unit().y;
        let t: i64 = (up + ONE) / 2;
        RGB::new(ONE, ONE, ONE).lerp(&RGB::new(SKY_RED, SKY_GREEN, ONE), t)
    }
}

/// In a world whose material absorbs every ray, a ray with a bounce left sees
/// black where it strikes a surface and the sky where it strikes none, and in
/// both cases leaves the random stream as the material left it.
pub proof fn lemma_absorbing_world<T: Hittable>(
    ray: Ray,
    world: &T,
    depth: int,
    rng: <T::Mat as Material>::Rng,
)
    requires
        depth > 0,
        forall|m: T::Mat, r: Ray, rec: crate::hittable::HitRecord<'_, T::Mat>, g: <T::Mat as Material>::Rng|
            (#[trigger] m.scatter_spec(r, rec, g)) is None,
    ensures
        world.hit_spec(ray, EPS, INFINITY) is Some ==> ray.color_spec(world, depth, rng).0
            == RGB::black(),
        world.hit_spec(ray, EPS, INFINITY) is None ==> ray.color_spec(world, depth, rng) == (
            ray.background_spec(),
            rng,
        ),
{
}

/// A ray that points straight up sees the sky's blue, and one that points
/// straight down sees white.
pub proof fn lemma_background_poles(ray: Ray)
    requires
        ray.direction.x == 0,
        ray.direction.z == 0,
        ray.direction.y != 0,
    ensures
        ray.direction.y > 0 ==> ray.background_spec() == Ray::sky_blue(),
        ray.direction.y < 0 ==> ray.background_spec() == Ray::white(),
{
    let y = ray.direction.y as int;
    let len = if y > 0 {
        y
    } else {
        -y
    };
    assert(len * len == y * y && (len + 1) * (len + 1) > y * y) by (nonlinear_arith)
        requires
            len == y || len == -y,
            len > 0,
    ;
    crate::utilities::fixed::lemma_floor_sqrt_unique(ray.direction.length2_spec(), len);
    vstd::arithmetic::div_mod::lemma_div_multiples_vanish(ONE as int, len);
    vstd::arithmetic::div_mod::lemma_div_multiples_vanish(-(ONE as int), len);
    assert(y * ONE == if y > 0 {
        len * ONE
    } else {
        len * (-(ONE as int))
    }) by (nonlinear_arith)
        requires
            len == (if y > 0 {
                y
            } else {
                -y
            }),
    ;
}

impl Default for Ray {
    /// The ray at the origin with no direction: it is not well formed.
    fn default() -> (ray: Self)
        ensures
            ray == (Ray {
                origin: P3d { x: 0, y: 0, z: 0 },
                direction: Vec3 { x: 0, y: 0, z: 0 },
            }),
    {
        Ray { origin: P3d { x: 0, y: 0, z: 0 }, direction: Vec3 { x: 0, y: 0, z: 0 } }
    }
}

} // verus!

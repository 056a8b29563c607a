//! The surface that gives no light back.

use crate::hittable::{HitRecord, Material};
use crate::ray::Ray;
use crate::utilities::rgb::RGB;
use vstd::prelude::*;

verus! {

/// A material that absorbs every ray and draws no random number.
#[derive(Clone, Copy, Debug, Default)]
pub struct Absorber;

impl Material for Absorber {
    type Rng = ();

    open spec fn scatter_spec(&self, ray: Ray, rec: HitRecord<'_, Self>, rng: ()) -> Option<
        (Ray, RGB),
    > {
        None
    }

    open spec fn rng_spec(&self, ray: Ray, rec: HitRecord<'_, Self>, rng: ()) -> () {
        rng
    }

    fn scatter(&self, ray: &Ray, rec: &HitRecord<'_, Self>, rng: &mut ()) -> (out: Option<
        (Ray, RGB),
    >) {
        None
    }
}

} // verus!

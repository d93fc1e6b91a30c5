//! Rays: an origin plus a direction.

use vstd::prelude::*;
use crate::vec::{Vec3, Vec3V, Point3, v3_add, v3_scale};

verus! {

/// Ghost image of a ray.
pub struct RayV {
    pub origin: Vec3V,
    pub direction: Vec3V,
}

/// A half-line through space; the direction need not be unit length.
#[derive(Clone, Copy, Debug, PartialEq, Eq, Structural)]
pub struct Ray {
    pub origin: Point3,
    pub direction: Vec3,
}

impl View for Ray {
    type V = RayV;

    open spec fn view(&self) -> RayV {
        RayV { origin: self.origin@, direction: self.direction@ }
    }
}

/// The point a parameter `t` names along a ray: `origin + t * direction`.
pub open spec fn ray_at(r: RayV, t: int) -> Vec3V {
    v3_add(r.origin, v3_scale(r.direction, t))
}

impl Ray {
    /// Build a ray from an origin and a direction.
    pub fn new(origin: Point3, direction: Vec3) -> (r: Ray)
        ensures
            r@ == (RayV { origin: origin@, direction: direction@ }),
    {
        Ray { origin, direction }
    }

    /// Evaluate the ray at a parameter.
    pub fn point_at_parameter(&self, t: i64) -> (p: Point3)
        ensures
            p@ == ray_at(self@, t as int),
    {
        self.origin.add(&self.direction.scale(t))
    }
}

} // verus!

//! The camera: a fixed viewport that maps image-plane samples to world rays.
//!
//! All derived fields are computed once at construction. Because tangents are
//! not representable in the fixed-point scalar, `new` takes the tangent of
//! half the vertical field of view, a plain scalar the caller supplies.

use vstd::prelude::*;
use crate::fixed::{TWO, fx_mul, fx_div, spec_mul, spec_div};
use crate::vec::{Vec3, Vec3V, Point3, cross, random_in_unit_disk, v3_add, v3_sub, v3_scale,
    v3_divs, v3_unit, v3_cross};
use crate::ray::{Ray, RayV};
use crate::material::in_unit_ball;

verus! {

/// Ghost image of a camera.
pub struct CameraV {
    pub origin: Vec3V,
    pub lower_left_corner: Vec3V,
    pub horizontal: Vec3V,
    pub vertical: Vec3V,
    pub u: Vec3V,
    pub v: Vec3V,
    pub lens_radius: int,
}

/// An immutable camera configuration.
pub struct Camera {
    pub origin: Point3,
    pub lower_left_corner: Point3,
    pub horizontal: Vec3,
    pub vertical: Vec3,
    u: Vec3,
    v: Vec3,
    lens_radius: i64,
}

impl View for Camera {
    type V = CameraV;

    closed spec fn view(&self) -> CameraV {
        CameraV {
            origin: self.origin@,
            lower_left_corner: self.lower_left_corner@,
            horizontal: self.horizontal@,
            vertical: self.vertical@,
            u: self.u@,
            v: self.v@,
            lens_radius: self.lens_radius as int,
        }
    }
}

/// The camera `new` builds: an orthonormal-by-construction basis, viewport
/// spans scaled to the focus plane, and the viewport's lower-left corner.
pub open spec fn camera_new_spec(
    lookfrom: Vec3V,
    lookat: Vec3V,
    vup: Vec3V,
    tan_half_fov: int,
    aspect_ratio: int,
    aperture: int,
    focus_dist: int,
) -> CameraV {
    let viewport_height = spec_mul(tan_half_fov, TWO as int);
    let viewport_width = spec_mul(aspect_ratio, viewport_height);
    let w = v3_unit(v3_sub(lookfrom, lookat));
    let u = v3_unit(v3_cross(vup, w));
    let v = v3_cross(w, u);
    let horizontal = v3_scale(u, spec_mul(focus_dist, viewport_width));
    let vertical = v3_scale(v, spec_mul(focus_dist, viewport_height));
    CameraV {
        origin: lookfrom,
        lower_left_corner: v3_sub(
            v3_sub(v3_sub(lookfrom, v3_divs(horizontal, TWO as int)), v3_divs(vertical, TWO as int)),
            v3_scale(w, focus_dist),
        ),
        horizontal,
        vertical,
        u,
        v,
        lens_radius: spec_div(aperture, TWO as int),
    }
}

/// The ray `get_ray` builds for sample coordinates `(s, t)` and a lens-disk
/// offset `rd`.
pub open spec fn get_ray_spec(c: CameraV, s: int, t: int, rd: Vec3V) -> RayV {
    let scaled = v3_scale(rd, c.lens_radius);
    let offset = v3_add(v3_scale(c.u, scaled.x), v3_scale(c.v, scaled.y));
    RayV {
        origin: v3_add(c.origin, offset),
        direction: v3_sub(
            v3_sub(
                v3_add(v3_add(c.lower_left_corner, v3_scale(c.horizontal, s)), v3_scale(c.vertical, t)),
                c.origin,
            ),
            offset,
        ),
    }
}

impl Camera {
    /// Build a camera. `tan_half_fov` is the tangent of half the vertical
    /// field of view, as a fixed-point scalar.
    pub fn new(
        lookfrom: Point3,
        lookat: Point3,
        vup: Vec3,
        tan_half_fov: i64,
        aspect_ratio: i64,
        aperture: i64,
        focus_dist: i64,
    ) -> (cam: Camera)
        ensures
            cam@ == camera_new_spec(
                lookfrom@,
                lookat@,
                vup@,
                tan_half_fov as int,
                aspect_ratio as int,
                aperture as int,
                focus_dist as int,
            ),
    {
        let viewport_height = fx_mul(tan_half_fov, TWO);
        let viewport_width = fx_mul(aspect_ratio, viewport_height);

        let w = lookfrom.sub(&lookat).unit_vector();
        let u = cross(&vup, &w).unit_vector();
        let v = cross(&w, &u);

        let origin = lookfrom;
        let horizontal = u.scale(fx_mul(focus_dist, viewport_width));
        let vertical = v.scale(fx_mul(focus_dist, viewport_height));
        let lower_left_corner = origin
            .sub(&horizontal.div_scalar(TWO))
            .sub(&vertical.div_scalar(TWO))
            .sub(&w.scale(focus_dist));

        let lens_radius = fx_div(aperture, TWO);

        Camera { origin, horizontal, vertical, lower_left_corner, u, v, lens_radius }
    }

    /// The world ray for viewport coordinates `(s, t)`, its origin jittered
    /// across the lens disk for depth of field.
    pub fn get_ray(&self, s: i64, t: i64, rng: &mut rand::rngs::ThreadRng) -> (ray: Ray)
        ensures
            exists|rd: Vec3V|
                in_unit_ball(rd) && rd.z == 0 && ray@ == get_ray_spec(
                    self@,
                    s as int,
                    t as int,
                    rd,
                ),
    {
        let disk = random_in_unit_disk(rng);
        let rd = disk.scale(self.lens_radius);
        let offset = self.u.scale(rd.x()).add(&self.v.scale(rd.y()));

        let ray = Ray {
            origin: self.origin.add(&offset),
            direction: self
                .lower_left_corner
                .add(&self.horizontal.scale(s))
                .add(&self.vertical.scale(t))
                .sub(&self.origin)
                .sub(&offset),
        };
        proof {
            assert(in_unit_ball(disk@) && disk@.z == 0 && ray@ == get_ray_spec(
                self@,
                s as int,
                t as int,
                disk@,
            ));
        }
        ray
    }
}

} // verus!

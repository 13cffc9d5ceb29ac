//! A thin-lens camera: screen coordinates to rays, with depth of field.

use vstd::prelude::*;
use rand::rngs::StdRng;
use crate::fixed::{fx_add, fx_mul, ONE, HALF, add_fx, mul_fx};
use crate::ray::Ray;
use crate::vec3::{Vec3, Point3, vadd, vsub, vscale, vunit, vcross, vlen_sq};

verus! {

/// Viewing geometry, fixed once built.
#[derive(Clone, Copy, Debug, PartialEq, Eq, Structural)]
pub struct Camera {
    pub origin: Point3,
    pub lower_left_corner: Point3,
    pub horizontal: Vec3,
    pub vertical: Vec3,
    pub u: Vec3,
    pub v: Vec3,
    pub w: Vec3,
    pub lens_radius: i64,
}

/// The camera looking from `look_from` toward `look_at`, `vup` giving the
/// upward direction. `half_height` is the tangent of half the vertical field
/// of view; the viewport is `2 half_height` high and `aspect_ratio` times as
/// wide, placed at `focus_dist` and scaled by it; the lens radius is half the
/// aperture.
pub open spec fn camera(
    look_from: Point3,
    look_at: Point3,
    vup: Vec3,
    half_height: i64,
    aspect_ratio: i64,
    aperture: i64,
    focus_dist: i64,
) -> Camera {
    let viewport_height = fx_add(half_height, half_height);
    let viewport_width = fx_mul(aspect_ratio, viewport_height);
    let w = vunit(vsub(look_from, look_at));
    let u = vunit(vcross(vup, w));
    let v = vcross(w, u);
    let horizontal = vscale(fx_mul(focus_dist, viewport_width), u);
    let vertical = vscale(fx_mul(focus_dist, viewport_height), v);
    let lower_left_corner = vsub(
        vsub(vsub(look_from, vscale(HALF, horizontal)), vscale(HALF, vertical)),
        vscale(focus_dist, w),
    );
    Camera {
        origin: look_from,
        lower_left_corner,
        horizontal,
        vertical,
        u,
        v,
        w,
        lens_radius: fx_mul(HALF, aperture),
    }
}

/// The ray through screen point `(s, t)` leaving the lens at the disk point
/// `disk` (scaled by the lens radius): from `origin + offset` toward
/// `lower_left + s horizontal + t vertical`.
pub open spec fn camera_ray(c: Camera, s: i64, t: i64, disk: Vec3) -> Ray {
    let rd = vscale(c.lens_radius, disk);
    let offset = vadd(vscale(rd.x, c.u), vscale(rd.y, c.v));
    let target = vadd(vadd(c.lower_left_corner, vscale(s, c.horizontal)), vscale(t, c.vertical));
    Ray { orig: vadd(c.origin, offset), dir: vsub(vsub(target, c.origin), offset) }
}

impl Camera {
    /// The camera looking from `look_from` toward `look_at`; see `camera`.
    pub fn new(
        look_from: Point3,
        look_at: Point3,
        vup: Vec3,
        half_height: i64,
        aspect_ratio: i64,
        aperture: i64,
        focus_dist: i64,
    ) -> (c: Camera)
        ensures
            c == camera(look_from, look_at, vup, half_height, aspect_ratio, aperture, focus_dist),
    {
        let viewport_height = add_fx(half_height, half_height);
        let viewport_width = mul_fx(aspect_ratio, viewport_height);
        let w = Vec3::unit_vector(&look_from.sub(look_at));
        let u = Vec3::unit_vector(&Vec3::cross(&vup, &w));
        let v = Vec3::cross(&w, &u);
        let horizontal = u.scale(mul_fx(focus_dist, viewport_width));
        let vertical = v.scale(mul_fx(focus_dist, viewport_height));
        let lower_left_corner = look_from.sub(horizontal.scale(HALF)).sub(vertical.scale(HALF)).sub(
            w.scale(focus_dist),
        );
        Camera {
            origin: look_from,
            lower_left_corner,
            horizontal,
            vertical,
            u,
            v,
            w,
            lens_radius: mul_fx(HALF, aperture),
        }
    }

    /// The ray through screen point `(s, t)` from the lens point `disk`.
    pub fn ray_through(&self, s: i64, t: i64, disk: &Vec3) -> (r: Ray)
        ensures
            r == camera_ray(*self, s, t, *disk),
    {
        let rd = disk.scale(self.lens_radius);
        let offset = self.u.scale(rd.x).add(self.v.scale(rd.y));
        let target = self.lower_left_corner.add(self.horizontal.scale(s)).add(self.vertical.scale(t));
        Ray::new(self.origin.add(offset), target.sub(self.origin).sub(offset))
    }

    /// The ray through screen point `(s, t)` from a random point of the lens.
    pub fn get_ray(&self, s: i64, t: i64, rng: &mut StdRng) -> (r: Ray)
        ensures
            exists|disk: Vec3|
                0 <= #[trigger] vlen_sq(disk) < ONE && disk.z == 0 && r == camera_ray(*self, s, t, disk),
    {
        let disk = Vec3::random_in_unit_disk(rng);
        self.ray_through(s, t, &disk)
    }
}

} // verus!

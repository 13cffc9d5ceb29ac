//! Rays: an origin and a direction.

use vstd::prelude::*;
use crate::vec3::{Vec3, Point3, vadd, vscale};

verus! {

/// The half-line `orig + t * dir`.
#[derive(Clone, Copy, Debug, PartialEq, Eq, Structural)]
pub struct Ray {
    pub orig: Point3,
    pub dir: Vec3,
}

/// The point at parameter `t` along `r`.
pub open spec fn ray_at(r: Ray, t: i64) -> Point3 {
    vadd(r.orig, vscale(t, r.dir))
}

impl Ray {
    /// The ray from `orig` along `dir`.
    pub fn new(orig: Point3, dir: Vec3) -> (r: Ray)
        ensures
            r == (Ray { orig, dir }),
    {
        Ray { orig, dir }
    }

    /// The point at parameter `t`: `orig + t * dir`.
    pub fn at(&self, t: i64) -> (r: Point3)
        ensures
            r == ray_at(*self, t),
    {
        self.orig.add(self.dir.scale(t))
    }

    /// The origin.
    pub fn orig(&self) -> (r: &Point3)
        ensures
            *r == self.orig,
    {
        &self.orig
    }

    /// The direction.
    pub fn dir(&self) -> (r: &Vec3)
        ensures
            *r == self.dir,
    {
        &self.dir
    }
}

} // verus!

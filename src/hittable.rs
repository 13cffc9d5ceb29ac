//! Ray-sphere intersection and the record of a hit.

use vstd::prelude::*;
use crate::fixed::{clamp_i64, floor_div, lemma_sqrt_nonneg, ONE, fx_add, fx_sub, fx_neg, fx_mul, fx_div, fx_sqrt, add_fx, sub_fx, neg_fx, mul_fx, div_fx, sqrt_fx};
use crate::ray::{Ray, ray_at};
use crate::vec3::{
    Vec3, Point3, vec3, vsub, vneg, vdot, vlen, vlen_sq, vunit, term, symmetric,
    lemma_len_sq_nonneg, lemma_unit_bounded, lemma_neg_symmetric, lemma_unit_vector_length,
};
use vstd::arithmetic::div_mod::lemma_fundamental_div_mod;
use vstd::arithmetic::div_mod::lemma_div_is_ordered;

verus! {

/// Where and how a ray met a surface.
#[derive(Clone, Copy, Debug, PartialEq, Eq, Structural)]
pub struct HitRecord {
    pub p: Point3,
    /// Unit-length surface normal, turned against the incoming ray.
    pub normal: Vec3,
    pub t: i64,
    /// Whether the ray came from outside the surface.
    pub front_face: bool,
}

/// Whether a ray along `dir` meets a surface with outward normal `outward`
/// from outside.
pub open spec fn faces_front(dir: Vec3, outward: Vec3) -> bool {
    vdot(dir, outward) < 0
}

/// The record of a hit at `p`, parameter `t`, of the ray `r` on a surface
/// whose outward normal there is `outward`.
pub open spec fn hit_record(p: Point3, outward: Vec3, t: i64, r: Ray) -> HitRecord {
    let front = faces_front(r.dir, outward);
    HitRecord { p, normal: if front { outward } else { vneg(outward) }, t, front_face: front }
}

/// Whether `t` lies in the interval `(t_min, t_max]`.
pub open spec fn in_range(t: i64, t_min: i64, t_max: i64) -> bool {
    t_min < t && t <= t_max
}

/// `r` relative to the centre: `orig - center`.
pub open spec fn sphere_oc(center: Point3, r: Ray) -> Vec3 {
    vsub(r.orig, center)
}

/// Discriminant of `|oc + t dir|^2 = radius^2` in its half-b form.
pub open spec fn sphere_discriminant(center: Point3, radius: i64, r: Ray) -> i64 {
    let oc = sphere_oc(center, r);
    let a = vlen_sq(r.dir);
    let half_b = vdot(oc, r.dir);
    let c = fx_sub(vlen_sq(oc), fx_mul(radius, radius));
    fx_sub(fx_mul(half_b, half_b), fx_mul(a, c))
}

/// The smaller root, `(-half_b - sqrt(disc)) / a`.
pub open spec fn sphere_near_root(center: Point3, radius: i64, r: Ray) -> i64 {
    let half_b = vdot(sphere_oc(center, r), r.dir);
    let sqrtd = fx_sqrt(sphere_discriminant(center, radius, r));
    fx_div(fx_sub(fx_neg(half_b), sqrtd), vlen_sq(r.dir))
}

/// The larger root, `(-half_b + sqrt(disc)) / a`.
pub open spec fn sphere_far_root(center: Point3, radius: i64, r: Ray) -> i64 {
    let half_b = vdot(sphere_oc(center, r), r.dir);
    let sqrtd = fx_sqrt(sphere_discriminant(center, radius, r));
    fx_div(fx_add(fx_neg(half_b), sqrtd), vlen_sq(r.dir))
}

/// The outward normal of the sphere at `p`: the unit vector of
/// `p - center`, turned inward for a negative radius, as
/// `(p - center) / radius` is.
pub open spec fn sphere_outward(center: Point3, radius: i64, p: Point3) -> Vec3 {
    if radius < 0 {
        vneg(vunit(vsub(p, center)))
    } else {
        vunit(vsub(p, center))
    }
}

/// The record of a hit on the sphere at parameter `t`.
pub open spec fn sphere_record(center: Point3, radius: i64, r: Ray, t: i64) -> HitRecord {
    let p = ray_at(r, t);
    hit_record(p, sphere_outward(center, radius, p), t, r)
}

/// The sphere's first intersection with `r` in `(t_min, t_max]`: the smaller
/// root if it lies there, else the larger one; none when the discriminant is
/// negative or neither root lies there.
pub open spec fn sphere_hit(center: Point3, radius: i64, r: Ray, t_min: i64, t_max: i64) -> Option<
    HitRecord,
> {
    if sphere_discriminant(center, radius, r) < 0 {
        None
    } else if in_range(sphere_near_root(center, radius, r), t_min, t_max) {
        Some(sphere_record(center, radius, r, sphere_near_root(center, radius, r)))
    } else if in_range(sphere_far_root(center, radius, r), t_min, t_max) {
        Some(sphere_record(center, radius, r, sphere_far_root(center, radius, r)))
    } else {
        None
    }
}

impl HitRecord {
    /// The record of a hit at `p`, parameter `t`, of `r` on a surface whose
    /// outward normal there is `outward_normal`; the stored normal is turned
    /// against the ray. The outward normal has no component at `i64::MIN`,
    /// which has no negation in the range the operations produce.
    pub fn new(p: Point3, outward_normal: Vec3, t: i64, r: &Ray) -> (h: HitRecord)
        requires
            symmetric(outward_normal),
        ensures
            h == hit_record(p, outward_normal, t, *r),
            vdot(r.dir, h.normal) <= 0,
    {
        proof {
            if !faces_front(r.dir, outward_normal) {
                lemma_turned_against(r.dir, outward_normal);
            }
        }
        let front_face = Vec3::dot(r.dir(), &outward_normal) < 0;
        let normal = if front_face {
            outward_normal
        } else {
            outward_normal.neg()
        };
        HitRecord { p, normal, t, front_face }
    }

    /// The point hit.
    pub fn p(&self) -> (r: &Vec3)
        ensures
            *r == self.p,
    {
        &self.p
    }

    /// The normal there, turned against the ray.
    pub fn normal(&self) -> (r: &Vec3)
        ensures
            *r == self.normal,
    {
        &self.normal
    }

    /// The ray parameter of the hit.
    pub fn t(&self) -> (r: i64)
        ensures
            r == self.t,
    {
        self.t
    }

    /// Whether the ray came from outside.
    pub fn front_face(&self) -> (r: bool)
        ensures
            r == self.front_face,
    {
        self.front_face
    }
}

/// A sphere.
#[derive(Clone, Copy, Debug, PartialEq, Eq, Structural)]
pub struct Sphere {
    pub center: Point3,
    pub radius: i64,
}

impl Sphere {
    /// The sphere of the given centre and radius.
    pub fn new(center: Point3, radius: i64) -> (s: Sphere)
        ensures
            s == (Sphere { center, radius }),
    {
        Sphere { center, radius }
    }

    /// The first intersection of `r` with this sphere in `(t_min, t_max]`.
    pub fn hit(&self, r: &Ray, t_min: i64, t_max: i64) -> (res: Option<HitRecord>)
        ensures
            res == sphere_hit(self.center, self.radius, *r, t_min, t_max),
            res matches Some(h) ==> {
                &&& in_range(h.t, t_min, t_max)
                &&& h.p == ray_at(*r, h.t)
                &&& h.normal == if h.front_face {
                    sphere_outward(self.center, self.radius, h.p)
                } else {
                    vneg(sphere_outward(self.center, self.radius, h.p))
                }
                &&& vdot(r.dir, h.normal) <= 0
                &&& h.p != self.center ==> ONE - 1 <= vlen(h.normal) <= ONE
            },
    {
        let oc = r.orig().sub(self.center);
        let a = r.dir().len_squared();
        let half_b = Vec3::dot(&oc, r.dir());
        let c = sub_fx(oc.len_squared(), mul_fx(self.radius, self.radius));
        let discriminant = sub_fx(mul_fx(half_b, half_b), mul_fx(a, c));
        if discriminant < 0 {
            return None;
        }
        let sqrtd = sqrt_fx(discriminant);
        // Find the nearest root that lies in the accepted range.
        let mut root = div_fx(sub_fx(neg_fx(half_b), sqrtd), a);
        if root <= t_min || t_max < root {
            root = div_fx(add_fx(neg_fx(half_b), sqrtd), a);
            if root <= t_min || t_max < root {
                return None;
            }
        }
        let p = r.at(root);
        let u = Vec3::unit_vector(&p.sub(self.center));
        let normal = if self.radius < 0 {
            u.neg()
        } else {
            u
        };
        proof {
            let d = vsub(p, self.center);
            lemma_unit_bounded(d);
            lemma_neg_symmetric(u);
            lemma_neg_symmetric(vneg(u));
            if p != self.center {
                assert(d != vec3(0, 0, 0));
                lemma_unit_vector_length(d);
            }
        }
        Some(HitRecord::new(p, normal, root, r))
    }
}

/// The shapes a scene can hold.
#[derive(Clone, Copy, Debug, PartialEq, Eq, Structural)]
pub enum Shape {
    Sphere { center: Point3, radius: i64 },
}

/// The first intersection of `r` with `s` in `(t_min, t_max]`.
pub open spec fn shape_hit(s: Shape, r: Ray, t_min: i64, t_max: i64) -> Option<HitRecord> {
    match s {
        Shape::Sphere { center, radius } => sphere_hit(center, radius, r, t_min, t_max),
    }
}

impl Shape {
    /// The first intersection of `r` with this shape in `(t_min, t_max]`.
    pub fn hit(&self, r: &Ray, t_min: i64, t_max: i64) -> (res: Option<HitRecord>)
        ensures
            res == shape_hit(*self, *r, t_min, t_max),
    {
        match self {
            Shape::Sphere { center, radius } => Sphere::new(*center, *radius).hit(r, t_min, t_max),
        }
    }
}

proof fn lemma_clamp_mono(x: int, y: int)
    requires
        x <= y,
    ensures
        clamp_i64(x) <= clamp_i64(y),
{
}

/// The smaller root never exceeds the larger one.
proof fn lemma_roots_ordered(center: Point3, radius: i64, r: Ray)
    ensures
        sphere_near_root(center, radius, r) <= sphere_far_root(center, radius, r),
{
    let a = vlen_sq(r.dir);
    lemma_len_sq_nonneg(r.dir);
    let half_b = vdot(sphere_oc(center, r), r.dir);
    let sqrtd = fx_sqrt(sphere_discriminant(center, radius, r));
    lemma_sqrt_nonneg(sphere_discriminant(center, radius, r));
    let n1 = fx_sub(fx_neg(half_b), sqrtd);
    let n2 = fx_add(fx_neg(half_b), sqrtd);
    assert(n1 <= n2);
    if a > 0 {
        let o = ONE as int;
        assert(n1 * o <= n2 * o) by (nonlinear_arith)
            requires
                n1 <= n2,
                o > 0,
        ;
        lemma_div_is_ordered(n1 * o, n2 * o, a as int);
        lemma_clamp_mono(floor_div(n1 * o, a as int), floor_div(n2 * o, a as int));
    }
}

/// Narrowing the upper bound to `b` keeps a hit no farther than `b`.
pub proof fn lemma_shape_hit_narrowed(s: Shape, r: Ray, t_min: i64, t_max: i64, b: i64)
    requires
        shape_hit(s, r, t_min, t_max) is Some,
        shape_hit(s, r, t_min, t_max)->Some_0.t <= b <= t_max,
    ensures
        shape_hit(s, r, t_min, b) == shape_hit(s, r, t_min, t_max),
{
}

/// A hit found under the narrower bound `b` is the one found under `t_max`.
pub proof fn lemma_shape_hit_widened(s: Shape, r: Ray, t_min: i64, t_max: i64, b: i64)
    requires
        shape_hit(s, r, t_min, b) is Some,
        b <= t_max,
    ensures
        shape_hit(s, r, t_min, t_max) == shape_hit(s, r, t_min, b),
{
    match s {
        Shape::Sphere { center, radius } => {
            lemma_roots_ordered(center, radius, r);
        },
    }
}

/// A surface normal turned against a ray that does not meet it from the
/// front faces away from the ray.
proof fn lemma_turned_against(d: Vec3, o: Vec3)
    requires
        symmetric(o),
        vdot(d, o) >= 0,
    ensures
        vdot(d, vneg(o)) <= 0,
{
    let n = vneg(o);
    assert(n == vec3((-o.x) as i64, (-o.y) as i64, (-o.z) as i64));
    lemma_floor_neg(d.x, o.x);
    lemma_floor_neg(d.y, o.y);
    lemma_floor_neg(d.z, o.z);
}

proof fn lemma_floor_neg(a: i64, b: i64)
    requires
        b != i64::MIN,
    ensures
        term(a, (-b) as i64) <= -term(a, b),
{
    let o = ONE as int;
    assert(a * ((-b) as i64) == -(a * b)) by (nonlinear_arith)
        requires
            b != i64::MIN,
    ;
    lemma_fundamental_div_mod(a * b, o);
    lemma_fundamental_div_mod(-(a * b), o);
    let q1 = (a * b) / o;
    let q2 = (-(a * b)) / o;
    assert(q2 <= -q1) by (nonlinear_arith)
        requires
            a * b == o * q1 + (a * b) % o,
            -(a * b) == o * q2 + (-(a * b)) % o,
            0 <= (a * b) % o < o,
            0 <= (-(a * b)) % o < o,
            o > 0,
    ;
}

} // verus!

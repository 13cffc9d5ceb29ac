//! Surface materials and how they scatter light.

use vstd::prelude::*;
use vstd::arithmetic::div_mod::{lemma_fundamental_div_mod, lemma_div_is_ordered, lemma_div_pos_is_pos, lemma_div_by_multiple};
use rand::rngs::StdRng;
use crate::fixed::{
    floor_div, lemma_div_mod_unique, fx_add, fx_sub, fx_mul, fx_div, fx_min, fx_sqrt, ONE, add_fx, sub_fx, mul_fx, div_fx, min_fx,
    sqrt_fx,
};
use crate::hittable::HitRecord;
use crate::random::random_unit_interval;
use crate::ray::Ray;
use crate::vec3::{
    Vec3, Color, vec3, vadd, vscale, vdot, vneg, vunit, vlen_sq, vnear_zero, vreflect, vrefract, symmetric, vsub, raw_sq, small, shrink, unit_part, term,
    lemma_unit_part_bounds,
};

verus! {

/// Diffuse material: scatters around the normal.
#[derive(Clone, Copy, Debug, PartialEq, Eq, Structural)]
pub struct Lambertian {
    pub albedo: Color,
}

/// Reflective material; `fuzz` in `[0, 1]` blurs the reflection.
#[derive(Clone, Copy, Debug, PartialEq, Eq, Structural)]
pub struct Metal {
    pub albedo: Color,
    pub fuzz: i64,
}

/// Clear material of refractive index `ir`: reflects or refracts.
#[derive(Clone, Copy, Debug, PartialEq, Eq, Structural)]
pub struct Dielectric {
    pub ir: i64,
}

/// The materials a scene can hold.
#[derive(Clone, Copy, Debug, PartialEq, Eq, Structural)]
pub enum Material {
    Dielectric { ir: i64 },
    Lambertian { albedo: Color },
    Metal { albedo: Color, fuzz: i64 },
}

/// Full white: no absorption.
pub open spec fn white() -> Color {
    vec3(ONE, ONE, ONE)
}

/// Diffuse scattering toward `normal + offset`, or along the normal when that
/// sum is nearly zero.
pub open spec fn lambertian_scatter(albedo: Color, rec: HitRecord, offset: Vec3) -> (Ray, Color) {
    let d = vadd(rec.normal, offset);
    (Ray { orig: rec.p, dir: if vnear_zero(d) { rec.normal } else { d } }, albedo)
}

/// Reflection of the incoming direction, perturbed by `fuzz * perturbation`;
/// absorbed when the result does not leave the surface.
pub open spec fn metal_scatter(albedo: Color, fuzz: i64, r: Ray, rec: HitRecord, perturbation: Vec3) -> Option<
    (Ray, Color),
> {
    let dir = vadd(vreflect(vunit(r.dir), rec.normal), vscale(fuzz, perturbation));
    if vdot(dir, rec.normal) > 0 {
        Some((Ray { orig: rec.p, dir }, albedo))
    } else {
        None
    }
}

/// `x` to the fifth power.
pub open spec fn pow5(x: i64) -> i64 {
    fx_mul(fx_mul(fx_mul(fx_mul(x, x), x), x), x)
}

/// `((1 - ratio) / (1 + ratio))^2`: the reflectance head-on.
pub open spec fn schlick_r0(ratio: i64) -> i64 {
    let q = fx_div(fx_sub(ONE, ratio), fx_add(ONE, ratio));
    fx_mul(q, q)
}

/// Schlick's approximation of reflectance: `r0 + (1 - r0) (1 - cos)^5`.
pub open spec fn reflectance(cosine: i64, ratio: i64) -> i64 {
    let r0 = schlick_r0(ratio);
    fx_add(r0, fx_mul(fx_sub(ONE, r0), pow5(fx_sub(ONE, cosine))))
}

/// Ratio of refractive indices across the surface: `1 / ir` going in, `ir`
/// going out.
pub open spec fn refraction_ratio(ir: i64, rec: HitRecord) -> i64 {
    if rec.front_face {
        fx_div(ONE, ir)
    } else {
        ir
    }
}

/// Cosine of the angle of incidence, capped at 1.
pub open spec fn incidence_cos(r: Ray, rec: HitRecord) -> i64 {
    fx_min(vdot(vneg(vunit(r.dir)), rec.normal), ONE)
}

/// Whether Snell's law has no solution: `ratio * sin > 1`.
pub open spec fn cannot_refract(ir: i64, r: Ray, rec: HitRecord) -> bool {
    let cos = incidence_cos(r, rec);
    let sin = fx_sqrt(fx_sub(ONE, fx_mul(cos, cos)));
    fx_mul(refraction_ratio(ir, rec), sin) > ONE
}

/// The direction a dielectric sends the ray on, given a draw `u` from
/// `[0, 1)`: a reflection under total internal reflection or when the
/// reflectance exceeds `u`, a refraction otherwise.
pub open spec fn dielectric_direction(ir: i64, r: Ray, rec: HitRecord, u: i64) -> Vec3 {
    let unit = vunit(r.dir);
    let ratio = refraction_ratio(ir, rec);
    if cannot_refract(ir, r, rec) || reflectance(incidence_cos(r, rec), ratio) > u {
        vreflect(unit, rec.normal)
    } else {
        vrefract(unit, rec.normal, ratio)
    }
}

pub open spec fn dielectric_scatter(ir: i64, r: Ray, rec: HitRecord, u: i64) -> (Ray, Color) {
    (Ray { orig: rec.p, dir: dielectric_direction(ir, r, rec, u) }, white())
}

/// `out` is a diffuse scatter toward the normal plus some unit vector.
pub open spec fn lambertian_outcome(albedo: Color, rec: HitRecord, out: Option<(Ray, Color)>) -> bool {
    exists|p: Vec3| 0 <= #[trigger] vlen_sq(p) < ONE && out == Some(lambertian_scatter(albedo, rec, vunit(p)))
}

/// `out` is a metal scatter perturbed by some point of the unit ball.
pub open spec fn metal_outcome(albedo: Color, fuzz: i64, r: Ray, rec: HitRecord, out: Option<(Ray, Color)>) -> bool {
    exists|p: Vec3| 0 <= #[trigger] vlen_sq(p) < ONE && out == metal_scatter(albedo, fuzz, r, rec, p)
}

/// `out` is a dielectric scatter for some draw from `[0, 1)`.
pub open spec fn dielectric_outcome(ir: i64, r: Ray, rec: HitRecord, out: Option<(Ray, Color)>) -> bool {
    exists|u: i64| 0 <= u < ONE && out == Some(#[trigger] dielectric_scatter(ir, r, rec, u))
}

/// The random input of one scatter: a point of the unit ball, used by
/// diffuse and metal surfaces, and a level in `[0, 1)`, used by dielectrics.
#[derive(Clone, Copy, Debug, PartialEq, Eq, Structural)]
pub struct Draw {
    pub point: Vec3,
    pub level: i64,
}

/// Whether a draw is one the random source can give.
pub open spec fn valid_draw(d: Draw) -> bool {
    0 <= vlen_sq(d.point) < ONE && 0 <= d.level < ONE
}

/// The scatter of `r` at `rec` by `m` for the draw `d`; `None` when absorbed.
pub open spec fn material_scatter(m: Material, r: Ray, rec: HitRecord, d: Draw) -> Option<(Ray, Color)> {
    match m {
        Material::Lambertian { albedo } => Some(lambertian_scatter(albedo, rec, vunit(d.point))),
        Material::Metal { albedo, fuzz } => metal_scatter(albedo, fuzz, r, rec, d.point),
        Material::Dielectric { ir } => Some(dielectric_scatter(ir, r, rec, d.level)),
    }
}

/// `out` is a scatter of `r` at `rec` that `m` can produce for some draw.
pub open spec fn scatter_outcome(m: Material, r: Ray, rec: HitRecord, out: Option<(Ray, Color)>) -> bool {
    exists|d: Draw| valid_draw(d) && out == #[trigger] material_scatter(m, r, rec, d)
}

impl Lambertian {
    /// The diffuse material of the given albedo.
    pub fn new(albedo: &Color) -> (m: Lambertian)
        ensures
            m == (Lambertian { albedo: *albedo }),
    {
        Lambertian { albedo: *albedo }
    }

    /// Scatters toward `rec.normal + offset`, or along the normal when that
    /// sum is nearly zero; the attenuation is the albedo.
    pub fn scatter_along(&self, rec: &HitRecord, offset: &Vec3) -> (res: (Ray, Color))
        ensures
            res == lambertian_scatter(self.albedo, *rec, *offset),
    {
        let mut scatter_direction = rec.normal().add(*offset);
        // Catch a degenerate scatter direction.
        if scatter_direction.near_zero() {
            scatter_direction = *rec.normal();
        }
        (Ray::new(*rec.p(), scatter_direction), self.albedo)
    }

    /// Scatters toward the normal plus a random unit vector; always succeeds.
    pub fn scatter(&self, _r: &Ray, rec: &HitRecord, rng: &mut StdRng) -> (res: Option<(Ray, Color)>)
        ensures
            lambertian_outcome(self.albedo, *rec, res),
    {
        let offset = Vec3::random_unit_vector(rng);
        Some(self.scatter_along(rec, &offset))
    }
}

impl Metal {
    /// The metal of the given albedo and fuzz.
    pub fn new(albedo: &Color, fuzz: i64) -> (m: Metal)
        ensures
            m == (Metal { albedo: *albedo, fuzz }),
    {
        Metal { albedo: *albedo, fuzz }
    }

    /// Reflects the ray, perturbed by `fuzz * perturbation`; absorbs it when
    /// the result points into the surface.
    pub fn scatter_with(&self, r: &Ray, rec: &HitRecord, perturbation: &Vec3) -> (res: Option<
        (Ray, Color),
    >)
        ensures
            res == metal_scatter(self.albedo, self.fuzz, *r, *rec, *perturbation),
    {
        let reflected = Vec3::reflect(&Vec3::unit_vector(r.dir()), rec.normal());
        let scattered = Ray::new(*rec.p(), reflected.add(perturbation.scale(self.fuzz)));
        if Vec3::dot(scattered.dir(), rec.normal()) > 0 {
            Some((scattered, self.albedo))
        } else {
            None
        }
    }

    /// Reflects the ray, perturbed by `fuzz` times a random point of the unit
    /// ball. With no fuzz the reflection is the exact mirror image.
    pub fn scatter(&self, r: &Ray, rec: &HitRecord, rng: &mut StdRng) -> (res: Option<(Ray, Color)>)
        ensures
            metal_outcome(self.albedo, self.fuzz, *r, *rec, res),
            self.fuzz == 0 ==> (res matches Some((s, _)) ==> s.dir == vreflect(vunit(r.dir), rec.normal)),
    {
        let p = Vec3::random_in_unit_sphere(rng);
        let res = self.scatter_with(r, rec, &p);
        proof {
            if self.fuzz == 0 {
                lemma_no_fuzz(vreflect(vunit(r.dir), rec.normal), p);
            }
        }
        res
    }
}

/// Adding a zero-scaled vector changes nothing.
proof fn lemma_no_fuzz(v: Vec3, p: Vec3)
    requires
        symmetric(v),
    ensures
        vadd(v, vscale(0, p)) == v,
{
    assert(floor_div(0, ONE as int) == 0);
}

impl Dielectric {
    /// The clear material of refractive index `ir`.
    pub fn new(ir: i64) -> (m: Dielectric)
        ensures
            m == (Dielectric { ir }),
    {
        Dielectric { ir }
    }

    /// Schlick's approximation of the reflectance at incidence cosine
    /// `cosine` for the index ratio `ref_idx`.
    pub fn reflectance(cosine: i64, ref_idx: i64) -> (r: i64)
        ensures
            r == reflectance(cosine, ref_idx),
    {
        let q = div_fx(sub_fx(ONE, ref_idx), add_fx(ONE, ref_idx));
        let r0 = mul_fx(q, q);
        let x = sub_fx(ONE, cosine);
        let x5 = mul_fx(mul_fx(mul_fx(mul_fx(x, x), x), x), x);
        add_fx(r0, mul_fx(sub_fx(ONE, r0), x5))
    }

    /// Reflects or refracts the ray; `u`, a draw from `[0, 1)`, decides
    /// against the reflectance. The attenuation is white.
    pub fn scatter_with(&self, r: &Ray, rec: &HitRecord, u: i64) -> (res: (Ray, Color))
        ensures
            res == dielectric_scatter(self.ir, *r, *rec, u),
    {
        let refraction_ratio = if rec.front_face() {
            div_fx(ONE, self.ir)
        } else {
            self.ir
        };
        let unit_direction = Vec3::unit_vector(r.dir());
        let cos_theta = min_fx(Vec3::dot(&unit_direction.neg(), rec.normal()), ONE);
        let sin_theta = sqrt_fx(sub_fx(ONE, mul_fx(cos_theta, cos_theta)));
        let cannot_refract = mul_fx(refraction_ratio, sin_theta) > ONE;
        let direction = if cannot_refract || Dielectric::reflectance(cos_theta, refraction_ratio) > u {
            Vec3::reflect(&unit_direction, rec.normal())
        } else {
            Vec3::refract(&unit_direction, rec.normal(), refraction_ratio)
        };
        (Ray::new(*rec.p(), direction), Vec3::new(ONE, ONE, ONE))
    }

    /// Reflects or refracts the ray, choosing by Schlick's approximation
    /// against a uniform draw; always succeeds.
    pub fn scatter(&self, r: &Ray, rec: &HitRecord, rng: &mut StdRng) -> (res: Option<(Ray, Color)>)
        ensures
            dielectric_outcome(self.ir, *r, *rec, res),
    {
        let u = random_unit_interval(rng);
        let res = self.scatter_with(r, rec, u);
        let out = Some(res);
        assert(dielectric_outcome(self.ir, *r, *rec, out));
        out
    }
}

impl Material {
    /// Scatters `r` at `rec` by this material; `None` when it is absorbed.
    pub fn scatter(&self, r: &Ray, rec: &HitRecord, rng: &mut StdRng) -> (res: Option<(Ray, Color)>)
        ensures
            scatter_outcome(*self, *r, *rec, res),
    {
        match self {
            Material::Dielectric { ir } => {
                let res = Dielectric::new(*ir).scatter(r, rec, rng);
                proof {
                    let u = choose|u: i64| 0 <= u < ONE && res == Some(#[trigger] dielectric_scatter(*ir, *r, *rec, u));
                    let d = Draw { point: vec3(0, 0, 0), level: u };
                    assert(vlen_sq(d.point) == 0) by {
                        assert(floor_div(0, ONE as int) == 0);
                    }
                    assert(valid_draw(d) && res == material_scatter(*self, *r, *rec, d));
                }
                res
            },
            Material::Lambertian { albedo } => {
                let res = Lambertian::new(albedo).scatter(r, rec, rng);
                proof {
                    let p = choose|p: Vec3| 0 <= #[trigger] vlen_sq(p) < ONE && res == Some(lambertian_scatter(*albedo, *rec, vunit(p)));
                    let d = Draw { point: p, level: 0 };
                    assert(valid_draw(d) && res == material_scatter(*self, *r, *rec, d));
                }
                res
            },
            Material::Metal { albedo, fuzz } => {
                let res = Metal::new(albedo, *fuzz).scatter(r, rec, rng);
                proof {
                    let p = choose|p: Vec3| 0 <= #[trigger] vlen_sq(p) < ONE && res == metal_scatter(*albedo, *fuzz, *r, *rec, p);
                    let d = Draw { point: p, level: 0 };
                    assert(valid_draw(d) && res == material_scatter(*self, *r, *rec, d));
                }
                res
            },
        }
    }
}

/// Rounding and saturation keep products of nonnegative scalars ordered.
proof fn lemma_mul_mono(a1: i64, a2: i64, b1: i64, b2: i64)
    requires
        0 <= a1 <= a2,
        0 <= b1 <= b2,
    ensures
        0 <= fx_mul(a1, b1) <= fx_mul(a2, b2),
{
    assert(0 <= a1 * b1 <= a2 * b2) by (nonlinear_arith)
        requires
            0 <= a1 <= a2,
            0 <= b1 <= b2,
    ;
    lemma_div_is_ordered(a1 * b1, a2 * b2, ONE as int);
    lemma_div_pos_is_pos(a1 * b1, ONE as int);
}

proof fn lemma_pow5_mono(x1: i64, x2: i64)
    requires
        0 <= x1 <= x2,
    ensures
        0 <= pow5(x1) <= pow5(x2),
{
    lemma_mul_mono(x1, x2, x1, x2);
    let a1 = fx_mul(x1, x1);
    let a2 = fx_mul(x2, x2);
    lemma_mul_mono(a1, a2, x1, x2);
    let b1 = fx_mul(a1, x1);
    let b2 = fx_mul(a2, x2);
    lemma_mul_mono(b1, b2, x1, x2);
    let c1 = fx_mul(b1, x1);
    let c2 = fx_mul(b2, x2);
    lemma_mul_mono(c1, c2, x1, x2);
}

/// For a nonnegative index ratio the head-on reflectance lies in `[0, 1]`.
proof fn lemma_r0_bounds(ratio: i64)
    requires
        ratio >= 0,
    ensures
        0 <= schlick_r0(ratio) <= ONE,
{
    let n = fx_sub(ONE, ratio);
    let d = fx_add(ONE, ratio);
    assert(d > 0 && -d <= n <= d);
    let q = fx_div(n, d);
    let o = ONE as int;
    assert(n * o <= d * o && -(d * o) <= n * o) by (nonlinear_arith)
        requires
            -d <= n <= d,
            o > 0,
    ;
    lemma_div_is_ordered(n * o, d * o, d as int);
    lemma_div_is_ordered(-(d * o), n * o, d as int);
    lemma_div_by_multiple(o, d as int);
    assert(d * o == o * d) by (nonlinear_arith);
    assert(-(d * o) == d * (-o) + 0) by (nonlinear_arith);
    lemma_div_mod_unique(-(d * o), d as int, -o, 0);
    assert(-o <= q <= o);
    assert(0 <= q * q <= o * o) by (nonlinear_arith)
        requires
            -o <= q <= o,
    ;
    lemma_div_is_ordered(q * q, o * o, o);
    lemma_div_pos_is_pos(q * q, o);
    lemma_div_by_multiple(o, o);
}

/// Schlick's reflectance is 0 head-on (cosine 1) between media of equal
/// index (ratio 1).
pub proof fn lemma_reflectance_head_on()
    ensures
        reflectance(ONE, ONE) == 0,
{
    assert(floor_div(0, ONE as int) == 0);
    assert(floor_div(0, 2 * ONE as int) == 0);
    assert(fx_sub(ONE, ONE) == 0);
    assert(fx_add(ONE, ONE) == 2 * ONE);
    assert(fx_div(0, fx_add(ONE, ONE)) == 0);
    assert(fx_mul(0, 0) == 0);
    assert(schlick_r0(ONE) == 0);
    assert(pow5(0) == 0);
}

/// Schlick's reflectance does not decrease as `1 - cos` grows: for cosines
/// `-1 <= cos2 <= cos1 <= 1` and any nonnegative index ratio,
/// `reflectance(cos1, ratio) <= reflectance(cos2, ratio)`.
pub proof fn lemma_reflectance_monotone(cos1: i64, cos2: i64, ratio: i64)
    requires
        -ONE <= cos2 <= cos1 <= ONE,
        ratio >= 0,
    ensures
        reflectance(cos1, ratio) <= reflectance(cos2, ratio),
{
    let x1 = fx_sub(ONE, cos1);
    let x2 = fx_sub(ONE, cos2);
    assert(0 <= x1 <= x2);
    lemma_pow5_mono(x1, x2);
    lemma_r0_bounds(ratio);
    let r0 = schlick_r0(ratio);
    let k = fx_sub(ONE, r0);
    assert(0 <= k);
    lemma_mul_mono(k, k, pow5(x1), pow5(x2));
}

/// The rounded unit component of `a`, for a vector of near-unit length, is
/// within one billionth of `a`.
proof fn lemma_unit_part_near(a: i64, q: int)
    requires
        -(ONE + 1) <= a <= ONE + 1,
        (ONE - 1) * (ONE - 1) <= q < (ONE + 1) * (ONE + 1),
        a * a <= q,
    ensures
        a - 1 <= unit_part(a, q) <= a + 1,
{
    let o = ONE as int;
    assert(q > 0) by (nonlinear_arith)
        requires
            (o - 1) * (o - 1) <= q,
            o == 1_000_000_000,
    ;
    lemma_unit_part_bounds(a, q);
    let p = unit_part(a, q);
    let k = if a < 0 { -p } else { p };
    let b: int = if a < 0 { -a } else { a as int };
    assert(b * b == a * a) by (nonlinear_arith)
        requires
            b == a || b == -a,
    ;
    let x = 4 * (a * a) * (o * o);
    assert(x == 4 * (b * b) * (o * o));
    if k >= b + 2 {
        let y = 4 * (b * b) + 12 * b + 8;
        assert(4 * (k * k) - 4 * k >= y) by (nonlinear_arith)
            requires
                k >= b + 2,
                b >= 0,
                y == 4 * (b * b) + 12 * b + 8,
        ;
        assert(y * q >= y * ((o - 1) * (o - 1))) by (nonlinear_arith)
            requires
                y >= 0,
                q >= (o - 1) * (o - 1),
        ;
        assert((4 * (k * k) - 4 * k) * q >= y * q) by (nonlinear_arith)
            requires
                4 * (k * k) - 4 * k >= y,
                q >= 0,
        ;
        assert(y * ((o - 1) * (o - 1)) > 4 * (b * b) * (o * o)) by (nonlinear_arith)
            requires
                0 <= b <= o + 1,
                y == 4 * (b * b) + 12 * b + 8,
                o == 1_000_000_000,
        ;
    }
    if k + 2 <= b {
        let z = 2 * b - 3;
        assert((2 * k + 1) * (2 * k + 1) <= z * z) by (nonlinear_arith)
            requires
                0 <= k,
                k + 2 <= b,
                z == 2 * b - 3,
        ;
        assert((2 * k + 1) * (2 * k + 1) == 4 * (k * k) + 4 * k + 1) by (nonlinear_arith);
        assert(((2 * k + 1) * (2 * k + 1)) * q <= (z * z) * ((o + 1) * (o + 1))) by (nonlinear_arith)
            requires
                (2 * k + 1) * (2 * k + 1) <= z * z,
                0 <= q < (o + 1) * (o + 1),
        ;
        assert((z * z) * ((o + 1) * (o + 1)) <= 4 * (b * b) * (o * o)) by (nonlinear_arith)
            requires
                z == 2 * b - 3,
                2 <= b <= o + 1,
                o == 1_000_000_000,
        ;
    }
}

/// Facts about one term `floor(x / ONE)` with `x` between bounds.
proof fn lemma_floor_between(x: int, lo: int, hi: int)
    requires
        lo <= x <= hi,
    ensures
        lo / (ONE as int) <= floor_div(x, ONE as int) <= hi / (ONE as int),
        x - ONE < (ONE as int) * floor_div(x, ONE as int) <= x,
{
    lemma_div_is_ordered(lo, x, ONE as int);
    lemma_div_is_ordered(x, hi, ONE as int);
    lemma_fundamental_div_mod(x, ONE as int);
}

/// A mirror without fuzz always reflects a ray that arrives exactly against a
/// near-unit normal (components within `1 + 1e-9`, length within a
/// billionth of 1): the scatter succeeds, from the hit point, along the
/// mirror image of the incoming direction.
pub proof fn lemma_mirror_reflects_perpendicular(albedo: Color, r: Ray, rec: HitRecord, p: Vec3)
    requires
        -(ONE + 1) <= rec.normal.x <= ONE + 1,
        -(ONE + 1) <= rec.normal.y <= ONE + 1,
        -(ONE + 1) <= rec.normal.z <= ONE + 1,
        (ONE - 1) * (ONE - 1) <= raw_sq(rec.normal) < (ONE + 1) * (ONE + 1),
        r.dir == vneg(rec.normal),
    ensures
        metal_scatter(albedo, 0, r, rec, p) == Some(
            (Ray { orig: rec.p, dir: vreflect(vunit(r.dir), rec.normal) }, albedo),
        ),
{
    let o = ONE as int;
    let n = rec.normal;
    let d = r.dir;
    assert(d == vec3((-n.x) as i64, (-n.y) as i64, (-n.z) as i64));
    assert(small(d));
    assert(shrink(d) == d);
    let q = raw_sq(d);
    assert(q == raw_sq(n)) by (nonlinear_arith)
        requires
            d.x == -n.x,
            d.y == -n.y,
            d.z == -n.z,
            q == d.x * d.x + d.y * d.y + d.z * d.z,
    ;
    assert(d.x * d.x >= 0 && d.y * d.y >= 0 && d.z * d.z >= 0) by (nonlinear_arith);
    lemma_unit_part_near(d.x, q);
    lemma_unit_part_near(d.y, q);
    lemma_unit_part_near(d.z, q);
    let u = vunit(d);
    assert(q > 0) by (nonlinear_arith)
        requires
            (o - 1) * (o - 1) <= q,
            o == 1_000_000_000,
    ;
    assert(u.x == unit_part(d.x, q) && u.y == unit_part(d.y, q) && u.z == unit_part(d.z, q));
    // u = -n + e with every |e_i| <= 1.
    let (ex, ey, ez) = (u.x + n.x, u.y + n.y, u.z + n.z);
    assert(-1 <= ex <= 1 && -1 <= ey <= 1 && -1 <= ez <= 1);
    let b = 3 * o + 3;
    let px = u.x * n.x;
    let py = u.y * n.y;
    let pz = u.z * n.z;
    assert(px == -(n.x * n.x) + ex * n.x && py == -(n.y * n.y) + ey * n.y && pz == -(n.z * n.z) + ez * n.z)
        by (nonlinear_arith)
        requires
            u.x == -n.x + ex,
            u.y == -n.y + ey,
            u.z == -n.z + ez,
            px == u.x * n.x,
            py == u.y * n.y,
            pz == u.z * n.z,
    ;
    assert(-(o + 1) <= ex * n.x <= o + 1 && -(o + 1) <= ey * n.y <= o + 1 && -(o + 1) <= ez * n.z <= o + 1)
        by (nonlinear_arith)
        requires
            -1 <= ex <= 1,
            -1 <= ey <= 1,
            -1 <= ez <= 1,
            -(o + 1) <= n.x <= o + 1,
            -(o + 1) <= n.y <= o + 1,
            -(o + 1) <= n.z <= o + 1,
    ;
    let nn = raw_sq(n);
    lemma_fundamental_div_mod(px, o);
    lemma_fundamental_div_mod(py, o);
    lemma_fundamental_div_mod(pz, o);
    let d0 = vdot(u, n);
    let s0 = term(u.x, n.x) + term(u.y, n.y) + term(u.z, n.z);
    assert(o * s0 <= px + py + pz < o * s0 + 3 * o);
    assert(-nn - b <= px + py + pz <= -nn + b);
    assert(-o - 9 <= s0 <= -o + 5) by (nonlinear_arith)
        requires
            o * s0 <= px + py + pz,
            px + py + pz < o * s0 + 3 * o,
            -nn - b <= px + py + pz <= -nn + b,
            (o - 1) * (o - 1) <= nn < (o + 1) * (o + 1),
            b == 3 * o + 3,
            o == 1_000_000_000,
    ;
    assert(d0 == s0);
    let dd = fx_add(d0, d0);
    assert(dd == 2 * s0);
    // vscale(dd, n)_i = -2 n_i + delta_i with |delta_i| <= 20.
    let g = dd + 2 * o;
    assert(-18 <= g <= 10);
    lemma_scale_near(dd, n.x);
    lemma_scale_near(dd, n.y);
    lemma_scale_near(dd, n.z);
    let rf = vreflect(u, n);
    assert(rf == vsub(u, vscale(dd, n)));
    let (fx_, fy_, fz_) = (rf.x - n.x, rf.y - n.y, rf.z - n.z);
    assert(-21 <= fx_ <= 21 && -21 <= fy_ <= 21 && -21 <= fz_ <= 21);
    let qx = rf.x * n.x;
    let qy = rf.y * n.y;
    let qz = rf.z * n.z;
    assert(qx == n.x * n.x + fx_ * n.x && qy == n.y * n.y + fy_ * n.y && qz == n.z * n.z + fz_ * n.z)
        by (nonlinear_arith)
        requires
            rf.x == n.x + fx_,
            rf.y == n.y + fy_,
            rf.z == n.z + fz_,
            qx == rf.x * n.x,
            qy == rf.y * n.y,
            qz == rf.z * n.z,
    ;
    assert(-21 * (o + 1) <= fx_ * n.x && -21 * (o + 1) <= fy_ * n.y && -21 * (o + 1) <= fz_ * n.z)
        by (nonlinear_arith)
        requires
            -21 <= fx_ <= 21,
            -21 <= fy_ <= 21,
            -21 <= fz_ <= 21,
            -(o + 1) <= n.x <= o + 1,
            -(o + 1) <= n.y <= o + 1,
            -(o + 1) <= n.z <= o + 1,
    ;
    lemma_fundamental_div_mod(qx, o);
    lemma_fundamental_div_mod(qy, o);
    lemma_fundamental_div_mod(qz, o);
    let s1 = term(rf.x, n.x) + term(rf.y, n.y) + term(rf.z, n.z);
    assert(qx + qy + qz < o * s1 + 3 * o);
    assert(s1 > 0) by (nonlinear_arith)
        requires
            qx + qy + qz < o * s1 + 3 * o,
            qx + qy + qz >= nn - 63 * (o + 1),
            nn >= (o - 1) * (o - 1),
            o == 1_000_000_000,
    ;
    assert(vadd(rf, vscale(0, p)) == rf) by {
        assert(floor_div(0, ONE as int) == 0);
    }
}

/// `floor(dd n / ONE)` is `-2 n` up to 20 when `dd` is within `[-2 - 1.8e-8,
/// -2 + 1e-8]` and `n` within `1 + 1e-9`.
proof fn lemma_scale_near(dd: i64, a: i64)
    requires
        -2 * ONE - 18 <= dd <= -2 * ONE + 10,
        -(ONE + 1) <= a <= ONE + 1,
    ensures
        -2 * a - 20 <= fx_mul(dd, a) <= -2 * a + 20,
{
    let o = ONE as int;
    let g = dd + 2 * o;
    assert(dd * a == -2 * o * a + g * a) by (nonlinear_arith)
        requires
            g == dd + 2 * o,
    ;
    assert(-18 * (o + 1) <= g * a <= 18 * (o + 1)) by (nonlinear_arith)
        requires
            -18 <= g <= 10,
            -(o + 1) <= a <= o + 1,
    ;
    lemma_fundamental_div_mod(dd * a, o);
    let f = (dd * a) / o;
    assert(-2 * a - 20 <= f <= -2 * a + 20) by (nonlinear_arith)
        requires
            dd * a == o * f + (dd * a) % o,
            0 <= (dd * a) % o < o,
            dd * a == -2 * o * a + g * a,
            -18 * (o + 1) <= g * a <= 18 * (o + 1),
            o == 1_000_000_000,
    ;
}

} // verus!

//! Three-component fixed-point vectors, used for points, directions and colours.

use vstd::prelude::*;
use vstd::arithmetic::div_mod::{
    lemma_div_by_multiple,
    lemma_div_is_ordered, lemma_div_pos_is_pos, lemma_fundamental_div_mod,
};
use crate::fixed::{
    clamp_i64, floor_div, fx_add, fx_sub, fx_neg, fx_mul, fx_div, fx_min, fx_max, ONE, add_fx,
    sub_fx, neg_fx, mul_fx, div_fx, min_fx, max_fx, clamp_wide, floor_div_wide, lemma_wide_product, is_isqrt, isqrt, isqrt_full, isqrt_wide, lemma_isqrt_is, lemma_isqrt_exists,
};

verus! {

/// A vector of three fixed-point scalars.
#[derive(Clone, Copy, Debug, PartialEq, Eq, Structural)]
pub struct Vec3 {
    pub x: i64,
    pub y: i64,
    pub z: i64,
}

/// A position in space.
pub type Point3 = Vec3;

/// A colour, one channel per component; nonnegative before gamma.
pub type Color = Vec3;

pub open spec fn vec3(x: i64, y: i64, z: i64) -> Vec3 {
    Vec3 { x, y, z }
}

pub open spec fn vadd(a: Vec3, b: Vec3) -> Vec3 {
    vec3(fx_add(a.x, b.x), fx_add(a.y, b.y), fx_add(a.z, b.z))
}

pub open spec fn vsub(a: Vec3, b: Vec3) -> Vec3 {
    vec3(fx_sub(a.x, b.x), fx_sub(a.y, b.y), fx_sub(a.z, b.z))
}

pub open spec fn vneg(a: Vec3) -> Vec3 {
    vec3(fx_neg(a.x), fx_neg(a.y), fx_neg(a.z))
}

/// `t` times `v`.
pub open spec fn vscale(t: i64, v: Vec3) -> Vec3 {
    vec3(fx_mul(t, v.x), fx_mul(t, v.y), fx_mul(t, v.z))
}

/// Component-wise product.
pub open spec fn vmul(a: Vec3, b: Vec3) -> Vec3 {
    vec3(fx_mul(a.x, b.x), fx_mul(a.y, b.y), fx_mul(a.z, b.z))
}

/// `v` divided by `t`, component by component.
pub open spec fn vdiv(v: Vec3, t: i64) -> Vec3 {
    vec3(fx_div(v.x, t), fx_div(v.y, t), fx_div(v.z, t))
}

/// One term of a dot product: `a * b` rounded down to a billionth.
pub open spec fn term(a: i64, b: i64) -> int {
    floor_div(a * b, ONE as int)
}

/// Dot product: the rounded terms summed, then saturated.
pub open spec fn vdot(a: Vec3, b: Vec3) -> i64 {
    clamp_i64(term(a.x, b.x) + term(a.y, b.y) + term(a.z, b.z)) as i64
}

/// Difference of two rounded terms, saturated.
pub open spec fn cross_part(a: i64, b: i64, c: i64, d: i64) -> i64 {
    clamp_i64(term(a, b) - term(c, d)) as i64
}

pub open spec fn vcross(u: Vec3, v: Vec3) -> Vec3 {
    vec3(
        cross_part(u.y, v.z, u.z, v.y),
        cross_part(u.z, v.x, u.x, v.z),
        cross_part(u.x, v.y, u.y, v.x),
    )
}

pub open spec fn vlen_sq(v: Vec3) -> i64 {
    vdot(v, v)
}

/// The exact sum of the squares of the raw components.
pub open spec fn raw_sq(v: Vec3) -> int {
    v.x * v.x + v.y * v.y + v.z * v.z
}

/// Length: the exact Euclidean length rounded down to a billionth,
/// saturated.
pub open spec fn vlen(v: Vec3) -> i64 {
    clamp_i64(isqrt(raw_sq(v))) as i64
}

/// Magnitude of a scalar.
pub open spec fn mag(a: i64) -> int {
    if a < 0 {
        -a
    } else {
        a as int
    }
}

/// Half of a scalar, rounded toward zero.
pub open spec fn halve(a: i64) -> i64 {
    if a >= 0 {
        (a / 2) as i64
    } else {
        (-((-a) / 2)) as i64
    }
}

/// Whether every component is below 2^31 raw units in magnitude.
pub open spec fn small(v: Vec3) -> bool {
    mag(v.x) < 0x8000_0000 && mag(v.y) < 0x8000_0000 && mag(v.z) < 0x8000_0000
}

/// `v` halved toward zero until every component is small; its direction is
/// kept to within the rounding of the halvings.
pub open spec fn shrink(v: Vec3) -> Vec3
    decreases mag(v.x) + mag(v.y) + mag(v.z),
{
    if small(v) {
        v
    } else {
        shrink(vec3(halve(v.x), halve(v.y), halve(v.z)))
    }
}

/// Component `a` of the unit vector of a vector whose raw squares sum to
/// `q`: `a ONE / sqrt(q)` rounded to the nearest integer, computed as
/// `(isqrt(floor(4 a^2 ONE^2 / q)) + 1) / 2` with the sign of `a`.
pub open spec fn unit_part(a: i64, q: int) -> int {
    let k = (isqrt((4 * (a * a) * (ONE * ONE)) / q) + 1) / 2;
    if a < 0 {
        -k
    } else {
        k
    }
}

/// The unit vector in the direction of `v`, each component rounded to the
/// nearest billionth; the zero vector stays zero.
pub open spec fn vunit(v: Vec3) -> Vec3 {
    let w = shrink(v);
    let q = raw_sq(w);
    if q == 0 {
        vec3(0, 0, 0)
    } else {
        vec3(unit_part(w.x, q) as i64, unit_part(w.y, q) as i64, unit_part(w.z, q) as i64)
    }
}

/// The bound below which a component counts as zero: 1e-8.
pub const NEAR_ZERO: i64 = 10;

pub open spec fn vnear_zero(v: Vec3) -> bool {
    -NEAR_ZERO < v.x < NEAR_ZERO && -NEAR_ZERO < v.y < NEAR_ZERO && -NEAR_ZERO < v.z < NEAR_ZERO
}

/// Whether every component lies in the symmetric range the operations
/// produce: none is `i64::MIN`.
pub open spec fn symmetric(v: Vec3) -> bool {
    v.x != i64::MIN && v.y != i64::MIN && v.z != i64::MIN
}

/// Mirror reflection of `v` about the plane with normal `n`: `v - 2 (v . n) n`.
pub open spec fn vreflect(v: Vec3, n: Vec3) -> Vec3 {
    let d = vdot(v, n);
    vsub(v, vscale(fx_add(d, d), n))
}

/// Saturating absolute value.
pub open spec fn fx_abs(a: i64) -> i64 {
    if a < 0 {
        fx_neg(a)
    } else {
        a
    }
}

/// Cosine of the angle between `-uv` and `n`, clamped to `[-1, 1]`.
pub open spec fn refract_cos(uv: Vec3, n: Vec3) -> i64 {
    fx_max(fx_min(vdot(vneg(uv), n), ONE), (-ONE) as i64)
}

/// Component of the refracted ray perpendicular to `n`.
pub open spec fn refract_perp(uv: Vec3, n: Vec3, ratio: i64) -> Vec3 {
    vscale(ratio, vadd(uv, vscale(refract_cos(uv, n), n)))
}

/// Length of the refracted ray's component along `-n`,
/// `sqrt(|1 - |perp|^2|)`: computed exactly from the components of `perp`,
/// rounded down to a billionth and saturated.
pub open spec fn refract_parallel_len(perp: Vec3) -> int {
    let k = ONE * ONE - raw_sq(perp);
    clamp_i64(isqrt(if k < 0 { -k } else { k }))
}

/// Snell's law for the unit direction `uv` crossing a surface with normal `n`,
/// `ratio` being the ratio of the refractive indices.
pub open spec fn vrefract(uv: Vec3, n: Vec3, ratio: i64) -> Vec3 {
    let perp = refract_perp(uv, n, ratio);
    let m = refract_parallel_len(perp);
    vadd(perp, vscale(fx_neg(m as i64), n))
}

proof fn lemma_term_bound(a: i64, b: i64)
    ensures
        -0x10_0000_0000_0000_0000_0000_0000 <= term(a, b) <= 0x10_0000_0000_0000_0000_0000_0000,
{
    let p = a * b;
    let k: int = 0x4000_0000_0000_0000_0000_0000_0000_0000;
    assert(-k <= p <= k) by (nonlinear_arith)
        requires
            -0x8000_0000_0000_0000 <= a <= 0x8000_0000_0000_0000,
            -0x8000_0000_0000_0000 <= b <= 0x8000_0000_0000_0000,
            p == a * b,
            k == 0x4000_0000_0000_0000_0000_0000_0000_0000,
    ;
    lemma_div_is_ordered(p, k, ONE as int);
    lemma_div_is_ordered(-k, p, ONE as int);
    lemma_fundamental_div_mod(k, ONE as int);
    lemma_fundamental_div_mod(-k, ONE as int);
}

/// One rounded term of a dot product, exactly.
fn term_wide(a: i64, b: i64) -> (r: i128)
    ensures
        r == term(a, b),
        -0x10_0000_0000_0000_0000_0000_0000 <= r <= 0x10_0000_0000_0000_0000_0000_0000,
{
    proof {
        lemma_term_bound(a, b);
        lemma_wide_product(a, b);
    }
    floor_div_wide(a as i128 * b as i128, ONE as i128)
}

/// The exact square of a scalar.
fn square_wide(a: i64) -> (r: u128)
    ensures
        r == a * a,
        r <= 0x4000_0000_0000_0000_0000_0000_0000_0000,
{
    proof {
        lemma_wide_product(a, a);
        assert(a * a >= 0) by (nonlinear_arith);
    }
    (a as i128 * a as i128) as u128
}

fn halve_exec(a: i64) -> (r: i64)
    ensures
        r == halve(a),
{
    if a >= 0 {
        a / 2
    } else {
        (-((-(a as i128)) / 2)) as i64
    }
}

fn shrink_exec(v: Vec3) -> (w: Vec3)
    ensures
        w == shrink(v),
        small(w),
{
    let mut w = v;
    while !(-0x8000_0000 < w.x && w.x < 0x8000_0000 && -0x8000_0000 < w.y && w.y < 0x8000_0000
        && -0x8000_0000 < w.z && w.z < 0x8000_0000)
        invariant
            shrink(w) == shrink(v),
        decreases mag(w.x) + mag(w.y) + mag(w.z),
    {
        w = Vec3 { x: halve_exec(w.x), y: halve_exec(w.y), z: halve_exec(w.z) };
    }
    w
}

/// `refract_parallel_len(perp)`.
fn parallel_len(perp: &Vec3) -> (m: i64)
    ensures
        m == refract_parallel_len(*perp),
{
    let oo: u128 = 1_000_000_000_000_000_000;
    let q: u128 = square_wide(perp.x) + square_wide(perp.y) + square_wide(perp.z);
    let k: u128 = if q <= oo {
        oo - q
    } else {
        q - oo
    };
    let r = isqrt_full(k);
    proof {
        assert(oo == ONE * ONE);
        lemma_isqrt_is(k as int, r as int);
    }
    if r > i64::MAX as u128 {
        i64::MAX
    } else {
        r as i64
    }
}

/// `unit_part(a, q)`, for a small component of a vector whose raw squares
/// sum to `q`.
fn unit_part_exec(a: i64, q: u128) -> (r: i64)
    requires
        q > 0,
        -0x8000_0000 < a < 0x8000_0000,
        a * a <= q,
    ensures
        r == unit_part(a, q as int),
{
    let aa: u128 = square_wide(a);
    let oo: u128 = 1_000_000_000_000_000_000;
    assert(aa < 0x4000_0000_0000_0000) by (nonlinear_arith)
        requires
            aa == a * a,
            -0x8000_0000 < a < 0x8000_0000,
    ;
    assert(4 * aa * oo <= 0x2000_0000_0000_0000_0000_0000_0000_0000) by (nonlinear_arith)
        requires
            aa < 0x4000_0000_0000_0000,
            oo == 1_000_000_000_000_000_000,
    ;
    let n: u128 = 4 * aa * oo / q;
    assert(n <= 4 * oo) by {
        lemma_div_is_ordered((4 * aa * oo) as int, (4 * oo * q) as int, q as int);
        assert((4 * aa * oo) as int <= (4 * oo * q) as int) by (nonlinear_arith)
            requires
                aa <= q,
        ;
        lemma_div_by_multiple((4 * oo) as int, q as int);
    }
    let s = isqrt_wide(n);
    assert(s <= 2 * ONE) by (nonlinear_arith)
        requires
            s * s <= n,
            n <= 4 * oo,
            oo == 1_000_000_000_000_000_000,
            s >= 0,
    ;
    proof {
        lemma_isqrt_is(n as int, s as int);
        assert(oo == ONE * ONE);
        assert(4 * aa * oo == 4 * (a * a) * (ONE * ONE));
    }
    let k: i64 = ((s + 1) / 2) as i64;
    if a < 0 {
        -k
    } else {
        k
    }
}

impl Vec3 {
    /// The vector with the given components.
    pub fn new(e0: i64, e1: i64, e2: i64) -> (r: Vec3)
        ensures
            r == vec3(e0, e1, e2),
    {
        Vec3 { x: e0, y: e1, z: e2 }
    }

    /// The first component.
    pub fn x(&self) -> (r: i64)
        ensures
            r == self.x,
    {
        self.x
    }

    /// The second component.
    pub fn y(&self) -> (r: i64)
        ensures
            r == self.y,
    {
        self.y
    }

    /// The third component.
    pub fn z(&self) -> (r: i64)
        ensures
            r == self.z,
    {
        self.z
    }

    /// Component-wise sum.
    pub fn add(self, o: Vec3) -> (r: Vec3)
        ensures
            r == vadd(self, o),
    {
        Vec3 { x: add_fx(self.x, o.x), y: add_fx(self.y, o.y), z: add_fx(self.z, o.z) }
    }

    /// Component-wise difference.
    pub fn sub(self, o: Vec3) -> (r: Vec3)
        ensures
            r == vsub(self, o),
    {
        Vec3 { x: sub_fx(self.x, o.x), y: sub_fx(self.y, o.y), z: sub_fx(self.z, o.z) }
    }

    /// The opposite vector.
    pub fn neg(self) -> (r: Vec3)
        ensures
            r == vneg(self),
    {
        Vec3 { x: neg_fx(self.x), y: neg_fx(self.y), z: neg_fx(self.z) }
    }

    /// `t` times this vector.
    pub fn scale(self, t: i64) -> (r: Vec3)
        ensures
            r == vscale(t, self),
    {
        Vec3 { x: mul_fx(t, self.x), y: mul_fx(t, self.y), z: mul_fx(t, self.z) }
    }

    /// Component-wise product.
    pub fn mul(self, o: Vec3) -> (r: Vec3)
        ensures
            r == vmul(self, o),
    {
        Vec3 { x: mul_fx(self.x, o.x), y: mul_fx(self.y, o.y), z: mul_fx(self.z, o.z) }
    }

    /// This vector divided by `t`; the zero vector when `t` is 0.
    pub fn div(self, t: i64) -> (r: Vec3)
        ensures
            r == vdiv(self, t),
    {
        Vec3 { x: div_fx(self.x, t), y: div_fx(self.y, t), z: div_fx(self.z, t) }
    }

    /// Dot product.
    pub fn dot(u: &Vec3, v: &Vec3) -> (r: i64)
        ensures
            r == vdot(*u, *v),
    {
        let s: i128 = term_wide(u.x, v.x) + term_wide(u.y, v.y) + term_wide(u.z, v.z);
        clamp_wide(s)
    }

    /// Cross product.
    pub fn cross(u: &Vec3, v: &Vec3) -> (r: Vec3)
        ensures
            r == vcross(*u, *v),
    {
        Vec3 {
            x: clamp_wide(term_wide(u.y, v.z) - term_wide(u.z, v.y)),
            y: clamp_wide(term_wide(u.z, v.x) - term_wide(u.x, v.z)),
            z: clamp_wide(term_wide(u.x, v.y) - term_wide(u.y, v.x)),
        }
    }

    /// Squared length.
    pub fn len_squared(&self) -> (r: i64)
        ensures
            r == vlen_sq(*self),
            r >= 0,
    {
        proof {
            lemma_len_sq_nonneg(*self);
        }
        Vec3::dot(self, self)
    }

    /// Length.
    pub fn len(&self) -> (r: i64)
        ensures
            r == vlen(*self),
            r >= 0,
    {
        let q: u128 = square_wide(self.x) + square_wide(self.y) + square_wide(self.z);
        let r = isqrt_full(q);
        proof {
            lemma_isqrt_is(raw_sq(*self), r as int);
        }
        if r > i64::MAX as u128 {
            i64::MAX
        } else {
            r as i64
        }
    }

    /// This vector scaled to length 1; the zero vector stays zero.
    pub fn unit_vector(v: &Vec3) -> (r: Vec3)
        ensures
            r == vunit(*v),
            symmetric(r),
    {
        proof {
            lemma_unit_bounded(*v);
        }
        let w = shrink_exec(*v);
        let q: u128 = square_wide(w.x) + square_wide(w.y) + square_wide(w.z);
        if q == 0 {
            return Vec3 { x: 0, y: 0, z: 0 };
        }
        Vec3 { x: unit_part_exec(w.x, q), y: unit_part_exec(w.y, q), z: unit_part_exec(w.z, q) }
    }

    /// Whether every component is below 1e-8 in magnitude.
    pub fn near_zero(&self) -> (r: bool)
        ensures
            r == vnear_zero(*self),
    {
        -NEAR_ZERO < self.x && self.x < NEAR_ZERO && -NEAR_ZERO < self.y && self.y < NEAR_ZERO
            && -NEAR_ZERO < self.z && self.z < NEAR_ZERO
    }

    /// Mirror reflection of `v` about the surface with normal `n`; `v` has no
    /// component at `i64::MIN`, which has no negation in the range the
    /// operations produce.
    pub fn reflect(v: &Vec3, n: &Vec3) -> (r: Vec3)
        requires
            symmetric(*v),
        ensures
            r == vreflect(*v, *n),
    {
        let d = Vec3::dot(v, n);
        v.sub(n.scale(add_fx(d, d)))
    }

    /// Refraction of the unit direction `uv` through a surface with normal
    /// `n`, `etai_over_etat` being the ratio of the refractive indices: the
    /// cosine `-uv . n` is clamped to `[-1, 1]`, the component perpendicular
    /// to `n` is `ratio (uv + cos n)`, and the component along `-n` has length
    /// `sqrt(|1 - |perp|^2|)`.
    pub fn refract(uv: &Vec3, n: &Vec3, etai_over_etat: i64) -> (r: Vec3)
        ensures
            r == vrefract(*uv, *n, etai_over_etat),
    {
        let cos_theta = max_fx(min_fx(Vec3::dot(&uv.neg(), n), ONE), -ONE);
        let r_out_perp = uv.add(n.scale(cos_theta)).scale(etai_over_etat);
        let m = parallel_len(&r_out_perp);
        let r_out_parallel = n.scale(neg_fx(m));
        r_out_perp.add(r_out_parallel)
    }
}

proof fn lemma_square_term_nonneg(a: i64)
    ensures
        term(a, a) >= 0,
{
    assert(a * a >= 0) by (nonlinear_arith);
    lemma_div_pos_is_pos(a * a, ONE as int);
}

/// A squared length is never negative.
pub proof fn lemma_len_sq_nonneg(v: Vec3)
    ensures
        vlen_sq(v) >= 0,
{
    lemma_square_term_nonneg(v.x);
    lemma_square_term_nonneg(v.y);
    lemma_square_term_nonneg(v.z);
}

/// Reflecting a vector about a surface it runs along leaves it unchanged:
/// when `v . n == 0`, `reflect(v, n) == v`, for every `v` with no component
/// at `i64::MIN` (a value no operation produces).
pub proof fn lemma_reflect_orthogonal(v: Vec3, n: Vec3)
    requires
        vdot(v, n) == 0,
        symmetric(v),
    ensures
        vreflect(v, n) == v,
{
    assert(floor_div(0, ONE as int) == 0);
    assert(vscale(0, n) == vec3(0, 0, 0));
}

/// Halving toward zero until small keeps a nonzero vector nonzero.
proof fn lemma_shrink_nonzero(v: Vec3)
    requires
        v != vec3(0, 0, 0),
    ensures
        shrink(v) != vec3(0, 0, 0),
    decreases mag(v.x) + mag(v.y) + mag(v.z),
{
    if !small(v) {
        let h = vec3(halve(v.x), halve(v.y), halve(v.z));
        assert(h != vec3(0, 0, 0));
        lemma_shrink_nonzero(h);
    }
}

/// The rounding of one component `k = (isqrt(n) + 1) / 2`,
/// `n = floor(4 a^2 ONE^2 / q)`, brackets `4 a^2 ONE^2` between
/// `(4k^2 - 4k) q` and `(2k + 1)^2 q`.
pub proof fn lemma_unit_part_bounds(a: i64, q: int)
    requires
        q > 0,
        a * a <= q,
    ensures
        unit_part(a, q) * unit_part(a, q) == (if a < 0 { -unit_part(a, q) } else { unit_part(a, q) }) * (if a < 0 { -unit_part(a, q) } else { unit_part(a, q) }),
        ({
            let k = if a < 0 { -unit_part(a, q) } else { unit_part(a, q) };
            let x = 4 * (a * a) * (ONE * ONE);
            &&& 0 <= k <= ONE + 1
            &&& (4 * (k * k) - 4 * k) * q <= x
            &&& x < (4 * (k * k) + 4 * k + 1) * q
        }),
{
    let o = ONE as int;
    let x = 4 * (a * a) * (o * o);
    let n = x / q;
    lemma_fundamental_div_mod(x, q);
    assert(a * a >= 0) by (nonlinear_arith);
    let p = unit_part(a, q);
    assert(p * p == (-p) * (-p)) by (nonlinear_arith);
    assert(0 <= x <= 4 * q * (o * o)) by (nonlinear_arith)
        requires
            x == 4 * (a * a) * (o * o),
            a * a <= q,
            0 <= a * a,
    ;
    assert(a * a >= 0) by (nonlinear_arith);
    lemma_div_pos_is_pos(x, q);
    lemma_div_is_ordered(x, 4 * q * (o * o), q);
    assert(4 * q * (o * o) == (4 * (o * o)) * q) by (nonlinear_arith);
    lemma_div_by_multiple(4 * (o * o), q);
    assert(0 <= n <= 4 * (o * o));
    lemma_isqrt_exists(n);
    let s = isqrt(n);
    assert(is_isqrt(n, s));
    let k = (s + 1) / 2;
    assert(s == 2 * k - 1 || s == 2 * k);
    assert(4 * (k * k) - 4 * k <= n && n + 1 <= 4 * (k * k) + 4 * k + 1) by (nonlinear_arith)
        requires
            s == 2 * k - 1 || s == 2 * k,
            s * s <= n,
            n < (s + 1) * (s + 1),
            s >= 0,
    ;
    assert(k <= o + 1) by (nonlinear_arith)
        requires
            4 * (k * k) - 4 * k <= n,
            n <= 4 * (o * o),
            k >= 0,
            o == 1_000_000_000,
    ;
    assert((4 * (k * k) - 4 * k) * q <= n * q) by (nonlinear_arith)
        requires
            4 * (k * k) - 4 * k <= n,
            q > 0,
    ;
    assert((n + 1) * q <= (4 * (k * k) + 4 * k + 1) * q) by (nonlinear_arith)
        requires
            n + 1 <= 4 * (k * k) + 4 * k + 1,
            q > 0,
    ;
    assert(n * q == q * n) by (nonlinear_arith);
    assert((n + 1) * q == q * n + q) by (nonlinear_arith);
}

/// Scaling a nonzero vector to unit length gives a vector whose length is 1
/// within a billionth: `1 - 1e-9 <= len(unit(v)) <= 1`.
pub proof fn lemma_unit_vector_length(v: Vec3)
    requires
        v != vec3(0, 0, 0),
    ensures
        ONE - 1 <= vlen(vunit(v)) <= ONE,
{
    let o = ONE as int;
    let w = shrink(v);
    lemma_shrink_nonzero(v);
    let q = raw_sq(w);
    let (a, b, c) = (w.x, w.y, w.z);
    assert(a * a >= 0 && b * b >= 0 && c * c >= 0) by (nonlinear_arith);
    assert(q > 0) by {
        if a != 0 {
            assert(a * a > 0) by (nonlinear_arith) requires a != 0;
        } else if b != 0 {
            assert(b * b > 0) by (nonlinear_arith) requires b != 0;
        } else {
            assert(c != 0);
            assert(c * c > 0) by (nonlinear_arith) requires c != 0;
        }
    }
    lemma_unit_part_bounds(a, q);
    lemma_unit_part_bounds(b, q);
    lemma_unit_part_bounds(c, q);
    let ka = if a < 0 { -unit_part(a, q) } else { unit_part(a, q) };
    let kb = if b < 0 { -unit_part(b, q) } else { unit_part(b, q) };
    let kc = if c < 0 { -unit_part(c, q) } else { unit_part(c, q) };
    let u = vunit(v);
    assert(u == vec3(unit_part(a, q) as i64, unit_part(b, q) as i64, unit_part(c, q) as i64));
    let uu = ka * ka + kb * kb + kc * kc;
    assert(raw_sq(u) == uu);
    let sk = ka + kb + kc;
    let oo = o * o;
    let xa = 4 * (a * a) * oo;
    let xb = 4 * (b * b) * oo;
    let xc = 4 * (c * c) * oo;
    assert(xa + xb + xc == (4 * oo) * q) by (nonlinear_arith)
        requires
            xa == 4 * (a * a) * oo,
            xb == 4 * (b * b) * oo,
            xc == 4 * (c * c) * oo,
            q == a * a + b * b + c * c,
    ;
    assert((4 * uu - 4 * sk) * q <= (4 * oo) * q) by (nonlinear_arith)
        requires
            (4 * (ka * ka) - 4 * ka) * q <= xa,
            (4 * (kb * kb) - 4 * kb) * q <= xb,
            (4 * (kc * kc) - 4 * kc) * q <= xc,
            xa + xb + xc == (4 * oo) * q,
            uu == ka * ka + kb * kb + kc * kc,
            sk == ka + kb + kc,
    ;
    assert((4 * oo) * q < (4 * uu + 4 * sk + 3) * q) by (nonlinear_arith)
        requires
            xa < (4 * (ka * ka) + 4 * ka + 1) * q,
            xb < (4 * (kb * kb) + 4 * kb + 1) * q,
            xc < (4 * (kc * kc) + 4 * kc + 1) * q,
            xa + xb + xc == (4 * oo) * q,
            uu == ka * ka + kb * kb + kc * kc,
            sk == ka + kb + kc,
    ;
    assert(4 * uu - 4 * sk <= 4 * oo && 4 * oo < 4 * uu + 4 * sk + 3) by (nonlinear_arith)
        requires
            (4 * uu - 4 * sk) * q <= (4 * oo) * q,
            (4 * oo) * q < (4 * uu + 4 * sk + 3) * q,
            q > 0,
    ;
    assert((2 * sk - 3) * (2 * sk - 3) <= 3 * (4 * uu - 4 * sk + 3)) by (nonlinear_arith)
        requires
            uu == ka * ka + kb * kb + kc * kc,
            sk == ka + kb + kc,
    ;
    assert(sk <= 1_740_000_000) by (nonlinear_arith)
        requires
            (2 * sk - 3) * (2 * sk - 3) <= 3 * (4 * uu - 4 * sk + 3),
            4 * uu - 4 * sk <= 4 * oo,
            oo == 1_000_000_000_000_000_000,
            sk >= 0,
    ;
    let len = isqrt(uu);
    lemma_isqrt_exists(uu);
    assert(is_isqrt(uu, len));
    assert(o - 1 <= len <= o) by (nonlinear_arith)
        requires
            len * len <= uu,
            uu < (len + 1) * (len + 1),
            4 * uu - 4 * sk <= 4 * oo,
            4 * oo < 4 * uu + 4 * sk + 3,
            0 <= sk <= 1_740_000_000,
            oo == o * o,
            o == 1_000_000_000,
            len >= 0,
    ;
}

/// Each component of a unit vector lies within `[-(1 + 1e-9), 1 + 1e-9]`.
pub proof fn lemma_unit_bounded(v: Vec3)
    ensures
        mag(vunit(v).x) <= ONE + 1 && mag(vunit(v).y) <= ONE + 1 && mag(vunit(v).z) <= ONE + 1,
        symmetric(vunit(v)),
{
    let w = shrink(v);
    let q = raw_sq(w);
    if q != 0 {
        let (a, b, c) = (w.x, w.y, w.z);
        assert(a * a >= 0 && b * b >= 0 && c * c >= 0) by (nonlinear_arith);
        lemma_unit_part_bounds(a, q);
        lemma_unit_part_bounds(b, q);
        lemma_unit_part_bounds(c, q);
    }
}

/// Negating a vector in the symmetric range is exact: it keeps the length
/// and negating again gives the vector back.
pub proof fn lemma_neg_symmetric(u: Vec3)
    requires
        symmetric(u),
    ensures
        vneg(u) == vec3((-u.x) as i64, (-u.y) as i64, (-u.z) as i64),
        symmetric(vneg(u)),
        vneg(vneg(u)) == u,
        vlen(vneg(u)) == vlen(u),
{
    let n = vneg(u);
    assert(n.x * n.x == u.x * u.x && n.y * n.y == u.y * u.y && n.z * n.z == u.z * u.z) by (nonlinear_arith)
        requires
            n.x == -u.x,
            n.y == -u.y,
            n.z == -u.z,
    ;
}


} // verus!

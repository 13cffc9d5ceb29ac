//! Random sampling from an explicitly passed, seeded source.

use vstd::prelude::*;
use rand::rngs::StdRng;
use crate::fixed::{floor_div, ONE};
use crate::vec3::{Vec3, vec3, vlen_sq, vunit, vdot, vneg, lemma_len_sq_nonneg};

verus! {

#[verifier::external_type_specification]
#[verifier::external_body]
pub struct ExStdRng(StdRng);

/// Relies on rand's `SeedableRng::seed_from_u64`: a generator whose stream is
/// fixed by the seed.
#[verifier::external_body]
pub(crate) fn seeded_rng(seed: u64) -> (r: StdRng) {
    <StdRng as rand::SeedableRng>::seed_from_u64(seed)
}

/// Relies on rand's `Rng::gen_range` over `0..n` (uniform integer sampling),
/// which panics on an empty range and otherwise returns a value in it.
#[verifier::external_body]
fn draw_below(rng: &mut StdRng, n: u64) -> (r: u64)
    requires
        n > 0,
    ensures
        r < n,
{
    rand::Rng::gen_range(rng, 0..n)
}

/// A uniform draw from `[min, max)`.
pub fn random_between(rng: &mut StdRng, min: i64, max: i64) -> (r: i64)
    requires
        min < max,
    ensures
        min <= r < max,
{
    let width: u64 = (max as i128 - min as i128) as u64;
    let d = draw_below(rng, width);
    (min as i128 + d as i128) as i64
}

/// A uniform draw from `[0, 1)`.
pub fn random_unit_interval(rng: &mut StdRng) -> (r: i64)
    ensures
        0 <= r < ONE,
{
    random_between(rng, 0, ONE)
}

/// How many draws rejection sampling makes before it settles for the centre.
pub const MAX_TRIES: u32 = 64;

impl Vec3 {
    /// A vector whose components are drawn uniformly from `[min, max)`.
    pub fn random(rng: &mut StdRng, min: i64, max: i64) -> (r: Vec3)
        requires
            min < max,
        ensures
            min <= r.x < max,
            min <= r.y < max,
            min <= r.z < max,
    {
        let x = random_between(rng, min, max);
        let y = random_between(rng, min, max);
        let z = random_between(rng, min, max);
        Vec3 { x, y, z }
    }

    /// The rejection step of ball sampling: `p` if it lies inside the unit
    /// ball, else nothing.
    pub fn ball_point(p: Vec3) -> (r: Option<Vec3>)
        ensures
            r == (if vlen_sq(p) < ONE { Some(p) } else { None::<Vec3> }),
    {
        if p.len_squared() < ONE {
            Some(p)
        } else {
            None
        }
    }

    /// A point drawn from inside the unit ball: points of the cube
    /// `[-1, 1)^3` are drawn until `ball_point` accepts one. After
    /// `MAX_TRIES` rejections the centre is returned.
    pub fn random_in_unit_sphere(rng: &mut StdRng) -> (r: Vec3)
        ensures
            0 <= vlen_sq(r) < ONE,
    {
        let mut tries: u32 = 0;
        while tries < MAX_TRIES
            decreases MAX_TRIES - tries,
        {
            let p = Vec3::random(rng, -ONE, ONE);
            if let Some(q) = Vec3::ball_point(p) {
                proof {
                    lemma_len_sq_nonneg(q);
                }
                return q;
            }
            tries = tries + 1;
        }
        let c = Vec3::new(0, 0, 0);
        assert(vlen_sq(c) == 0) by {
            assert(floor_div(0, ONE as int) == 0);
        }
        c
    }

    /// A direction drawn from the unit sphere: a point of the unit ball
    /// scaled to length 1.
    pub fn random_unit_vector(rng: &mut StdRng) -> (r: Vec3)
        ensures
            exists|p: Vec3| 0 <= #[trigger] vlen_sq(p) < ONE && r == vunit(p),
    {
        let p = Vec3::random_in_unit_sphere(rng);
        Vec3::unit_vector(&p)
    }

    /// A point of the unit ball on the same side of the surface as `normal`.
    pub fn random_in_hemisphere(rng: &mut StdRng, normal: &Vec3) -> (r: Vec3)
        ensures
            exists|p: Vec3|
                0 <= #[trigger] vlen_sq(p) < ONE && r == (if vdot(p, *normal) > 0 {
                    p
                } else {
                    vneg(p)
                }),
    {
        let in_unit_sphere = Vec3::random_in_unit_sphere(rng);
        if Vec3::dot(&in_unit_sphere, normal) > 0 {
            in_unit_sphere
        } else {
            in_unit_sphere.neg()
        }
    }

    /// The rejection step of disk sampling: the point `(x, y, 0)` if it lies
    /// inside the unit disk, else nothing.
    pub fn disk_point(x: i64, y: i64) -> (r: Option<Vec3>)
        ensures
            r == (if vlen_sq(vec3(x, y, 0)) < ONE { Some(vec3(x, y, 0)) } else { None::<Vec3> }),
    {
        let p = Vec3::new(x, y, 0);
        if p.len_squared() < ONE {
            Some(p)
        } else {
            None
        }
    }

    /// A point drawn from inside the unit disk in the plane `z = 0`: points
    /// of the square `[-1, 1)^2` are drawn until `disk_point` accepts one.
    /// After `MAX_TRIES` rejections the centre is returned.
    pub fn random_in_unit_disk(rng: &mut StdRng) -> (r: Vec3)
        ensures
            0 <= vlen_sq(r) < ONE,
            r.z == 0,
    {
        let mut tries: u32 = 0;
        while tries < MAX_TRIES
            decreases MAX_TRIES - tries,
        {
            let x = random_between(rng, -ONE, ONE);
            let y = random_between(rng, -ONE, ONE);
            if let Some(q) = Vec3::disk_point(x, y) {
                proof {
                    lemma_len_sq_nonneg(q);
                }
                return q;
            }
            tries = tries + 1;
        }
        let c = Vec3::new(0, 0, 0);
        assert(vlen_sq(c) == 0) by {
            assert(floor_div(0, ONE as int) == 0);
        }
        c
    }
}

} // verus!

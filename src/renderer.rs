//! Path tracing: per-pixel sampling, recursive light transport, and the
//! encoding of the accumulated image.
//!
//! Rows are emitted top to bottom: the `k`-th row emitted is image row
//! `height - 1 - k`, row 0 being the bottom of the viewport.

use vstd::prelude::*;
use vstd::arithmetic::div_mod::{lemma_div_by_multiple, lemma_div_multiples_vanish, lemma_fundamental_div_mod, lemma_div_pos_is_pos, lemma_div_is_ordered_by_denominator, lemma_div_is_ordered};
use rand::rngs::StdRng;
use crate::camera::{Camera, camera_ray};
use crate::fixed::{
    floor_div, fx_add, fx_sub, fx_mul, fx_div, fx_min, fx_sqrt, ONE, HALF, add_fx, sub_fx, mul_fx,
    div_fx, min_fx, sqrt_fx, floor_div_wide,
};
use crate::material::{Draw, material_scatter, valid_draw, white};
use crate::ppm::{ppm_header, pixel_line, push_header, push_pixel};
use crate::random::{seeded_rng, random_unit_interval};
use crate::ray::Ray;
use crate::scene::{Object, Scene, scene_hit};
use crate::vec3::{Vec3, Color, vec3, vadd, vscale, vmul, vunit, vlen_sq};

verus! {

/// The lower end of the search along a ray: small enough to miss nothing,
/// large enough that a scattered ray does not meet its own starting surface
/// again through rounding (0.001).
pub const T_MIN: i64 = 1_000_000;

/// The upper end of the search along a ray.
pub const T_INFINITY: i64 = i64::MAX;

/// Green channel of the sky at the zenith (0.7).
pub const SKY_GREEN: i64 = 700_000_000;

/// Largest channel value kept after gamma (0.999).
pub const CHANNEL_MAX: i64 = 999_000_000;

pub open spec fn black() -> Color {
    vec3(0, 0, 0)
}

/// The colour of the sky straight up.
pub open spec fn sky_blue() -> Color {
    vec3(HALF, SKY_GREEN, ONE)
}

/// The sky seen along a direction whose unit vector has height `y`: white
/// blended into sky blue by `t = (y + 1) / 2`.
pub open spec fn sky_at(y: i64) -> Color {
    let t = fx_mul(HALF, fx_add(y, ONE));
    vadd(vscale(fx_sub(ONE, t), white()), vscale(t, sky_blue()))
}

/// The sky seen along `dir`.
pub open spec fn sky(dir: Vec3) -> Color {
    sky_at(vunit(dir).y)
}

/// The colour light along `r` brings back with `depth` bounces left, the
/// `k`-th bounce scattering by the draw `tape[k]`: black once the budget is
/// spent; the sky on a miss; black when the surface hit absorbs; otherwise
/// the attenuation times what the scattered ray brings back.
pub open spec fn traced_color(objs: Seq<Object>, r: Ray, depth: nat, tape: Seq<Draw>) -> Color
    decreases depth,
{
    if depth == 0 {
        black()
    } else {
        match scene_hit(objs, r, T_MIN, T_INFINITY) {
            None => sky(r.dir),
            Some((h, m)) => match material_scatter(m, r, h, tape[0]) {
                None => black(),
                Some((s, att)) => vmul(att, traced_color(objs, s, (depth - 1) as nat, tape.drop_first())),
            },
        }
    }
}

/// Whether every draw of `tape` is one the random source can give.
pub open spec fn valid_tape(tape: Seq<Draw>) -> bool {
    forall|k: int| 0 <= k < tape.len() ==> valid_draw(#[trigger] tape[k])
}

/// `c` is a colour that light along `r` can bring back with `depth` bounces
/// left, for some outcome of the random draws.
pub open spec fn possible_color(objs: Seq<Object>, r: Ray, depth: nat, c: Color) -> bool {
    exists|tape: Seq<Draw>| tape.len() == depth && valid_tape(tape) && c == #[trigger] traced_color(objs, r, depth, tape)
}

/// Screen coordinate of pixel index `i` plus `jitter` in `[0, 1)`, over an
/// extent of `extent` pixels: `(i + jitter) / (extent - 1)`.
pub open spec fn screen_coord(i: u32, jitter: i64, extent: u32) -> i64 {
    fx_div((i * ONE + jitter) as i64, ((extent - 1) * ONE) as i64)
}

/// Saturating sum of colours, in order.
pub open spec fn sum_colors(cs: Seq<Color>) -> Color
    decreases cs.len(),
{
    if cs.len() == 0 {
        black()
    } else {
        vadd(sum_colors(cs.drop_last()), cs.last())
    }
}

/// Mean of a channel sum over `n` samples, rounded down; 0 for no samples.
pub open spec fn average(sum: i64, n: u32) -> i64 {
    if n == 0 {
        0
    } else {
        floor_div(sum as int, n as int) as i64
    }
}

/// The byte of one channel: the mean, gamma 2 (square root), clamped to
/// `[0, 0.999]`, times 256, truncated.
pub open spec fn channel_byte(sum: i64, n: u32) -> u8 {
    let g = fx_min(fx_sqrt(average(sum, n)), CHANNEL_MAX);
    ((256 * g) / (ONE as int)) as u8
}

/// The PPM line of a pixel whose samples add up to `c`.
pub open spec fn color_line(c: Color, n: u32) -> Seq<u8> {
    pixel_line(channel_byte(c.x, n) as nat, channel_byte(c.y, n) as nat, channel_byte(c.z, n) as nat)
}

/// The PPM lines of a row of pixels.
pub open spec fn row_text(row: Seq<Color>, n: u32) -> Seq<u8>
    decreases row.len(),
{
    if row.len() == 0 {
        Seq::empty()
    } else {
        row_text(row.drop_last(), n) + color_line(row.last(), n)
    }
}

/// The PPM lines of rows of pixels, in order.
pub open spec fn rows_text(rows: Seq<Vec<Color>>, n: u32) -> Seq<u8>
    decreases rows.len(),
{
    if rows.len() == 0 {
        Seq::empty()
    } else {
        rows_text(rows.drop_last(), n) + row_text(rows.last()@, n)
    }
}

/// Settings of a render.
#[derive(Clone, Copy, Debug, PartialEq, Eq, Structural)]
pub struct Renderer {
    pub width: u32,
    pub height: u32,
    pub samples_per_pixel: u32,
    pub max_depth: u32,
}

impl Renderer {
    /// `c` is the colour one sample of pixel `(column, row)` can bring back:
    /// through the screen point jittered within the pixel, from some point of
    /// the lens.
    pub open spec fn sample_outcome(self, cam: Camera, objs: Seq<Object>, column: u32, row: u32, c: Color) -> bool {
        exists|jx: i64, jy: i64, disk: Vec3|
            0 <= jx < ONE && 0 <= jy < ONE && 0 <= vlen_sq(disk) < ONE && disk.z == 0
                && #[trigger] possible_color(
                objs,
                camera_ray(cam, screen_coord(column, jx, self.width), screen_coord(row, jy, self.height), disk),
                self.max_depth as nat,
                c,
            )
    }

    /// `c` is a sum of `samples_per_pixel` samples of pixel `(column, row)`.
    pub open spec fn pixel_outcome(self, cam: Camera, objs: Seq<Object>, column: u32, row: u32, c: Color) -> bool {
        exists|cs: Seq<Color>|
            cs.len() == self.samples_per_pixel && (forall|k: int|
                0 <= k < cs.len() ==> self.sample_outcome(cam, objs, column, row, #[trigger] cs[k]))
                && c == #[trigger] sum_colors(cs)
    }

    /// Settings for a `width` by `height` image, `samples_per_pixel` rays per
    /// pixel, each followed for at most `max_depth` bounces.
    pub fn new(width: u32, height: u32, samples_per_pixel: u32, max_depth: u32) -> (r: Renderer)
        ensures
            r == (Renderer { width, height, samples_per_pixel, max_depth }),
    {
        Renderer { width, height, samples_per_pixel, max_depth }
    }

    /// The colour light along `r` brings back with `depth` bounces left:
    /// black with no bounces left, the sky when nothing is hit, and otherwise
    /// `traced_color` for the draws the random source gave.
    pub fn ray_color(r: &Ray, world: &Scene, depth: u32, rng: &mut StdRng) -> (c: Color)
        ensures
            possible_color(world.objects(), *r, depth as nat, c),
            depth == 0 ==> c == black(),
            depth > 0 && scene_hit(world.objects(), *r, T_MIN, T_INFINITY) is None ==> c == sky(r.dir),
        decreases depth,
    {
        // The bounce budget is spent: no more light is gathered.
        if depth == 0 {
            proof {
                let tape = Seq::<Draw>::empty();
                assert(black() == traced_color(world.objects(), *r, 0, tape));
            }
            return Vec3::new(0, 0, 0);
        }
        let ghost objs = world.objects();
        let ghost blank = Draw { point: vec3(0, 0, 0), level: 0 };
        proof {
            assert(vlen_sq(blank.point) == 0) by {
                assert(floor_div(0, ONE as int) == 0);
            }
        }
        if let Some((rec, material)) = world.hit(r, T_MIN, T_INFINITY) {
            let out = material.scatter(r, &rec, rng);
            let ghost d = choose|d: Draw| valid_draw(d) && out == #[trigger] material_scatter(material, *r, rec, d);
            if let Some((scattered, attenuation)) = out {
                let c2 = Renderer::ray_color(&scattered, world, depth - 1, rng);
                proof {
                    let rest = choose|t: Seq<Draw>|
                        t.len() == depth - 1 && valid_tape(t) && c2 == #[trigger] traced_color(objs, scattered, (depth - 1) as nat, t);
                    let tape = seq![d] + rest;
                    assert(tape.drop_first() == rest);
                    assert(valid_tape(tape));
                    assert(vmul(attenuation, c2) == traced_color(objs, *r, depth as nat, tape));
                }
                return attenuation.mul(c2);
            } else {
                proof {
                    let tape = Seq::new(depth as nat, |k: int| if k == 0 { d } else { blank });
                    assert(valid_tape(tape));
                    assert(black() == traced_color(objs, *r, depth as nat, tape));
                }
                return Vec3::new(0, 0, 0);
            }
        }
        proof {
            let tape = Seq::new(depth as nat, |k: int| blank);
            assert(valid_tape(tape));
            assert(sky(r.dir) == traced_color(objs, *r, depth as nat, tape));
        }
        let unit_dir = Vec3::unit_vector(r.dir());
        let t = mul_fx(HALF, add_fx(unit_dir.y(), ONE));
        let start_value = Vec3::new(ONE, ONE, ONE);
        let end_value = Vec3::new(HALF, SKY_GREEN, ONE);
        start_value.scale(sub_fx(ONE, t)).add(end_value.scale(t))
    }

    /// The colours of `samples_per_pixel` rays through pixel `(column, row)`,
    /// each jittered uniformly within the pixel, added up.
    pub fn generate_pixel_color(&self, column: u32, row: u32, camera: &Camera, world: &Scene, rng: &mut StdRng) -> (c: Color)
        ensures
            self.pixel_outcome(*camera, world.objects(), column, row, c),
    {
        let ghost objs = world.objects();
        let ghost mut cs: Seq<Color> = Seq::empty();
        let mut sum = Vec3::new(0, 0, 0);
        let mut k: u32 = 0;
        while k < self.samples_per_pixel
            invariant
                k <= self.samples_per_pixel,
                objs == world.objects(),
                cs.len() == k,
                forall|i: int| 0 <= i < cs.len() ==> self.sample_outcome(*camera, objs, column, row, #[trigger] cs[i]),
                sum == sum_colors(cs),
            decreases self.samples_per_pixel - k,
        {
            let jx = random_unit_interval(rng);
            let jy = random_unit_interval(rng);
            let u = div_fx(column as i64 * ONE + jx, (self.width as i64 - 1) * ONE);
            let v = div_fx(row as i64 * ONE + jy, (self.height as i64 - 1) * ONE);
            let r = camera.get_ray(u, v, rng);
            let c = Renderer::ray_color(&r, world, self.max_depth, rng);
            proof {
                let disk = choose|disk: Vec3|
                    0 <= #[trigger] vlen_sq(disk) < ONE && disk.z == 0 && r == camera_ray(*camera, u, v, disk);
                assert(u == screen_coord(column, jx, self.width));
                assert(v == screen_coord(row, jy, self.height));
                assert(possible_color(
                    objs,
                    camera_ray(*camera, screen_coord(column, jx, self.width), screen_coord(row, jy, self.height), disk),
                    self.max_depth as nat,
                    c,
                ));
                let prev = cs;
                cs = cs.push(c);
                assert(cs.drop_last() == prev);
                assert forall|i: int| 0 <= i < cs.len() implies self.sample_outcome(*camera, objs, column, row, #[trigger] cs[i]) by {
                    if i < prev.len() {
                        assert(cs[i] == prev[i]);
                    }
                }
            }
            sum = sum.add(c);
            k = k + 1;
        }
        sum
    }

    /// The `k`-th row emitted, image row `height - 1 - k`, traced with a
    /// random source seeded by `seed` and that row.
    pub fn generate_row(&self, k: u32, camera: &Camera, world: &Scene, seed: u64) -> (pixels: Vec<Color>)
        requires
            k < self.height,
        ensures
            pixels@.len() == self.width,
            forall|i: int|
                0 <= i < self.width ==> self.pixel_outcome(
                    *camera,
                    world.objects(),
                    i as u32,
                    (self.height - 1 - k) as u32,
                    #[trigger] pixels@[i],
                ),
    {
        let row = self.height - 1 - k;
        let mut rng = seeded_rng(seed ^ (row as u64));
        let mut pixels: Vec<Color> = Vec::new();
        let mut i: u32 = 0;
        while i < self.width
            invariant
                i <= self.width,
                row == self.height - 1 - k,
                pixels@.len() == i,
                forall|j: int| 0 <= j < i ==> self.pixel_outcome(*camera, world.objects(), j as u32, row, #[trigger] pixels@[j]),
            decreases self.width - i,
        {
            let c = self.generate_pixel_color(i, row, camera, world, &mut rng);
            pixels.push(c);
            i = i + 1;
        }
        pixels
    }

    /// Every row, in the order they are emitted: top row first.
    pub fn generate_pixels(&self, camera: &Camera, world: &Scene, seed: u64) -> (rows: Vec<Vec<Color>>)
        ensures
            rows@.len() == self.height,
            forall|k: int|
                0 <= k < self.height ==> (#[trigger] rows@[k])@.len() == self.width,
            forall|k: int, i: int|
                0 <= k < self.height && 0 <= i < self.width ==> self.pixel_outcome(
                    *camera,
                    world.objects(),
                    i as u32,
                    (self.height - 1 - k) as u32,
                    #[trigger] rows@[k]@[i],
                ),
    {
        let mut rows: Vec<Vec<Color>> = Vec::new();
        let mut k: u32 = 0;
        while k < self.height
            invariant
                k <= self.height,
                rows@.len() == k,
                forall|j: int| 0 <= j < k ==> (#[trigger] rows@[j])@.len() == self.width,
                forall|j: int, i: int|
                    0 <= j < k && 0 <= i < self.width ==> self.pixel_outcome(
                        *camera,
                        world.objects(),
                        i as u32,
                        (self.height - 1 - j) as u32,
                        #[trigger] rows@[j]@[i],
                    ),
            decreases self.height - k,
        {
            let row = self.generate_row(k, camera, world, seed);
            rows.push(row);
            k = k + 1;
        }
        rows
    }

    /// The byte of one channel whose samples add up to `sum`.
    pub fn channel_byte(&self, sum: i64) -> (b: u8)
        ensures
            b == channel_byte(sum, self.samples_per_pixel),
    {
        quantize(sum, self.samples_per_pixel)
    }

    /// Appends the PPM line of a pixel whose samples add up to `color`.
    pub fn write_color(&self, out: &mut Vec<u8>, color: &Color)
        ensures
            final(out)@ == old(out)@ + color_line(*color, self.samples_per_pixel),
    {
        write_color(out, color, self.samples_per_pixel);
    }

    /// The PPM image: the header, then one line per pixel, row by row.
    pub fn encode_image(&self, pixels: &Vec<Vec<Color>>) -> (out: Vec<u8>)
        ensures
            out@ == ppm_header(self.width as nat, self.height as nat) + rows_text(pixels@, self.samples_per_pixel),
    {
        let n = self.samples_per_pixel;
        let mut out: Vec<u8> = Vec::new();
        push_header(&mut out, self.width, self.height);
        let ghost header = out@;
        let mut k: usize = 0;
        while k < pixels.len()
            invariant
                k <= pixels@.len(),
                n == self.samples_per_pixel,
                header == ppm_header(self.width as nat, self.height as nat),
                out@ == header + rows_text(pixels@.take(k as int), n),
            decreases pixels@.len() - k,
        {
            let row = &pixels[k];
            let ghost before = out@;
            let mut i: usize = 0;
            while i < row.len()
                invariant
                    i <= row@.len(),
                    row == pixels@[k as int],
                    n == self.samples_per_pixel,
                    out@ == before + row_text(row@.take(i as int), n),
                decreases row@.len() - i,
            {
                self.write_color(&mut out, &row[i]);
                proof {
                    assert(row@.take(i + 1).drop_last() == row@.take(i as int));
                }
                i = i + 1;
            }
            proof {
                assert(row@.take(i as int) == row@);
                assert(pixels@.take(k + 1).drop_last() == pixels@.take(k as int));
                assert(rows_text(pixels@.take(k + 1), n) == rows_text(pixels@.take(k as int), n) + row_text(row@, n));
            }
            k = k + 1;
        }
        assert(pixels@.take(k as int) == pixels@);
        out
    }
}

/// The byte of one channel whose `n` samples add up to `sum`: the mean,
/// gamma 2, clamped to `[0, 0.999]`, times 256, truncated.
pub fn quantize(sum: i64, n: u32) -> (b: u8)
    ensures
        b == channel_byte(sum, n),
{
    let avg: i64 = if n == 0 {
        0
    } else {
        proof {
            lemma_average_bounds(sum as int, n as int);
        }
        floor_div_wide(sum as i128, n as i128) as i64
    };
    let g = min_fx(sqrt_fx(avg), CHANNEL_MAX);
    proof {
        lemma_byte_bound(g as int);
    }
    ((256 * g as i128) / (ONE as i128)) as u8
}

/// Appends the PPM line of a pixel whose `samples_per_pixel` samples add up
/// to `color`.
pub fn write_color(out: &mut Vec<u8>, color: &Color, samples_per_pixel: u32)
    ensures
        final(out)@ == old(out)@ + color_line(*color, samples_per_pixel),
{
    let r = quantize(color.x, samples_per_pixel);
    let g = quantize(color.y, samples_per_pixel);
    let b = quantize(color.z, samples_per_pixel);
    push_pixel(out, r, g, b);
}

/// The mean of a channel sum lies between 0 and the sum.
proof fn lemma_average_bounds(sum: int, n: int)
    requires
        n >= 1,
    ensures
        sum >= 0 ==> 0 <= sum / n <= sum,
        sum < 0 ==> sum <= sum / n < 0,
{
    lemma_fundamental_div_mod(sum, n);
    let q = sum / n;
    let r = sum % n;
    if sum >= 0 {
        lemma_div_pos_is_pos(sum, n);
        lemma_div_is_ordered_by_denominator(sum, 1, n);
    } else {
        assert(sum <= q < 0) by (nonlinear_arith)
            requires
                sum == n * q + r,
                0 <= r < n,
                n >= 1,
                sum < 0,
        ;
    }
}

/// A clamped channel scales to a byte.
proof fn lemma_byte_bound(g: int)
    requires
        0 <= g <= CHANNEL_MAX,
    ensures
        0 <= (256 * g) / (ONE as int) <= 255,
{
    lemma_div_is_ordered(256 * g, 256 * CHANNEL_MAX, ONE as int);
    lemma_div_pos_is_pos(256 * g, ONE as int);
    lemma_fundamental_div_mod(256 * CHANNEL_MAX, ONE as int);
}

/// `m` samples, all `c`.
pub open spec fn repeated(c: Color, m: nat) -> Seq<Color> {
    Seq::new(m, |k: int| c)
}

proof fn lemma_sum_repeated(c: Color, m: nat, n: nat)
    requires
        m <= n,
        0 <= c.x && n * c.x <= i64::MAX,
        0 <= c.y && n * c.y <= i64::MAX,
        0 <= c.z && n * c.z <= i64::MAX,
    ensures
        sum_colors(repeated(c, m)) == vec3((m * c.x) as i64, (m * c.y) as i64, (m * c.z) as i64),
    decreases m,
{
    assert(m * c.x <= n * c.x && m * c.y <= n * c.y && m * c.z <= n * c.z) by (nonlinear_arith)
        requires
            m <= n,
            0 <= c.x,
            0 <= c.y,
            0 <= c.z,
    ;
    assert(0 <= m * c.x && 0 <= m * c.y && 0 <= m * c.z) by (nonlinear_arith)
        requires
            0 <= c.x,
            0 <= c.y,
            0 <= c.z,
    ;
    if m > 0 {
        let s = repeated(c, m);
        assert(s.drop_last() == repeated(c, (m - 1) as nat));
        assert(s.last() == c);
        lemma_sum_repeated(c, (m - 1) as nat, n);
        assert(sum_colors(s) == vadd(sum_colors(s.drop_last()), c));
        assert(0 <= (m - 1) * c.x && 0 <= (m - 1) * c.y && 0 <= (m - 1) * c.z) by (nonlinear_arith)
            requires
                m >= 1,
                0 <= c.x,
                0 <= c.y,
                0 <= c.z,
        ;
        assert((m - 1) * c.x + c.x == m * c.x) by (nonlinear_arith);
        assert((m - 1) * c.y + c.y == m * c.y) by (nonlinear_arith);
        assert((m - 1) * c.z + c.z == m * c.z) by (nonlinear_arith);
        assert(sum_colors(s) == vec3((m * c.x) as i64, (m * c.y) as i64, (m * c.z) as i64));
    } else {
        assert(sum_colors(repeated(c, m)) == black());
        assert(m * c.x == 0 && m * c.y == 0 && m * c.z == 0) by (nonlinear_arith)
            requires
                m == 0,
        ;
    }
}

/// When every sample of a pixel brings back the same colour, more samples do
/// not change the pixel: `n` samples of `c`, summed and encoded over `n`,
/// give the line that the single sample `c` gives (while the sum does not
/// saturate).
pub proof fn lemma_constant_samples(c: Color, n: u32)
    requires
        n >= 1,
        0 <= c.x && n * c.x <= i64::MAX,
        0 <= c.y && n * c.y <= i64::MAX,
        0 <= c.z && n * c.z <= i64::MAX,
    ensures
        color_line(sum_colors(repeated(c, n as nat)), n) == color_line(c, 1),
{
    lemma_sum_repeated(c, n as nat, n as nat);
    assert((n * c.x) / (n as int) == c.x && (n * c.y) / (n as int) == c.y && (n * c.z) / (n as int) == c.z) by {
        vstd::arithmetic::div_mod::lemma_div_multiples_vanish(c.x as int, n as int);
        vstd::arithmetic::div_mod::lemma_div_multiples_vanish(c.y as int, n as int);
        vstd::arithmetic::div_mod::lemma_div_multiples_vanish(c.z as int, n as int);
    }
    assert(c.x as int / 1 == c.x && c.y as int / 1 == c.y && c.z as int / 1 == c.z);
}

/// The sky colour at a height in `[-1, 1]` has channels in `[0, 1]`.
proof fn lemma_sky_bounds(y: i64)
    requires
        -ONE <= y <= ONE,
    ensures
        0 <= sky_at(y).x <= ONE,
        0 <= sky_at(y).y <= ONE,
        0 <= sky_at(y).z <= ONE,
{
    let o = ONE as int;
    let t = fx_mul(HALF, fx_add(y, ONE));
    lemma_div_is_ordered(0, HALF * (y + ONE), o);
    lemma_div_is_ordered(HALF * (y + ONE), HALF * (2 * o), o);
    lemma_div_by_multiple(0, o);
    assert(HALF * (2 * o) == o * o);
    lemma_div_by_multiple(o, o);
    assert(0 <= t <= ONE);
    let s = fx_sub(ONE, t);
    assert(0 <= s <= ONE);
    lemma_div_multiples_vanish(s as int, o);
    assert(s * ONE == o * s) by (nonlinear_arith)
        requires
            o == ONE,
    ;
    assert(fx_mul(s, ONE) == s);
    assert(t * ONE == o * t) by (nonlinear_arith)
        requires
            o == ONE,
    ;
    lemma_div_multiples_vanish(t as int, o);
    assert(fx_mul(t, ONE) == t);
    lemma_div_is_ordered(0, t * HALF, o);
    lemma_div_is_ordered(t * HALF, o * HALF, o);
    lemma_div_multiples_vanish(HALF as int, o);
    lemma_div_is_ordered(0, t * SKY_GREEN, o);
    lemma_div_is_ordered(t * SKY_GREEN, o * SKY_GREEN, o);
    lemma_div_multiples_vanish(SKY_GREEN as int, o);
    assert(0 <= t * HALF <= o * HALF && 0 <= t * SKY_GREEN <= o * SKY_GREEN) by (nonlinear_arith)
        requires
            0 <= t <= o,
    ;
    assert(fx_mul(t, HALF) <= HALF && fx_mul(t, SKY_GREEN) <= SKY_GREEN);
    assert(fx_mul(t, HALF) <= t && fx_mul(t, SKY_GREEN) <= t) by {
        lemma_div_is_ordered(t * HALF, t * o, o);
        lemma_div_is_ordered(t * SKY_GREEN, t * o, o);
        assert(t * HALF <= t * o && t * SKY_GREEN <= t * o) by (nonlinear_arith)
            requires
                0 <= t,
                o == ONE,
        ;
        assert(t * o == o * t) by (nonlinear_arith);
    }
}

/// In an empty scene every sample is the sky along its ray. So when every
/// sampled ray's unit direction has the same height `y0` in `[-1, 1]`, the
/// sum of `n` samples is exactly `n` times that one sky colour, and more
/// samples do not change the average.
pub proof fn lemma_empty_scene_pixel(rays: Seq<Ray>, cs: Seq<Color>, depth: nat, y0: i64)
    requires
        depth > 0,
        rays.len() == cs.len(),
        cs.len() <= u32::MAX,
        -ONE <= y0 <= ONE,
        forall|k: int|
            0 <= k < cs.len() ==> possible_color(Seq::empty(), rays[k], depth, #[trigger] cs[k]),
        forall|k: int| 0 <= k < rays.len() ==> vunit((#[trigger] rays[k]).dir).y == y0,
    ensures
        sum_colors(cs) == vec3(
            (cs.len() * sky_at(y0).x) as i64,
            (cs.len() * sky_at(y0).y) as i64,
            (cs.len() * sky_at(y0).z) as i64,
        ),
{
    let c = sky_at(y0);
    let n = cs.len();
    assert forall|k: int| 0 <= k < n implies cs[k] == c by {
        assert(possible_color(Seq::empty(), rays[k], depth, cs[k]));
        let tape = choose|tape: Seq<Draw>|
            tape.len() == depth && valid_tape(tape) && cs[k] == #[trigger] traced_color(Seq::empty(), rays[k], depth, tape);
        assert(scene_hit(Seq::<Object>::empty(), rays[k], T_MIN, T_INFINITY) is None);
        assert(vunit(rays[k].dir).y == y0);
    }
    assert(cs == repeated(c, n));
    lemma_sky_bounds(y0);
    assert(n * c.x <= i64::MAX && n * c.y <= i64::MAX && n * c.z <= i64::MAX) by (nonlinear_arith)
        requires
            n <= 0xffff_ffff,
            0 <= c.x <= 1_000_000_000,
            0 <= c.y <= 1_000_000_000,
            0 <= c.z <= 1_000_000_000,
    ;
    lemma_sum_repeated(c, n, n);
}

} // verus!

use rand::rngs::StdRng;
use rand::SeedableRng;
use raytracer::fixed::{HALF, ONE};
use raytracer::material::Material;
use raytracer::renderer::{quantize, write_color};
use raytracer::{Camera, Ray, Renderer, Scene, Shape, Vec3};

fn empty_ray_color(dir: Vec3) -> Vec3 {
    let mut rng = StdRng::seed_from_u64(0);
    let r = Ray::new(Vec3::new(0, 0, 0), dir);
    Renderer::ray_color(&r, &Scene::new(), 50, &mut rng)
}

fn glass_scene() -> Scene {
    let mut world = Scene::new();
    world.add(
        Shape::Sphere { center: Vec3::new(0, -100 * ONE - HALF, -ONE), radius: 100 * ONE },
        Material::Lambertian { albedo: Vec3::new(800_000_000, 800_000_000, 0) },
    );
    world.add(
        Shape::Sphere { center: Vec3::new(0, 0, -ONE), radius: HALF },
        Material::Dielectric { ir: ONE + HALF },
    );
    world
}

fn front_camera() -> Camera {
    Camera::new(
        Vec3::new(0, 0, 0),
        Vec3::new(0, 0, -ONE),
        Vec3::new(0, ONE, 0),
        ONE,
        ONE,
        0,
        ONE,
    )
}

#[test]
fn sky_straight_up_is_sky_blue() {
    assert_eq!(empty_ray_color(Vec3::new(0, ONE, 0)), Vec3::new(HALF, 700_000_000, ONE));
}

#[test]
fn sky_straight_down_is_white() {
    assert_eq!(empty_ray_color(Vec3::new(0, -ONE, 0)), Vec3::new(ONE, ONE, ONE));
}

#[test]
fn sky_gradient_in_between() {
    // Unit direction (0.6, 0.8, 0): t = 0.9, 0.1 white + 0.9 sky blue.
    assert_eq!(empty_ray_color(Vec3::new(3 * ONE, 4 * ONE, 0)), Vec3::new(550_000_000, 730_000_000, ONE));
    // Horizontal: t = 0.5.
    assert_eq!(empty_ray_color(Vec3::new(0, 0, -7 * ONE)), Vec3::new(750_000_000, 850_000_000, ONE));
}

#[test]
fn no_bounces_left_is_black() {
    let world = glass_scene();
    let mut rng = StdRng::seed_from_u64(4);
    for dir in [Vec3::new(0, 0, -ONE), Vec3::new(0, ONE, 0), Vec3::new(ONE, -ONE, 0)] {
        let r = Ray::new(Vec3::new(0, 0, 0), dir);
        assert_eq!(Renderer::ray_color(&r, &world, 0, &mut rng), Vec3::new(0, 0, 0));
    }
}

#[test]
fn one_bounce_off_a_surface_is_black() {
    let mut world = Scene::new();
    world.add(
        Shape::Sphere { center: Vec3::new(0, 0, -ONE), radius: HALF },
        Material::Lambertian { albedo: Vec3::new(HALF, HALF, HALF) },
    );
    let mut rng = StdRng::seed_from_u64(4);
    let r = Ray::new(Vec3::new(0, 0, 0), Vec3::new(0, 0, -ONE));
    assert_eq!(Renderer::ray_color(&r, &world, 1, &mut rng), Vec3::new(0, 0, 0));
}

#[test]
fn mirror_reflects_the_sky_behind() {
    let mut world = Scene::new();
    world.add(
        Shape::Sphere { center: Vec3::new(0, 0, -ONE), radius: HALF },
        Material::Metal { albedo: Vec3::new(HALF, HALF, HALF), fuzz: 0 },
    );
    let mut rng = StdRng::seed_from_u64(4);
    let r = Ray::new(Vec3::new(0, 0, 0), Vec3::new(0, 0, -ONE));
    // Reflected straight back along +z: the horizontal sky (0.75, 0.85, 1), halved.
    assert_eq!(Renderer::ray_color(&r, &world, 2, &mut rng), Vec3::new(375_000_000, 425_000_000, HALF));
}

#[test]
fn channel_bytes() {
    let one = Renderer::new(2, 1, 1, 5);
    assert_eq!(one.channel_byte(ONE), 255);
    assert_eq!(one.channel_byte(2 * ONE), 255);
    assert_eq!(one.channel_byte(ONE / 4), 128);
    assert_eq!(one.channel_byte(0), 0);
    assert_eq!(one.channel_byte(-ONE), 0);
    let four = Renderer::new(2, 1, 4, 5);
    assert_eq!(four.channel_byte(ONE), 128);
    let none = Renderer::new(2, 1, 0, 5);
    assert_eq!(none.channel_byte(ONE), 0);
}

#[test]
fn constant_samples_encode_alike() {
    let c = Vec3::new(ONE / 4, 640_000_000, 90_000_000);
    let mut single = Vec::new();
    Renderer::new(1, 1, 1, 5).write_color(&mut single, &c);
    assert_eq!(String::from_utf8(single.clone()).unwrap(), "128 204 76\n");
    for n in [2u32, 7, 64, 500] {
        let sum = Vec3::new(c.x * n as i64, c.y * n as i64, c.z * n as i64);
        let mut many = Vec::new();
        Renderer::new(1, 1, n, 5).write_color(&mut many, &sum);
        assert_eq!(many, single, "{} samples", n);
    }
}

#[test]
fn encode_image_writes_header_then_rows() {
    let r = Renderer::new(2, 2, 1, 5);
    let pixels = vec![
        vec![Vec3::new(ONE, 0, ONE / 4), Vec3::new(0, 0, 0)],
        vec![Vec3::new(ONE / 4, ONE / 4, ONE / 4), Vec3::new(ONE, ONE, ONE)],
    ];
    let text = String::from_utf8(r.encode_image(&pixels)).unwrap();
    assert_eq!(text, "P3\n2 2\n255\n255 0 128\n0 0 0\n128 128 128\n255 255 255\n");
}

#[test]
fn pixels_come_row_by_row_top_first() {
    let world = glass_scene();
    let cam = front_camera();
    let r = Renderer::new(3, 2, 2, 4);
    let rows = r.generate_pixels(&cam, &world, 42);
    assert_eq!(rows.len(), 2);
    for (k, row) in rows.iter().enumerate() {
        assert_eq!(row.len(), 3);
        assert_eq!(*row, r.generate_row(k as u32, &cam, &world, 42));
    }
    let text = r.encode_image(&rows);
    assert_eq!(text.iter().filter(|b| **b == b'\n').count(), 3 + 6);
}

#[test]
fn top_row_sees_more_sky_blue() {
    let r = Renderer::new(2, 2, 4, 3);
    let rows = r.generate_pixels(&front_camera(), &Scene::new(), 9);
    // Sky gets bluer (less red) upward; the first row emitted is the top.
    assert!(rows[0][0].x < rows[1][0].x);
}

fn pixel_mean(samples: u32, seed: u64) -> f64 {
    let world = glass_scene();
    let cam = front_camera();
    let r = Renderer::new(5, 5, samples, 8);
    let mut rng = StdRng::seed_from_u64(seed);
    let sum = r.generate_pixel_color(2, 2, &cam, &world, &mut rng);
    (sum.x + sum.y + sum.z) as f64 / (samples as f64 * ONE as f64)
}

fn spread(samples: u32) -> f64 {
    let means: Vec<f64> = (0..24).map(|seed| pixel_mean(samples, 1000 + seed)).collect();
    let avg = means.iter().sum::<f64>() / means.len() as f64;
    means.iter().map(|m| (m - avg) * (m - avg)).sum::<f64>() / means.len() as f64
}

#[test]
fn more_samples_reduce_variance() {
    let one = spread(1);
    let many = spread(64);
    assert!(one > 0.0);
    assert!(many < one / 4.0, "variance {} with 64 samples, {} with 1", many, one);
}

#[test]
fn quantize_averages_then_applies_gamma() {
    assert_eq!(quantize(3 * ONE / 4, 3), 128);
    assert_eq!(quantize(-5, 3), 0);
    assert_eq!(quantize(i64::MAX, 1), 255);
    assert_eq!(quantize(9 * ONE / 100, 1), 76);
    let mut out = b"x".to_vec();
    write_color(&mut out, &Vec3::new(4 * ONE, ONE, 0), 4);
    assert_eq!(out, b"x255 128 0\n".to_vec());
}

#[test]
fn empty_scene_pixel_is_samples_times_one_sky() {
    // A one-pixel image: every sample goes through the same screen point, so
    // every ray is the same and so is every sample.
    let cam = front_camera();
    let r = cam.ray_through(0, 0, &Vec3::new(0, 0, 0));
    let sky = empty_ray_color(r.dir);
    for n in [1u32, 3, 50] {
        let renderer = Renderer::new(1, 1, n, 10);
        let mut rng = StdRng::seed_from_u64(n as u64);
        let sum = renderer.generate_pixel_color(0, 0, &cam, &Scene::new(), &mut rng);
        let k = n as i64;
        assert_eq!(sum, Vec3::new(k * sky.x, k * sky.y, k * sky.z));
    }
}

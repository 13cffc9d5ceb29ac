use rand::rngs::StdRng;
use rand::SeedableRng;
use raytracer::fixed::{HALF, ONE};
use raytracer::renderer::{T_INFINITY, T_MIN};
use raytracer::{Dielectric, HitRecord, Lambertian, Material, Metal, Ray, Sphere, Vec3};

fn front_hit() -> (Ray, HitRecord) {
    let sphere = Sphere::new(Vec3::new(0, 0, -ONE), HALF);
    let r = Ray::new(Vec3::new(0, 0, 0), Vec3::new(0, 0, -ONE));
    let rec = sphere.hit(&r, T_MIN, T_INFINITY).unwrap();
    (r, rec)
}

#[test]
fn lambertian_scatters_around_normal() {
    let (_, rec) = front_hit();
    let albedo = Vec3::new(HALF, 300_000_000, ONE);
    let m = Lambertian::new(&albedo);
    let (s, att) = m.scatter_along(&rec, &Vec3::new(ONE, 0, 0));
    assert_eq!(s, Ray::new(Vec3::new(0, 0, -HALF), Vec3::new(ONE, 0, ONE)));
    assert_eq!(att, albedo);
}

#[test]
fn lambertian_degenerate_direction_falls_back_to_normal() {
    let (_, rec) = front_hit();
    let m = Lambertian::new(&Vec3::new(HALF, HALF, HALF));
    let (s, _) = m.scatter_along(&rec, &Vec3::new(0, 0, -ONE));
    assert_eq!(s.dir, Vec3::new(0, 0, ONE));
}

#[test]
fn lambertian_always_scatters() {
    let (r, rec) = front_hit();
    let albedo = Vec3::new(HALF, HALF, HALF);
    let m = Lambertian::new(&albedo);
    let mut rng = StdRng::seed_from_u64(5);
    for _ in 0..50 {
        let (s, att) = m.scatter(&r, &rec, &mut rng).unwrap();
        assert_eq!(att, albedo);
        assert_eq!(s.orig, Vec3::new(0, 0, -HALF));
        assert!(s.dir.z >= -10);
    }
}

#[test]
fn metal_without_fuzz_mirrors_exactly() {
    let (r, rec) = front_hit();
    let albedo = Vec3::new(700_000_000, 600_000_000, HALF);
    let m = Metal::new(&albedo, 0);
    for seed in 0..20 {
        let mut rng = StdRng::seed_from_u64(seed);
        let (s, att) = m.scatter(&r, &rec, &mut rng).unwrap();
        assert_eq!(s.dir, Vec3::new(0, 0, ONE));
        assert_eq!(s.dir, Vec3::reflect(&Vec3::unit_vector(&r.dir), &rec.normal));
        assert_eq!(s.orig, Vec3::new(0, 0, -HALF));
        assert_eq!(att, albedo);
    }
}

#[test]
fn metal_fuzz_perturbs_and_absorbs() {
    let (r, rec) = front_hit();
    let m = Metal::new(&Vec3::new(ONE, ONE, ONE), HALF);
    let (s, _) = m.scatter_with(&r, &rec, &Vec3::new(HALF, 0, 0)).unwrap();
    assert_eq!(s.dir, Vec3::new(250_000_000, 0, ONE));
    let rough = Metal::new(&Vec3::new(ONE, ONE, ONE), ONE);
    assert!(rough.scatter_with(&r, &rec, &Vec3::new(0, 0, -ONE)).is_none());
}

#[test]
fn schlick_reflectance_values() {
    assert_eq!(Dielectric::reflectance(ONE, ONE), 0);
    // r0 for glass from air: ((1 - 1/1.5) / (1 + 1/1.5))^2 = 0.04.
    let ratio = 666_666_667;
    let head_on = Dielectric::reflectance(ONE, ratio);
    assert!((head_on - 40_000_000).abs() < 10, "{}", head_on);
    assert_eq!(Dielectric::reflectance(0, ONE), ONE);
    assert_eq!(Dielectric::reflectance(-ONE, 3 * ONE), 24_250_000_000);
}

#[test]
fn schlick_reflectance_grows_as_cosine_falls() {
    for ratio in [ONE / 3, 666_666_667, ONE, ONE + HALF, 4 * ONE] {
        let mut last = i64::MIN;
        let mut cos = ONE;
        while cos >= -ONE {
            let r = Dielectric::reflectance(cos, ratio);
            assert!(r >= last, "ratio {} cos {}", ratio, cos);
            last = r;
            cos -= ONE / 50;
        }
    }
}

#[test]
fn dielectric_refracts_or_reflects_by_draw() {
    let (r, rec) = front_hit();
    let glass = Dielectric::new(ONE + HALF);
    let (s, att) = glass.scatter_with(&r, &rec, ONE - 1);
    assert_eq!(s, Ray::new(Vec3::new(0, 0, -HALF), Vec3::new(0, 0, -ONE)));
    assert_eq!(att, Vec3::new(ONE, ONE, ONE));
    let (s, _) = glass.scatter_with(&r, &rec, 0);
    assert_eq!(s.dir, Vec3::new(0, 0, ONE));
}

#[test]
fn dielectric_total_internal_reflection() {
    // Leaving glass with sine of incidence 0.8: 1.5 * 0.8 > 1.
    let sphere = Sphere::new(Vec3::new(0, 0, 0), ONE);
    let r = Ray::new(Vec3::new(0, 800_000_000, 0), Vec3::new(ONE, 0, 0));
    let rec = sphere.hit(&r, T_MIN, T_INFINITY).unwrap();
    assert!(!rec.front_face());
    let glass = Dielectric::new(ONE + HALF);
    let reflected = Vec3::reflect(&Vec3::unit_vector(&r.dir), &rec.normal);
    for u in [0, HALF, ONE - 1] {
        let (s, _) = glass.scatter_with(&r, &rec, u);
        assert_eq!(s.dir, reflected);
    }
}

#[test]
fn material_dispatch() {
    let (r, rec) = front_hit();
    let mut rng = StdRng::seed_from_u64(1);
    let albedo = Vec3::new(HALF, HALF, HALF);
    let (_, att) = Material::Lambertian { albedo }.scatter(&r, &rec, &mut rng).unwrap();
    assert_eq!(att, albedo);
    let (s, _) = Material::Metal { albedo, fuzz: 0 }.scatter(&r, &rec, &mut rng).unwrap();
    assert_eq!(s.dir, Vec3::new(0, 0, ONE));
    let (_, att) = Material::Dielectric { ir: ONE + HALF }.scatter(&r, &rec, &mut rng).unwrap();
    assert_eq!(att, Vec3::new(ONE, ONE, ONE));
}

#[test]
fn mirror_reflects_perpendicular_rays_on_tilted_normals() {
    let albedo = Vec3::new(HALF, HALF, HALF);
    let m = Metal::new(&albedo, 0);
    for v in [Vec3::new(ONE, 2 * ONE, 3 * ONE), Vec3::new(-7, 5, 1), Vec3::new(0, -ONE, ONE)] {
        let n = Vec3::unit_vector(&v);
        let r = Ray::new(Vec3::new(0, 0, 0), n.neg());
        let rec = HitRecord::new(Vec3::new(ONE, 0, 0), n.neg(), ONE, &r);
        assert_eq!(*rec.normal(), n);
        for seed in 0..5 {
            let mut rng = StdRng::seed_from_u64(seed);
            let (s, att) = m.scatter(&r, &rec, &mut rng).unwrap();
            assert_eq!(att, albedo);
            assert_eq!(s.orig, Vec3::new(ONE, 0, 0));
            assert_eq!(s.dir, Vec3::reflect(&Vec3::unit_vector(&r.dir), &n));
            assert!((s.dir.x - n.x).abs() <= 21 && (s.dir.y - n.y).abs() <= 21 && (s.dir.z - n.z).abs() <= 21);
        }
    }
}

use rand::rngs::StdRng;
use rand::SeedableRng;
use raytracer::fixed::{HALF, ONE};
use raytracer::random::{random_between, random_unit_interval};
use raytracer::Vec3;

#[test]
fn draws_stay_in_range_and_vary() {
    let mut rng = StdRng::seed_from_u64(7);
    let mut seen = std::collections::HashSet::new();
    for _ in 0..200 {
        let x = random_between(&mut rng, -3, 5);
        assert!((-3..5).contains(&x));
        seen.insert(x);
        let u = random_unit_interval(&mut rng);
        assert!((0..ONE).contains(&u));
    }
    assert_eq!(seen.len(), 8);
}

#[test]
fn ball_and_disk_samples() {
    let mut rng = StdRng::seed_from_u64(11);
    let mut distinct = std::collections::HashSet::new();
    for _ in 0..200 {
        let p = Vec3::random_in_unit_sphere(&mut rng);
        assert!(p.len_squared() < ONE);
        distinct.insert((p.x, p.y, p.z));
        let d = Vec3::random_in_unit_disk(&mut rng);
        assert!(d.len_squared() < ONE);
        assert_eq!(d.z, 0);
        let c = Vec3::random(&mut rng, -ONE, ONE);
        assert!(c.x >= -ONE && c.x < ONE && c.y >= -ONE && c.y < ONE && c.z >= -ONE && c.z < ONE);
    }
    assert!(distinct.len() > 190);
}

#[test]
fn unit_and_hemisphere_samples() {
    let mut rng = StdRng::seed_from_u64(13);
    let n = Vec3::new(0, ONE, 0);
    for _ in 0..200 {
        let u = Vec3::random_unit_vector(&mut rng);
        let l = u.len();
        assert!(l == 0 || (l - ONE).abs() < 100_000, "length {}", l);
        let h = Vec3::random_in_hemisphere(&mut rng, &n);
        assert!(Vec3::dot(&h, &n) >= 0);
        assert!(h.len_squared() < ONE);
    }
}

#[test]
fn same_seed_same_stream() {
    let mut a = StdRng::seed_from_u64(99);
    let mut b = StdRng::seed_from_u64(99);
    for _ in 0..20 {
        assert_eq!(Vec3::random_in_unit_sphere(&mut a), Vec3::random_in_unit_sphere(&mut b));
    }
}

#[test]
fn rejection_steps() {
    assert_eq!(Vec3::ball_point(Vec3::new(HALF, HALF, HALF)), Some(Vec3::new(HALF, HALF, HALF)));
    assert_eq!(Vec3::ball_point(Vec3::new(ONE, 0, 0)), None);
    assert_eq!(Vec3::ball_point(Vec3::new(-HALF, -HALF, -800_000_000)), None);
    assert_eq!(Vec3::disk_point(HALF, -HALF), Some(Vec3::new(HALF, -HALF, 0)));
    assert_eq!(Vec3::disk_point(0, -ONE), None);
    assert_eq!(Vec3::disk_point(800_000_000, 600_000_000), None);
}

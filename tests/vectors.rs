use raytracer::fixed::{HALF, ONE};
use raytracer::Vec3;

#[test]
fn component_arithmetic() {
    let a = Vec3::new(ONE, 2 * ONE, 3 * ONE);
    let b = Vec3::new(4 * ONE, -5 * ONE, HALF);
    assert_eq!(a.add(b), Vec3::new(5 * ONE, -3 * ONE, 3 * ONE + HALF));
    assert_eq!(a.sub(b), Vec3::new(-3 * ONE, 7 * ONE, 2 * ONE + HALF));
    assert_eq!(a.neg(), Vec3::new(-ONE, -2 * ONE, -3 * ONE));
    assert_eq!(a.scale(HALF), Vec3::new(HALF, ONE, ONE + HALF));
    assert_eq!(a.mul(b), Vec3::new(4 * ONE, -10 * ONE, ONE + HALF));
    assert_eq!(a.div(2 * ONE), Vec3::new(HALF, ONE, ONE + HALF));
    assert_eq!((a.x(), a.y(), a.z()), (ONE, 2 * ONE, 3 * ONE));
}

#[test]
fn dot_and_cross() {
    let a = Vec3::new(ONE, 2 * ONE, 3 * ONE);
    let b = Vec3::new(4 * ONE, -5 * ONE, 6 * ONE);
    assert_eq!(Vec3::dot(&a, &b), 12 * ONE);
    assert_eq!(Vec3::cross(&a, &b), Vec3::new(27 * ONE, 6 * ONE, -13 * ONE));
    let x = Vec3::new(ONE, 0, 0);
    let y = Vec3::new(0, ONE, 0);
    assert_eq!(Vec3::cross(&x, &y), Vec3::new(0, 0, ONE));
}

#[test]
fn lengths() {
    let v = Vec3::new(3 * ONE, 4 * ONE, 0);
    assert_eq!(v.len_squared(), 25 * ONE);
    assert_eq!(v.len(), 5 * ONE);
    assert_eq!(Vec3::unit_vector(&v), Vec3::new(600_000_000, 800_000_000, 0));
    assert_eq!(Vec3::unit_vector(&Vec3::new(0, 0, 0)), Vec3::new(0, 0, 0));
}

#[test]
fn unit_vectors_have_length_one() {
    let cases = [
        Vec3::new(ONE, ONE, 0),
        Vec3::new(ONE, 2 * ONE, 3 * ONE),
        Vec3::new(-7 * ONE, HALF, 11),
        Vec3::new(123 * ONE, -456 * ONE, 789 * ONE),
        Vec3::new(HALF / 1000, HALF / 700, -HALF / 300),
        Vec3::new(1, 1, 0),
        Vec3::new(3, 0, 0),
        Vec3::new(i64::MAX, i64::MAX, -i64::MAX),
        Vec3::new(i64::MIN, 5, 0),
        Vec3::new(0, 0, -ONE),
    ];
    for v in cases.iter() {
        let len = Vec3::unit_vector(v).len();
        assert!(len == ONE || len == ONE - 1, "length {} for {:?}", len, v);
    }
    assert_eq!(Vec3::unit_vector(&Vec3::new(ONE, ONE, 0)), Vec3::new(707_106_781, 707_106_781, 0));
    assert_eq!(Vec3::unit_vector(&Vec3::new(1, 2, 3)), Vec3::new(267_261_242, 534_522_484, 801_783_726));
}

#[test]
fn length_is_exact_then_rounded_down() {
    assert_eq!(Vec3::new(ONE, ONE, 0).len(), 1_414_213_562);
    assert_eq!(Vec3::new(3, 4, 0).len(), 5);
    assert_eq!(Vec3::new(i64::MAX, i64::MAX, 0).len(), i64::MAX);
}

#[test]
fn cross_is_antisymmetric_even_when_saturating() {
    let pairs = [
        (Vec3::new(0, 0, i64::MAX), Vec3::new(0, i64::MAX, 0)),
        (Vec3::new(ONE, 2 * ONE, 3 * ONE), Vec3::new(-4 * ONE, 5 * ONE, 7)),
        (Vec3::new(i64::MAX, -i64::MAX, 3), Vec3::new(i64::MAX, i64::MAX, -i64::MAX)),
    ];
    for (u, v) in pairs.iter() {
        assert_eq!(Vec3::cross(v, u), Vec3::cross(u, v).neg());
    }
    assert_eq!(Vec3::cross(&pairs[0].0, &pairs[0].1).x, -i64::MAX);
}

#[test]
fn near_zero_bound() {
    assert!(Vec3::new(9, -9, 0).near_zero());
    assert!(!Vec3::new(10, 0, 0).near_zero());
    assert!(!Vec3::new(0, 0, -10).near_zero());
}

#[test]
fn reflect_orthogonal_is_identity() {
    let v = Vec3::new(ONE, 2 * ONE, 0);
    let n = Vec3::new(0, 0, ONE);
    assert_eq!(Vec3::dot(&v, &n), 0);
    assert_eq!(Vec3::reflect(&v, &n), v);
}

#[test]
fn reflect_mirrors() {
    let v = Vec3::new(ONE, -ONE, 0);
    let n = Vec3::new(0, ONE, 0);
    assert_eq!(Vec3::reflect(&v, &n), Vec3::new(ONE, ONE, 0));
}

#[test]
fn refract_straight_through() {
    let uv = Vec3::new(0, 0, -ONE);
    let n = Vec3::new(0, 0, ONE);
    assert_eq!(Vec3::refract(&uv, &n, ONE), Vec3::new(0, 0, -ONE));
    assert_eq!(Vec3::refract(&uv, &n, 2 * ONE / 3), Vec3::new(0, 0, -ONE));
}

#[test]
fn refract_clamps_the_cosine() {
    // -uv . n is -2 here; clamped to -1 it gives perp (0, 0, 1), whose
    // squared length 1 leaves no component along -n.
    let r = Vec3::refract(&Vec3::new(0, 0, 2 * ONE), &Vec3::new(0, 0, ONE), ONE);
    assert_eq!(r, Vec3::new(0, 0, ONE));
}

#[test]
fn refract_at_equal_indices() {
    let n = Vec3::new(0, ONE, 0);
    let uv = Vec3::new(600_000_000, -800_000_000, 0);
    assert_eq!(Vec3::refract(&uv, &n, ONE), uv);
    // perp is (1, 0, 0): its squared length 1 leaves nothing along -n.
    assert_eq!(Vec3::refract(&Vec3::new(ONE, -40_000, 0), &n, ONE), Vec3::new(ONE, 0, 0));
}

#[test]
fn refract_bends_toward_normal() {
    // 45 degrees in, index ratio 1/1.5.
    let s = 707_106_781;
    let uv = Vec3::new(s, -s, 0);
    let n = Vec3::new(0, ONE, 0);
    let r = Vec3::refract(&uv, &n, 666_666_667);
    assert!((r.x - 471_404_521).abs() < 10, "{:?}", r);
    assert!((r.y + 881_917_103).abs() < 10, "{:?}", r);
    assert_eq!(r, Vec3::new(471_404_520, -881_917_104, 0));
    assert_eq!(r.z, 0);
}

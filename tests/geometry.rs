use rand::rngs::StdRng;
use rand::SeedableRng;
use raytracer::fixed::{HALF, ONE};
use raytracer::material::Material;
use raytracer::renderer::{T_INFINITY, T_MIN};
use raytracer::{Camera, HitRecord, Object, Ray, Scene, Shape, Sphere, Vec3};

fn grey() -> Material {
    Material::Lambertian { albedo: Vec3::new(HALF, HALF, HALF) }
}

#[test]
fn sphere_hit_straight_ahead() {
    let sphere = Sphere::new(Vec3::new(0, 0, -ONE), HALF);
    let r = Ray::new(Vec3::new(0, 0, 0), Vec3::new(0, 0, -ONE));
    let rec = sphere.hit(&r, T_MIN, T_INFINITY).unwrap();
    assert_eq!(rec.t(), HALF);
    assert_eq!(*rec.p(), Vec3::new(0, 0, -HALF));
    assert_eq!(*rec.normal(), Vec3::new(0, 0, ONE));
    assert!(rec.front_face());
}

#[test]
fn sphere_hit_through_known_surface_point() {
    // (3, 4, 0) lies on the sphere of radius 5 around the origin; the ray
    // comes toward it from (6, 8, 0).
    let sphere = Sphere::new(Vec3::new(0, 0, 0), 5 * ONE);
    let r = Ray::new(Vec3::new(6 * ONE, 8 * ONE, 0), Vec3::new(-3 * ONE, -4 * ONE, 0));
    let rec = sphere.hit(&r, T_MIN, T_INFINITY).unwrap();
    assert_eq!(rec.t(), ONE);
    assert_eq!(*rec.p(), Vec3::new(3 * ONE, 4 * ONE, 0));
    assert_eq!(*rec.normal(), Vec3::new(600_000_000, 800_000_000, 0));
    assert!(rec.front_face());
}

#[test]
fn sphere_missed() {
    let sphere = Sphere::new(Vec3::new(0, 0, -ONE), HALF);
    let r = Ray::new(Vec3::new(0, 0, 0), Vec3::new(0, ONE, 0));
    assert!(sphere.hit(&r, T_MIN, T_INFINITY).is_none());
}

#[test]
fn sphere_hit_from_inside() {
    let sphere = Sphere::new(Vec3::new(0, 0, -ONE), HALF);
    let r = Ray::new(Vec3::new(0, 0, -ONE), Vec3::new(0, 0, -ONE));
    let rec = sphere.hit(&r, T_MIN, T_INFINITY).unwrap();
    assert_eq!(rec.t(), HALF);
    assert_eq!(*rec.p(), Vec3::new(0, 0, -ONE - HALF));
    assert!(!rec.front_face());
    assert_eq!(*rec.normal(), Vec3::new(0, 0, ONE));
}

#[test]
fn lower_bound_is_exclusive() {
    let sphere = Sphere::new(Vec3::new(0, 0, -ONE), HALF);
    let r = Ray::new(Vec3::new(0, 0, 0), Vec3::new(0, 0, -ONE));
    let rec = sphere.hit(&r, HALF, T_INFINITY).unwrap();
    assert_eq!(rec.t(), ONE + HALF);
    assert!(sphere.hit(&r, ONE + HALF, T_INFINITY).is_none());
    assert_eq!(sphere.hit(&r, T_MIN, ONE + HALF).unwrap().t(), HALF);
    assert!(sphere.hit(&r, T_MIN, HALF - 1).is_none());
}

#[test]
fn ray_at() {
    let r = Ray::new(Vec3::new(ONE, 0, 0), Vec3::new(0, 2 * ONE, 0));
    assert_eq!(r.at(HALF), Vec3::new(ONE, ONE, 0));
    assert_eq!(*r.orig(), Vec3::new(ONE, 0, 0));
    assert_eq!(*r.dir(), Vec3::new(0, 2 * ONE, 0));
}

#[test]
fn scene_reports_nearest_hit_in_any_order() {
    let near = Shape::Sphere { center: Vec3::new(0, 0, -ONE), radius: HALF };
    let far = Shape::Sphere { center: Vec3::new(0, 0, -3 * ONE), radius: HALF };
    let glass = Material::Dielectric { ir: ONE + HALF };
    let r = Ray::new(Vec3::new(0, 0, 0), Vec3::new(0, 0, -ONE));

    let mut a = Scene::new();
    a.add(near, glass);
    a.add(far, grey());
    let (rec, m) = a.hit(&r, T_MIN, T_INFINITY).unwrap();
    assert_eq!((rec.t(), m), (HALF, glass));

    let mut b = Scene::default();
    b.add(far, grey());
    b.add(near, glass);
    let (rec, m) = b.hit(&r, T_MIN, T_INFINITY).unwrap();
    assert_eq!((rec.t(), m), (HALF, glass));
    assert_eq!(b.len(), 2);
    b.clear();
    assert_eq!(b.len(), 0);
    assert!(b.hit(&r, T_MIN, T_INFINITY).is_none());
}

#[test]
fn objects() {
    let shape = Shape::Sphere { center: Vec3::new(0, 0, 0), radius: ONE };
    let o = Object::new(shape, grey());
    assert_eq!(*o.shape(), shape);
    assert_eq!(*o.material(), grey());
    let r = Ray::new(Vec3::new(0, 0, 5 * ONE), Vec3::new(0, 0, -ONE));
    assert_eq!(shape.hit(&r, T_MIN, T_INFINITY).unwrap().t(), 4 * ONE);
}

#[test]
fn camera_center_ray() {
    let cam = Camera::new(
        Vec3::new(0, 0, 0),
        Vec3::new(0, 0, -ONE),
        Vec3::new(0, ONE, 0),
        ONE,
        ONE,
        0,
        ONE,
    );
    assert_eq!(cam.lens_radius, 0);
    assert_eq!(cam.horizontal, Vec3::new(2 * ONE, 0, 0));
    assert_eq!(cam.vertical, Vec3::new(0, 2 * ONE, 0));
    assert_eq!(cam.lower_left_corner, Vec3::new(-ONE, -ONE, -ONE));
    let r = cam.ray_through(HALF, HALF, &Vec3::new(0, 0, 0));
    assert_eq!(r, Ray::new(Vec3::new(0, 0, 0), Vec3::new(0, 0, -ONE)));
    let corner = cam.ray_through(0, 0, &Vec3::new(0, 0, 0));
    assert_eq!(corner.dir, Vec3::new(-ONE, -ONE, -ONE));
    let mut rng = StdRng::seed_from_u64(3);
    assert_eq!(cam.get_ray(HALF, HALF, &mut rng), r);
}

#[test]
fn camera_lens_offsets_origin() {
    let cam = Camera::new(
        Vec3::new(0, 0, 0),
        Vec3::new(0, 0, -ONE),
        Vec3::new(0, ONE, 0),
        ONE,
        ONE,
        2 * ONE,
        ONE,
    );
    assert_eq!(cam.lens_radius, ONE);
    let r = cam.ray_through(HALF, HALF, &Vec3::new(HALF, 0, 0));
    assert_eq!(r.orig, Vec3::new(HALF, 0, 0));
    assert_eq!(r.dir, Vec3::new(-HALF, 0, -ONE));
}

#[test]
fn sphere_normals_have_unit_length_and_face_the_ray() {
    let sphere = Sphere::new(Vec3::new(0, 0, 0), ONE);
    let r = Ray::new(Vec3::new(HALF, 0, -2 * ONE), Vec3::new(0, 0, ONE));
    let rec = sphere.hit(&r, T_MIN, T_INFINITY).unwrap();
    assert_eq!(*rec.normal(), Vec3::new(HALF, 0, -866_025_404));
    let len = rec.normal().len();
    assert!(len == ONE || len == ONE - 1, "{}", len);
    assert!(Vec3::dot(&r.dir, rec.normal()) <= 0);
    let inside = Ray::new(Vec3::new(HALF, 0, 0), Vec3::new(0, 0, ONE));
    let rec = sphere.hit(&inside, T_MIN, T_INFINITY).unwrap();
    assert!(!rec.front_face());
    assert!(Vec3::dot(&inside.dir, rec.normal()) <= 0);
    assert_eq!(*rec.normal(), Vec3::new(-HALF, 0, -866_025_404));
}

#[test]
fn record_normal_faces_against_the_ray_at_the_range_edge() {
    let outward = Vec3::new(-i64::MAX, -(1i64 << 62), 0);
    let r = Ray::new(Vec3::new(0, 0, 0), Vec3::new(-2 * ONE, 4 * ONE, 0));
    let rec = HitRecord::new(Vec3::new(0, 0, 0), outward, ONE, &r);
    assert!(Vec3::dot(&r.dir, rec.normal()) <= 0);
}

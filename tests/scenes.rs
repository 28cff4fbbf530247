use raytracer4d_rs::fixed::{isqrt_u128, ONE};
use raytracer4d_rs::hittable::hyperplane::Hyperplane;
use raytracer4d_rs::hittable::hypersphere::Hypersphere;
use raytracer4d_rs::hittable::{nearest, Hit, Hittable, Shape};
use raytracer4d_rs::point4::Point4;
use raytracer4d_rs::ray::Ray;
use raytracer4d_rs::vec4::Vec4;

fn p(x: i64, y: i64, z: i64, w: i64) -> Point4 {
    Point4::new(x * ONE, y * ONE, z * ONE, w * ONE)
}

fn v(x: i64, y: i64, z: i64, w: i64) -> Vec4 {
    Vec4::new(x * ONE, y * ONE, z * ONE, w * ONE)
}

fn dot_exact(a: Vec4, b: Vec4) -> i128 {
    a.x as i128 * b.x as i128
        + a.y as i128 * b.y as i128
        + a.z as i128 * b.z as i128
        + a.w as i128 * b.w as i128
}

fn sphere() -> Hypersphere {
    Hypersphere::new(p(0, 0, 0, 0), 5 * ONE)
}

fn plane() -> Hyperplane {
    Hyperplane::new(p(0, 5, 0, 0), v(0, 1, 0, 0))
}

#[test]
fn unit_vector_normalizes_to_itself() {
    for u in [v(1, 0, 0, 0), v(0, -1, 0, 0), v(0, 0, 0, 1)] {
        assert_eq!(u.magnitude(), ONE);
        let n = u.normalized();
        assert_eq!(n, u);
        assert_eq!(n.magnitude(), ONE);
    }
    let diag = Vec4::new(ONE / 2, ONE / 2, -ONE / 2, ONE / 2);
    assert_eq!(diag.magnitude(), ONE);
    assert_eq!(diag.normalized(), diag);
}

#[test]
fn normalized_scales_to_unit_length() {
    let n = v(3, 0, 4, 0).normalized();
    assert_eq!(n, Vec4::new(ONE * 3 / 5, 0, ONE * 4 / 5, 0));
    assert_eq!(v(0, 0, 0, -7).normalized(), Vec4::new(0, 0, 0, -ONE));
    assert_eq!(v(2, 0, 0, 0).magnitude(), 2 * ONE);
    assert_eq!(v(1, 1, 1, 1).magnitude(), 2 * ONE);
}

#[test]
fn integer_square_root() {
    assert_eq!(isqrt_u128(0), 0);
    assert_eq!(isqrt_u128(1), 1);
    assert_eq!(isqrt_u128(15), 3);
    assert_eq!(isqrt_u128(16), 4);

    let big: u128 = 1 << 120;
    assert_eq!(isqrt_u128(big), 1 << 60);
    assert_eq!(isqrt_u128(big - 1), (1 << 60) - 1);
}

#[test]
fn vector_arithmetic() {
    let a = v(1, 2, 3, 4);
    let b = v(4, 3, 2, 1);
    assert_eq!(a.add(b), v(5, 5, 5, 5));
    assert_eq!(a.sub(b), v(-3, -1, 1, 3));
    assert_eq!(a.neg(), v(-1, -2, -3, -4));
    assert_eq!(a.mul(2 * ONE), v(2, 4, 6, 8));
    assert_eq!(a.mul(ONE / 2), Vec4::new(ONE / 2, ONE, 3 * ONE / 2, 2 * ONE));
    assert_eq!(a.div(2 * ONE), Vec4::new(ONE / 2, ONE, 3 * ONE / 2, 2 * ONE));
    assert_eq!(Vec4::new(-1, 0, 0, 0).div(2 * ONE), Vec4::new(-1, 0, 0, 0));
    assert_eq!(Vec4::new(-1, 0, 0, 0).mul(ONE / 2), Vec4::new(-1, 0, 0, 0));
    assert_eq!(a.dot(b), 20 * ONE);
}

#[test]
fn point_arithmetic() {
    let a = p(1, 2, 3, 4);
    assert_eq!(a.add(v(1, 1, 1, 1)), p(2, 3, 4, 5));
    assert_eq!(a.sub_vec(v(1, 1, 1, 1)), p(0, 1, 2, 3));
    assert_eq!(a.sub(p(4, 3, 2, 1)), v(-3, -1, 1, 3));
}

#[test]
fn cross_of_axes() {
    let c = Vec4::cross(v(1, 0, 0, 0), v(0, 1, 0, 0), v(0, 0, 1, 0));
    assert_eq!(c, v(0, 0, 0, -1));
    let c = Vec4::cross(v(0, 1, 0, 0), v(0, 0, 1, 0), v(0, 0, 0, 1));
    assert_eq!(c, v(1, 0, 0, 0));
}

#[test]
fn cross_is_orthogonal_to_inputs() {
    let (a, b, c, d) = (p(1, 2, 0, -1), p(3, -1, 2, 0), p(0, 4, 1, 2), p(-2, 0, 3, 1));
    let (e1, e2, e3) = (a.sub(b), a.sub(c), a.sub(d));
    let n = Vec4::cross(e1, e2, e3);
    assert_ne!(n, v(0, 0, 0, 0));
    assert_eq!(dot_exact(n, e1), 0);
    assert_eq!(dot_exact(n, e2), 0);
    assert_eq!(dot_exact(n, e3), 0);
}

#[test]
fn ray_normalizes_direction() {
    let r = Ray::new(p(1, 0, 0, 0), v(0, 0, 3, 0));
    assert_eq!(r.direction, v(0, 0, 1, 0));
    assert_eq!(r.at(2 * ONE), p(1, 0, 2, 0));
    assert_eq!(r.at(-ONE), p(1, 0, -1, 0));
}

#[test]
fn sphere_hit_in_front() {
    let r = Ray::new(p(0, 0, -10, 0), v(0, 0, 1, 0));
    let h = sphere().hit(&r).unwrap();
    assert_eq!(h.t, 5 * ONE);
    assert_eq!(h.position, p(0, 0, -5, 0));
}

#[test]
fn sphere_behind_is_missed() {
    let r = Ray::new(p(0, 0, -10, 0), v(0, 0, -1, 0));
    assert_eq!(sphere().hit(&r), None);
}

#[test]
fn sphere_graze_is_missed() {
    let r = Ray::new(p(5, 0, -10, 0), v(0, 0, 1, 0));
    assert_eq!(sphere().hit(&r), None);
    let r = Ray::new(p(6, 0, -10, 0), v(0, 0, 1, 0));
    assert_eq!(sphere().hit(&r), None);
}

#[test]
fn sphere_from_inside_is_missed() {
    let r = Ray::new(p(0, 0, 0, 0), v(0, 1, 0, 0));
    assert_eq!(sphere().hit(&r), None);
}

#[test]
fn sphere_off_axis_hit() {
    let r = Ray::new(p(3, 0, -10, 0), v(0, 0, 1, 0));
    let h = sphere().hit(&r).unwrap();
    assert_eq!(h.t, 6 * ONE);
    assert_eq!(h.position, p(3, 0, -4, 0));
}

#[test]
fn plane_hit_in_front() {
    let r = Ray::new(p(0, 0, 0, 0), v(0, 1, 0, 0));
    let h = plane().hit(&r).unwrap();
    assert_eq!(h.t, 5 * ONE);
    assert_eq!(h.position, p(0, 5, 0, 0));
}

#[test]
fn plane_parallel_is_missed() {
    let r = Ray::new(p(0, 0, 0, 0), v(1, 0, 0, 0));
    assert_eq!(plane().hit(&r), None);
    let inside = Ray::new(p(0, 5, 0, 0), v(1, 0, 0, 0));
    assert_eq!(plane().hit(&inside), None);
}

#[test]
fn plane_behind_is_missed() {
    let r = Ray::new(p(0, 0, 0, 0), v(0, -1, 0, 0));
    assert_eq!(plane().hit(&r), None);
}

#[test]
fn plane_from_points() {
    let pl = Hyperplane::new_from_points(p(0, 5, 0, 0), p(1, 5, 0, 0), p(0, 5, 1, 0), p(0, 5, 0, 1));
    assert_eq!(pl.center, p(0, 5, 0, 0));
    assert_eq!(pl.normal, v(0, 1, 0, 0));
    let h = pl.hit(&Ray::new(p(0, 0, 0, 0), v(0, 1, 0, 0))).unwrap();
    assert_eq!(h.t, 5 * ONE);
    assert_eq!(h.position, p(0, 5, 0, 0));
}

#[test]
fn nearest_picks_smallest_t() {
    let a = Hit { t: 5 * ONE, position: p(0, 0, 5, 0) };
    let b = Hit { t: 3 * ONE, position: p(0, 0, 3, 0) };
    assert_eq!(nearest(&[Some(a), Some(b), None]), Some(b));
    assert_eq!(nearest(&[None, None]), None);
    assert_eq!(nearest(&[]), None);
    assert_eq!(nearest(&[None, Some(a)]), Some(a));
}

#[test]
fn nearest_tie_keeps_first() {
    let a = Hit { t: 3 * ONE, position: p(0, 0, 3, 0) };
    let b = Hit { t: 3 * ONE, position: p(0, 3, 0, 0) };
    assert_eq!(nearest(&[Some(a), Some(b)]), Some(a));
    assert_eq!(nearest(&[Some(b), None, Some(a)]), Some(b));
}

#[test]
fn hit_is_repeatable() {
    let r = Ray::new(p(1, 1, -10, 0), v(0, 0, 1, 0));
    assert_eq!(sphere().hit(&r), sphere().hit(&r));
    let r = Ray::new(p(0, 0, 0, 0), Vec4::new(ONE / 3, ONE, 0, ONE / 7));
    let first = plane().hit(&r);
    assert!(first.is_some());
    assert_eq!(first, plane().hit(&r));
}

#[test]
fn scene_nearest_of_sphere_and_plane() {
    let pl = Hyperplane::new(p(0, 0, -7, 0), v(0, 0, 1, 0));
    let r = Ray::new(p(0, 0, -10, 0), v(0, 0, 1, 0));
    let h = nearest(&[sphere().hit(&r), pl.hit(&r)]).unwrap();
    assert_eq!(h.t, 3 * ONE);
    assert_eq!(h.position, p(0, 0, -7, 0));
}

#[test]
fn shapes_dispatch_to_primitives() {
    let r = Ray::new(p(0, 0, -10, 0), v(0, 0, 1, 0));
    assert_eq!(Shape::Sphere(sphere()).hit(&r), sphere().hit(&r));
    let up = Ray::new(p(0, 0, 0, 0), v(0, 1, 0, 0));
    assert_eq!(Shape::Plane(plane()).hit(&up), plane().hit(&up));
    let scene = [Shape::Sphere(sphere()), Shape::Plane(Hyperplane::new(p(0, 0, -7, 0), v(0, 0, 1, 0)))];
    let hits: Vec<Option<Hit>> = scene.iter().map(|s| s.hit(&r)).collect();
    assert_eq!(nearest(&hits).unwrap().t, 3 * ONE);
}

fn assert_near_unit(n: Vec4) {
    let len2 = dot_exact(n, n);
    let one = ONE as i128;
    assert!(len2 >= one * one - 8 * one - 3, "{:?}", n);
    assert!(len2 <= one * one + 8 * one, "{:?}", n);
}

#[test]
fn small_vector_normalizes_to_unit_length() {
    let n = Vec4::new(1, 1, 0, 0).normalized();
    assert_eq!(n, Vec4::new(46341, 46341, 0, 0));
    assert_near_unit(n);
    for d in [Vec4::new(1, 0, 0, 0), Vec4::new(-3, 7, 1, 0), Vec4::new(1, 2, 3, 4), v(100, -3, 7, 1)] {
        assert_near_unit(d.normalized());
    }
}

#[test]
fn ray_direction_is_unit_length() {
    let r = Ray::new(p(0, 0, 0, 0), Vec4::new(1, 1, 0, 0));
    assert_near_unit(r.direction);
    let far = r.at(ONE);
    let dist2 = dot_exact(far.sub(r.origin), far.sub(r.origin));
    let one = ONE as i128;
    assert!(dist2 >= one * one - 8 * one - 3 && dist2 <= one * one + 8 * one);
}

#[test]
fn plane_normal_is_unit_length() {
    assert_near_unit(Hyperplane::new(p(0, 0, 0, 0), Vec4::new(1, 1, 0, 0)).normal);
    let k = 4096;
    let pl = Hyperplane::new_from_points(
        Point4::new(0, 0, 0, 0),
        Point4::new(0, 0, -k, 0),
        Point4::new(0, 0, 0, -k),
        Point4::new(-k, k, 0, 0),
    );
    assert_eq!(pl.normal, Vec4::new(-46340, -46340, 0, 0));
    assert_near_unit(pl.normal);
}

#[test]
fn cross_changes_sign_when_arguments_swap() {
    let (a, b, c) = (v(0, 1, 0, 0), v(0, 0, 1, 0), v(0, 0, 0, 1));
    assert_eq!(Vec4::cross(a, b, c), v(1, 0, 0, 0));
    assert_eq!(Vec4::cross(a, c, b), v(-1, 0, 0, 0));
    let (a, b, c) = (
        Vec4::new(70001, 3, -5, 1),
        Vec4::new(2, 90003, 7, -3),
        Vec4::new(-1, 4, 80005, 5),
    );
    let r = Vec4::cross(a, b, c);
    assert_eq!(Vec4::cross(a, c, b), r.neg());
    assert_eq!(Vec4::cross(b, a, c), r.neg());
}

#[test]
fn rounded_cross_is_nearly_orthogonal() {
    let (a, b, c) = (
        Vec4::new(70001, 3, -5, 1),
        Vec4::new(2, 90003, 7, -3),
        Vec4::new(-1, 4, 80005, 5),
    );
    let r = Vec4::cross(a, b, c);
    for e in [a, b, c] {
        let l1 = (e.x.abs() + e.y.abs() + e.z.abs() + e.w.abs()) as i128;
        assert!(dot_exact(r, e).abs() <= l1);
    }
}

#[test]
fn normalizing_twice_stays_close() {
    for d in [Vec4::new(1, 1, 0, 0), Vec4::new(-3, 7, 1, 0), v(100, -3, 7, 1), Vec4::new(ONE / 3, ONE, 0, ONE / 7)] {
        let once = d.normalized();
        let twice = once.normalized();
        for (a, b) in [(once.x, twice.x), (once.y, twice.y), (once.z, twice.z), (once.w, twice.w)] {
            assert!((a - b).abs() <= 16, "{:?} {:?}", once, twice);
        }
    }
}

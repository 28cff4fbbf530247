use vstd::prelude::*;

use crate::fixed::{
    div_floor, floor_div, lemma_mul_bound, lemma_quotient_upper, lemma_trunc_bound, ONE,
};
use crate::hittable::{Hit, Hittable, COORD_BOUND};
use crate::point4::{diff_of, point_within, Point4};
use crate::ray::{at_of, Ray};
use crate::vec4::{
    cross_of, cross_w, cross_x, cross_y, cross_z, det2, dot_raw, is_zero, near_unit, normalized_of,
    within, Vec4, NORM_BOUND,
};

verus! {

/// The points `p` with `(p - center) . normal == 0`.
#[derive(Clone, Copy, Debug, PartialEq, Eq, Structural)]
pub struct Hyperplane {
    pub center: Point4,
    pub normal: Vec4,
}

/// Solves `(ray.at(t) - center) . normal == 0`, that is
/// `t = -(u . normal) / (direction . normal)` with `u = origin - center`.
/// A ray parallel to the plane (zero denominator) never hits it, even one
/// lying inside it; a hit needs `t`, rounded down, strictly positive.
pub open spec fn plane_hit_of(p: Hyperplane, ray: Ray) -> Option<Hit> {
    let u = diff_of(ray.origin, p.center);
    let num = -dot_raw(u, p.normal);
    let den = dot_raw(ray.direction, p.normal);
    if den != 0 {
        let t = floor_div(num * ONE, den);
        if t > 0 {
            Some(Hit { t: t as i64, position: at_of(ray, t) })
        } else {
            None
        }
    } else {
        None
    }
}

/// The normal of the hyperplane through `a`, `b`, `c`, `d`, before normalization.
pub open spec fn points_normal(a: Point4, b: Point4, c: Point4, d: Point4) -> Vec4 {
    cross_of(diff_of(a, b), diff_of(a, c), diff_of(a, d))
}

/// A 2x2 determinant of entries within `[-e, e]` lies within `[-2e^2, 2e^2]`.
proof fn lemma_det2_bound(p: int, q: int, r: int, s: int, e: int)
    requires
        -e <= p <= e,
        -e <= q <= e,
        -e <= r <= e,
        -e <= s <= e,
    ensures
        -(2 * (e * e)) <= det2(p, q, r, s) <= 2 * (e * e),
{
    lemma_mul_bound(p, s, e, e);
    lemma_mul_bound(q, r, e, e);
}

/// One row of a cofactor expansion, with entries within `e` and minors within `m`,
/// lies within `3 e m`.
proof fn lemma_row_bound(a1: int, m1: int, a2: int, m2: int, a3: int, m3: int, e: int, m: int)
    requires
        -e <= a1 <= e,
        -e <= a2 <= e,
        -e <= a3 <= e,
        -m <= m1 <= m,
        -m <= m2 <= m,
        -m <= m3 <= m,
    ensures
        -(3 * (e * m)) <= a1 * m1 - a2 * m2 + a3 * m3 <= 3 * (e * m),
{
    lemma_mul_bound(a1, m1, e, m);
    lemma_mul_bound(a2, m2, e, m);
    lemma_mul_bound(a3, m3, e, m);
}

/// Bound on the exact cross product of the edges between points within `POINT_BOUND`.
proof fn lemma_cross_small(a: Vec4, b: Vec4, c: Vec4)
    requires
        within(a, 2 * POINT_BOUND),
        within(b, 2 * POINT_BOUND),
        within(c, 2 * POINT_BOUND),
    ensures
        -CROSS_SMALL <= cross_x(a, b, c) <= CROSS_SMALL,
        -CROSS_SMALL <= cross_y(a, b, c) <= CROSS_SMALL,
        -CROSS_SMALL <= cross_z(a, b, c) <= CROSS_SMALL,
        -CROSS_SMALL <= cross_w(a, b, c) <= CROSS_SMALL,
{
    let e: int = 2 * POINT_BOUND;
    let mb: int = 2 * (e * e);
    let zw = det2(b.z as int, b.w as int, c.z as int, c.w as int);
    let yw = det2(b.y as int, b.w as int, c.y as int, c.w as int);
    let yz = det2(b.y as int, b.z as int, c.y as int, c.z as int);
    let xw = det2(b.x as int, b.w as int, c.x as int, c.w as int);
    let xz = det2(b.x as int, b.z as int, c.x as int, c.z as int);
    let xy = det2(b.x as int, b.y as int, c.x as int, c.y as int);
    lemma_det2_bound(b.z as int, b.w as int, c.z as int, c.w as int, e);
    lemma_det2_bound(b.y as int, b.w as int, c.y as int, c.w as int, e);
    lemma_det2_bound(b.y as int, b.z as int, c.y as int, c.z as int, e);
    lemma_det2_bound(b.x as int, b.w as int, c.x as int, c.w as int, e);
    lemma_det2_bound(b.x as int, b.z as int, c.x as int, c.z as int, e);
    lemma_det2_bound(b.x as int, b.y as int, c.x as int, c.y as int, e);
    lemma_row_bound(a.y as int, zw, a.z as int, yw, a.w as int, yz, e, mb);
    lemma_row_bound(a.x as int, zw, a.z as int, xw, a.w as int, xz, e, mb);
    lemma_row_bound(a.x as int, yw, a.y as int, xw, a.w as int, xy, e, mb);
    lemma_row_bound(a.x as int, yz, a.y as int, xz, a.z as int, xy, e, mb);
    assert(3 * (e * mb) <= CROSS_SMALL) by (nonlinear_arith)
        requires
            e == 0x200_0000,
            mb == 2 * (e * e),
    ;
}

/// Bound on the exact cross product of edges between points within `POINT_BOUND`.
pub const CROSS_SMALL: i128 = 0x4000_0000_0000_0000_0000;

/// Largest coordinate accepted by `Hyperplane::new_from_points` (256 in fixed
/// point), so that the cross product of the edges can be normalized.
pub const POINT_BOUND: i64 = 0x100_0000;

impl Hyperplane {
    /// A hyperplane through `center`; the normal is stored normalized.
    pub fn new(center: Point4, normal: Vec4) -> (r: Hyperplane)
        requires
            within(normal, NORM_BOUND as int),
            !is_zero(normal),
        ensures
            r.center == center,
            r.normal == normalized_of(normal),
            within(r.normal, ONE as int),
            near_unit(r.normal),
    {
        Hyperplane { center, normal: normal.normalized() }
    }

    /// The hyperplane through four points, with `a` as its center and the
    /// cross product of the edges `a - b`, `a - c`, `a - d` as its normal.
    pub fn new_from_points(a: Point4, b: Point4, c: Point4, d: Point4) -> (r: Hyperplane)
        requires
            point_within(a, POINT_BOUND as int),
            point_within(b, POINT_BOUND as int),
            point_within(c, POINT_BOUND as int),
            point_within(d, POINT_BOUND as int),
            !is_zero(points_normal(a, b, c, d)),
        ensures
            r.center == a,
            r.normal == normalized_of(points_normal(a, b, c, d)),
            within(r.normal, ONE as int),
            near_unit(r.normal),
    {
        let e1 = a.sub(b);
        let e2 = a.sub(c);
        let e3 = a.sub(d);
        proof {
            lemma_cross_small(e1, e2, e3);
            let q = ONE * ONE;
            let m = CROSS_SMALL as int;
            lemma_trunc_bound(cross_x(e1, e2, e3), q, m);
            lemma_trunc_bound(cross_y(e1, e2, e3), q, m);
            lemma_trunc_bound(cross_z(e1, e2, e3), q, m);
            lemma_trunc_bound(cross_w(e1, e2, e3), q, m);
        }
        Hyperplane::new(a, Vec4::cross(e1, e2, e3))
    }
}

impl Hittable for Hyperplane {
    open spec fn accepts(&self, ray: Ray) -> bool {
        &&& ray.wf()
        &&& point_within(ray.origin, COORD_BOUND as int)
        &&& point_within(self.center, COORD_BOUND as int)
        &&& within(self.normal, ONE as int)
    }

    open spec fn hit_of(&self, ray: Ray) -> Option<Hit> {
        plane_hit_of(*self, ray)
    }

    fn hit(&self, ray: &Ray) -> (r: Option<Hit>) {
        let u = ray.origin.sub(self.center);
        let n = self.normal;
        let d = ray.direction;
        proof {
            lemma_mul_bound(u.x as int, n.x as int, 0x800_0000, 0x1_0000);
            lemma_mul_bound(u.y as int, n.y as int, 0x800_0000, 0x1_0000);
            lemma_mul_bound(u.z as int, n.z as int, 0x800_0000, 0x1_0000);
            lemma_mul_bound(u.w as int, n.w as int, 0x800_0000, 0x1_0000);
        }
        let num = -u.dot_wide(n);
        let den = d.dot_wide(n);
        if den != 0 {
            let scaled = num * 65536;
            assert(scaled == num * ONE);
            let t = div_floor(scaled, den);
            if t > 0 {
                proof {
                    lemma_quotient_upper(scaled as int, den as int, 0x2000_0000_0000_0000);
                }
                let t64 = t as i64;
                let position = ray.at(t64);
                Some(Hit { t: t64, position })
            } else {
                None
            }
        } else {
            None
        }
    }
}

} // verus!

use vstd::prelude::*;

use crate::fixed::{
    div_floor, floor_div, isqrt, isqrt_u128, lemma_mul_bound, lemma_quotient_upper, ONE,
};
use crate::hittable::{Hit, Hittable, COORD_BOUND};
use crate::point4::{diff_of, point_within, Point4};
use crate::ray::{at_of, Ray};
use crate::vec4::{dot_raw, norm2};

verus! {

/// The points at distance `radius` from `center`.
#[derive(Clone, Copy, Debug, PartialEq, Eq, Structural)]
pub struct Hypersphere {
    pub center: Point4,
    pub radius: i64,
}

/// Solves `|ray.at(t) - center| = radius`, that is `a t^2 + 2 h t + c = 0` with
/// `a = d.d`, `h = d.u`, `c = u.u - radius^2` and `u = origin - center`.
/// Only the smaller root `(-h - sqrt(h^2 - a c)) / a` is taken, when the
/// discriminant is strictly positive (a graze is no hit) and the root rounds
/// down to a strictly positive `t`.
pub open spec fn sphere_hit_of(s: Hypersphere, ray: Ray) -> Option<Hit> {
    let u = diff_of(ray.origin, s.center);
    let a = norm2(ray.direction);
    let h = dot_raw(ray.direction, u);
    let c = norm2(u) - s.radius * s.radius;
    let disc = h * h - a * c;
    if a > 0 && disc > 0 {
        let t = floor_div((-h - isqrt(disc)) * ONE, a);
        if t > 0 {
            Some(Hit { t: t as i64, position: at_of(ray, t) })
        } else {
            None
        }
    } else {
        None
    }
}

impl Hypersphere {
    pub fn new(center: Point4, radius: i64) -> (r: Hypersphere)
        ensures
            r == (Hypersphere { center, radius }),
    {
        Hypersphere { center, radius }
    }
}

impl Hittable for Hypersphere {
    open spec fn accepts(&self, ray: Ray) -> bool {
        &&& ray.wf()
        &&& point_within(ray.origin, COORD_BOUND as int)
        &&& point_within(self.center, COORD_BOUND as int)
        &&& 0 <= self.radius <= COORD_BOUND
    }

    open spec fn hit_of(&self, ray: Ray) -> Option<Hit> {
        sphere_hit_of(*self, ray)
    }

    fn hit(&self, ray: &Ray) -> (r: Option<Hit>) {
        let u = ray.origin.sub(self.center);
        let d = ray.direction;
        let ghost ub: int = 2 * COORD_BOUND;
        proof {
            let one = ONE as int;
            lemma_mul_bound(d.x as int, d.x as int, one, one);
            lemma_mul_bound(d.y as int, d.y as int, one, one);
            lemma_mul_bound(d.z as int, d.z as int, one, one);
            lemma_mul_bound(d.w as int, d.w as int, one, one);
            lemma_mul_bound(d.x as int, u.x as int, one, ub);
            lemma_mul_bound(d.y as int, u.y as int, one, ub);
            lemma_mul_bound(d.z as int, u.z as int, one, ub);
            lemma_mul_bound(d.w as int, u.w as int, one, ub);
            lemma_mul_bound(u.x as int, u.x as int, ub, ub);
            lemma_mul_bound(u.y as int, u.y as int, ub, ub);
            lemma_mul_bound(u.z as int, u.z as int, ub, ub);
            lemma_mul_bound(u.w as int, u.w as int, ub, ub);
            let rb = COORD_BOUND as int;
            lemma_mul_bound(self.radius as int, self.radius as int, rb, rb);
            assert(d.x * d.x >= 0 && d.y * d.y >= 0 && d.z * d.z >= 0 && d.w * d.w >= 0
                && u.x * u.x >= 0 && u.y * u.y >= 0 && u.z * u.z >= 0 && u.w * u.w >= 0
                && self.radius * self.radius >= 0) by (nonlinear_arith);
        }
        let a = d.dot_wide(d);
        let h = d.dot_wide(u);
        let uu = u.dot_wide(u);
        let c = uu - (self.radius as i128) * (self.radius as i128);
        proof {
            lemma_mul_bound(h as int, h as int, 0x2000_0000_0000, 0x2000_0000_0000);
            lemma_mul_bound(a as int, c as int, 0x4_0000_0000, 0x100_0000_0000_0000);
        }
        let disc = h * h - a * c;
        if a > 0 && disc > 0 {
            let s = isqrt_u128(disc as u128);
            let num = -h - (s as i128);
            let n = num * (ONE as i128);
            let t = div_floor(n, a);
            proof {
                assert(num * ONE == n);
                if num > 0 {
                    assert(0 <= s < -h);
                    lemma_quotient_upper(n as int, a as int, 0x2000_0000_0000_0000);
                } else {
                    vstd::arithmetic::div_mod::lemma_div_is_ordered(n as int, 0, a as int);
                    vstd::arithmetic::div_mod::lemma_div_basics(a as int);
                }
            }
            if t > 0 {
                let t64 = t as i64;
                let position = ray.at(t64);
                Some(Hit { t: t64, position })
            } else {
                None
            }
        } else {
            None
        }
    }
}

} // verus!

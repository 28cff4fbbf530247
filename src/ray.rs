use vstd::prelude::*;

use crate::fixed::{floor_div, lemma_mul_bound, ONE};
use crate::point4::{point_within, Point4};
use crate::vec4::{is_zero, mul_of, near_unit, normalized_of, within, Vec4, NORM_BOUND};

verus! {

/// Largest parameter accepted by `Ray::at`.
pub const T_BOUND: i64 = 0x2000_0000_0000_0000;

/// A half-line: an origin and a direction of unit length within the
/// rounding of normalization (`near_unit`).
#[derive(Clone, Copy, Debug, PartialEq, Eq, Structural)]
pub struct Ray {
    pub origin: Point4,
    pub direction: Vec4,
}

/// The point `origin + direction * t`, each product rounded down.
pub open spec fn at_of(ray: Ray, t: int) -> Point4 {
    let step = mul_of(ray.direction, t);
    Point4 {
        x: (ray.origin.x + step.x) as i64,
        y: (ray.origin.y + step.y) as i64,
        z: (ray.origin.z + step.z) as i64,
        w: (ray.origin.w + step.w) as i64,
    }
}

impl Ray {
    /// A normalized direction has every component within `[-ONE, ONE]` and
    /// unit length within rounding.
    pub open spec fn wf(self) -> bool {
        within(self.direction, ONE as int) && near_unit(self.direction)
    }

    /// A ray from `origin` along `direction`, which is stored normalized.
    pub fn new(origin: Point4, direction: Vec4) -> (r: Ray)
        requires
            within(direction, NORM_BOUND as int),
            !is_zero(direction),
        ensures
            r.origin == origin,
            r.direction == normalized_of(direction),
            r.wf(),
    {
        Ray { origin, direction: direction.normalized() }
    }

    /// The point at parameter `t` along the ray.
    pub fn at(&self, t: i64) -> (r: Point4)
        requires
            self.wf(),
            point_within(self.origin, T_BOUND as int),
            -T_BOUND <= t <= T_BOUND,
        ensures
            r == at_of(*self, t as int),
    {
        proof {
            let d = self.direction;
            let b = T_BOUND as int;
            lemma_mul_bound(d.x as int, t as int, ONE as int, b);
            lemma_mul_bound(d.y as int, t as int, ONE as int, b);
            lemma_mul_bound(d.z as int, t as int, ONE as int, b);
            lemma_mul_bound(d.w as int, t as int, ONE as int, b);
            lemma_step_bound(d.x * t, b);
            lemma_step_bound(d.y * t, b);
            lemma_step_bound(d.z * t, b);
            lemma_step_bound(d.w * t, b);
        }
        self.origin.add(self.direction.mul(t))
    }
}

/// Dividing a product bounded by `ONE * b` by `ONE` gives a value bounded by `b`.
proof fn lemma_step_bound(p: int, b: int)
    requires
        0 <= b,
        -(ONE * b) <= p <= ONE * b,
    ensures
        -b <= floor_div(p, ONE as int) <= b,
{
    vstd::arithmetic::div_mod::lemma_div_is_ordered(p, ONE * b, ONE as int);
    vstd::arithmetic::div_mod::lemma_div_is_ordered(-(ONE * b), p, ONE as int);
    vstd::arithmetic::div_mod::lemma_div_multiples_vanish(b, ONE as int);
    vstd::arithmetic::div_mod::lemma_div_multiples_vanish(-b, ONE as int);
    assert(-(ONE * b) == ONE * (-b)) by (nonlinear_arith);
}

} // verus!

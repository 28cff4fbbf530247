use vstd::prelude::*;

use crate::hittable::hyperplane::Hyperplane;
use crate::hittable::hypersphere::Hypersphere;
use crate::point4::Point4;
use crate::ray::{at_of, Ray};

pub mod hyperplane;
pub mod hypersphere;

verus! {

/// Largest coordinate size accepted by the intersection tests (1024 in fixed point).
pub const COORD_BOUND: i64 = 0x400_0000;

/// Where a ray meets a primitive: the parameter `t` along the ray and the
/// point `ray.at(t)`.
#[derive(Clone, Copy, Debug, PartialEq, Eq, Structural)]
pub struct Hit {
    pub t: i64,
    pub position: Point4,
}

/// A forward hit of `ray`: strictly positive `t`, at the point the ray reaches there.
pub open spec fn is_forward_hit(ray: Ray, h: Hit) -> bool {
    h.t > 0 && h.position == at_of(ray, h.t as int)
}

/// A shape that a ray can strike.
pub trait Hittable {
    /// The inputs for which `hit` is defined: coordinates small enough for exact arithmetic.
    spec fn accepts(&self, ray: Ray) -> bool;

    /// What `hit` returns for `ray`.
    spec fn hit_of(&self, ray: Ray) -> Option<Hit>;

    /// The nearest intersection of `ray` with this shape at a strictly positive
    /// parameter, if any.
    fn hit(&self, ray: &Ray) -> (r: Option<Hit>)
        requires
            self.accepts(*ray),
        ensures
            r == self.hit_of(*ray),
            r matches Some(h) ==> is_forward_hit(*ray, h),
    ;
}

/// The closed set of primitive kinds, for scenes that mix them.
#[derive(Clone, Copy, Debug, PartialEq, Eq, Structural)]
pub enum Shape {
    Sphere(Hypersphere),
    Plane(Hyperplane),
}

impl Hittable for Shape {
    open spec fn accepts(&self, ray: Ray) -> bool {
        match *self {
            Shape::Sphere(s) => s.accepts(ray),
            Shape::Plane(p) => p.accepts(ray),
        }
    }

    open spec fn hit_of(&self, ray: Ray) -> Option<Hit> {
        match *self {
            Shape::Sphere(s) => s.hit_of(ray),
            Shape::Plane(p) => p.hit_of(ray),
        }
    }

    fn hit(&self, ray: &Ray) -> (r: Option<Hit>) {
        match self {
            Shape::Sphere(s) => s.hit(ray),
            Shape::Plane(p) => p.hit(ray),
        }
    }
}

/// Intersection has no hidden state: two calls of `hit` with the same shape
/// and ray return identical results.
pub proof fn lemma_hit_repeatable<H: Hittable>(shape: H, ray: Ray, r1: Option<Hit>, r2: Option<Hit>)
    requires
        r1 == shape.hit_of(ray),
        r2 == shape.hit_of(ray),
    ensures
        r1 == r2,
{
}

/// Keeps `acc` unless `next` is strictly nearer.
pub open spec fn closer(acc: Option<Hit>, next: Option<Hit>) -> Option<Hit> {
    match (acc, next) {
        (None, n) => n,
        (Some(a), None) => Some(a),
        (Some(a), Some(b)) => if b.t < a.t {
            Some(b)
        } else {
            Some(a)
        },
    }
}

/// The nearest of a sequence of optional hits; among equal `t`, the earliest.
pub open spec fn nearest_of(hits: Seq<Option<Hit>>) -> Option<Hit>
    decreases hits.len(),
{
    if hits.len() == 0 {
        None
    } else {
        closer(nearest_of(hits.drop_last()), hits.last())
    }
}

/// The hit with the smallest `t` among `hits`; the earliest of those on a tie,
/// and `None` when no element is present.
pub fn nearest(hits: &[Option<Hit>]) -> (r: Option<Hit>)
    ensures
        r == nearest_of(hits@),
        r is None <==> forall|i: int| 0 <= i < hits@.len() ==> hits@[i] is None,
        r matches Some(h) ==> exists|i: int|
            0 <= i < hits@.len() && hits@[i] == Some(h) && forall|j: int|
                0 <= j < i ==> (#[trigger] hits@[j] matches Some(g) ==> h.t < g.t),
        r matches Some(h) ==> forall|j: int|
            0 <= j < hits@.len() ==> (#[trigger] hits@[j] matches Some(g) ==> h.t <= g.t),
{
    let mut best: Option<Hit> = None;
    let mut i: usize = 0;
    while i < hits.len()
        invariant
            i <= hits@.len(),
            best == nearest_of(hits@.subrange(0, i as int)),
            best is None <==> forall|k: int| 0 <= k < i ==> hits@[k] is None,
            best matches Some(h) ==> exists|k: int|
                0 <= k < i && hits@[k] == Some(h) && forall|j: int|
                    0 <= j < k ==> (#[trigger] hits@[j] matches Some(g) ==> h.t < g.t),
            best matches Some(h) ==> forall|j: int|
                0 <= j < i ==> (#[trigger] hits@[j] matches Some(g) ==> h.t <= g.t),
        decreases hits@.len() - i,
    {
        let next = hits[i];
        proof {
            assert(hits@.subrange(0, i as int + 1).drop_last() =~= hits@.subrange(0, i as int));
        }
        let old_best = best;
        best = match (best, next) {
            (None, n) => n,
            (Some(a), None) => Some(a),
            (Some(a), Some(b)) => if b.t < a.t {
                Some(b)
            } else {
                Some(a)
            },
        };
        proof {
            if let Some(h) = best {
                if next == Some(h) && (old_best is None || h.t < old_best->0.t) {
                    assert(0 <= i && hits@[i as int] == Some(h) && forall|j: int|
                        0 <= j < i ==> (#[trigger] hits@[j] matches Some(g) ==> h.t < g.t));
                }
            }
        }
        i = i + 1;
    }
    proof {
        assert(hits@.subrange(0, hits@.len() as int) =~= hits@);
    }
    best
}

} // verus!

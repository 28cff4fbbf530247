use vstd::prelude::*;

use crate::fixed::fits;
use crate::vec4::Vec4;

verus! {

/// A location in four dimensions, in the same 16.16 fixed point as `Vec4`.
#[derive(Clone, Copy, Debug, PartialEq, Eq, Structural)]
pub struct Point4 {
    pub x: i64,
    pub y: i64,
    pub z: i64,
    pub w: i64,
}

/// Every coordinate of `p` lies in `[-b, b]`.
pub open spec fn point_within(p: Point4, b: int) -> bool {
    -b <= p.x <= b && -b <= p.y <= b && -b <= p.z <= b && -b <= p.w <= b
}

/// The displacement `p - q`.
pub open spec fn diff_of(p: Point4, q: Point4) -> Vec4 {
    Vec4 {
        x: (p.x - q.x) as i64,
        y: (p.y - q.y) as i64,
        z: (p.z - q.z) as i64,
        w: (p.w - q.w) as i64,
    }
}

impl Point4 {
    pub fn new(x: i64, y: i64, z: i64, w: i64) -> (r: Point4)
        ensures
            r == (Point4 { x, y, z, w }),
    {
        Point4 { x, y, z, w }
    }

    /// Translates this point by `v`.
    pub fn add(self, v: Vec4) -> (r: Point4)
        requires
            fits(self.x + v.x),
            fits(self.y + v.y),
            fits(self.z + v.z),
            fits(self.w + v.w),
        ensures
            r.x == self.x + v.x,
            r.y == self.y + v.y,
            r.z == self.z + v.z,
            r.w == self.w + v.w,
    {
        Point4 { x: self.x + v.x, y: self.y + v.y, z: self.z + v.z, w: self.w + v.w }
    }

    /// Translates this point by `-v`.
    pub fn sub_vec(self, v: Vec4) -> (r: Point4)
        requires
            fits(self.x - v.x),
            fits(self.y - v.y),
            fits(self.z - v.z),
            fits(self.w - v.w),
        ensures
            r.x == self.x - v.x,
            r.y == self.y - v.y,
            r.z == self.z - v.z,
            r.w == self.w - v.w,
    {
        Point4 { x: self.x - v.x, y: self.y - v.y, z: self.z - v.z, w: self.w - v.w }
    }

    /// The displacement from `rhs` to this point.
    pub fn sub(self, rhs: Point4) -> (r: Vec4)
        requires
            fits(self.x - rhs.x),
            fits(self.y - rhs.y),
            fits(self.z - rhs.z),
            fits(self.w - rhs.w),
        ensures
            r == diff_of(self, rhs),
            r.x == self.x - rhs.x,
            r.y == self.y - rhs.y,
            r.z == self.z - rhs.z,
            r.w == self.w - rhs.w,
    {
        Vec4 { x: self.x - rhs.x, y: self.y - rhs.y, z: self.z - rhs.z, w: self.w - rhs.w }
    }
}

} // verus!

use vstd::prelude::*;

use crate::fixed::{
    div_floor, div_trunc, fits, floor_div, is_isqrt, isqrt, isqrt_u128, lemma_isqrt_unique,
    lemma_mul_bound, lemma_sqrt_dominates, lemma_trunc_div_neg, mul_div_floor, trunc_div, ONE,
};

verus! {

/// A free vector in four dimensions. Each component is a 16.16 fixed-point
/// number: the integer `x` stands for the value `x / ONE`.
#[derive(Clone, Copy, Debug, PartialEq, Eq, Structural)]
pub struct Vec4 {
    pub x: i64,
    pub y: i64,
    pub z: i64,
    pub w: i64,
}

/// Every component of `v` lies in `[-b, b]`.
pub open spec fn within(v: Vec4, b: int) -> bool {
    -b <= v.x <= b && -b <= v.y <= b && -b <= v.z <= b && -b <= v.w <= b
}

/// Exact dot product of the raw components (scaled by `ONE * ONE`).
pub open spec fn dot_raw(a: Vec4, b: Vec4) -> int {
    a.x * b.x + a.y * b.y + a.z * b.z + a.w * b.w
}

/// Squared length of the raw components.
pub open spec fn norm2(a: Vec4) -> int {
    dot_raw(a, a)
}

/// Length in raw units: the integer square root of the sum of squares.
pub open spec fn magnitude_of(a: Vec4) -> int {
    isqrt(norm2(a))
}

pub open spec fn is_zero(a: Vec4) -> bool {
    a.x == 0 && a.y == 0 && a.z == 0 && a.w == 0
}

/// The vector whose components are `floor(c * ONE / s)`: `a` divided by the fixed-point `s`.
pub open spec fn div_of(a: Vec4, s: int) -> Vec4 {
    Vec4 {
        x: floor_div(a.x * ONE, s) as i64,
        y: floor_div(a.y * ONE, s) as i64,
        z: floor_div(a.z * ONE, s) as i64,
        w: floor_div(a.w * ONE, s) as i64,
    }
}

/// Whether each component of `a` divided by `s` is representable.
pub open spec fn div_fits(a: Vec4, s: int) -> bool {
    fits(floor_div(a.x * ONE, s)) && fits(floor_div(a.y * ONE, s)) && fits(
        floor_div(a.z * ONE, s),
    ) && fits(floor_div(a.w * ONE, s))
}

/// Whether each component of `a` times the fixed-point `s` is representable.
pub open spec fn mul_fits(a: Vec4, s: int) -> bool {
    fits(floor_div(a.x * s, ONE as int)) && fits(floor_div(a.y * s, ONE as int)) && fits(
        floor_div(a.z * s, ONE as int),
    ) && fits(floor_div(a.w * s, ONE as int))
}

/// The vector whose components are `floor(c * s / ONE)`: `a` times the fixed-point `s`.
pub open spec fn mul_of(a: Vec4, s: int) -> Vec4 {
    Vec4 {
        x: floor_div(a.x * s, ONE as int) as i64,
        y: floor_div(a.y * s, ONE as int) as i64,
        z: floor_div(a.z * s, ONE as int) as i64,
        w: floor_div(a.w * s, ONE as int) as i64,
    }
}

/// Length with sixteen more fractional bits: the integer square root of
/// `norm2(a) * 2^32`, that is the magnitude in raw units times `ONE`.
pub open spec fn fine_magnitude_of(a: Vec4) -> int {
    isqrt(norm2(a) * 0x1_0000_0000)
}

/// `a` divided by its own magnitude, each component rounded toward zero.
pub open spec fn normalized_of(a: Vec4) -> Vec4 {
    let m = fine_magnitude_of(a);
    Vec4 {
        x: trunc_div(a.x * 0x1_0000_0000, m) as i64,
        y: trunc_div(a.y * 0x1_0000_0000, m) as i64,
        z: trunc_div(a.z * 0x1_0000_0000, m) as i64,
        w: trunc_div(a.w * 0x1_0000_0000, m) as i64,
    }
}

/// Each component of `a` is within `e` raw units of the same component of `b`.
pub open spec fn close(a: Vec4, b: Vec4, e: int) -> bool {
    &&& -e <= a.x - b.x <= e
    &&& -e <= a.y - b.y <= e
    &&& -e <= a.z - b.z <= e
    &&& -e <= a.w - b.w <= e
}

/// Unit length within the rounding of normalization: the squared magnitude
/// is `ONE^2` up to `8 ONE + 3` raw units, so the magnitude is within about
/// four raw units of `ONE`.
pub open spec fn near_unit(a: Vec4) -> bool {
    ONE * ONE - 8 * ONE - 3 <= norm2(a) <= ONE * ONE + 8 * ONE
}

/// The 2x2 determinant `| p q ; r s |`.
pub open spec fn det2(p: int, q: int, r: int, s: int) -> int {
    p * s - q * r
}

/// The four signed 3x3 minors of the matrix with rows `a`, `b`, `c`: the
/// exact generalized cross product, scaled by `ONE * ONE * ONE`.
pub open spec fn cross_x(a: Vec4, b: Vec4, c: Vec4) -> int {
    a.y * det2(b.z as int, b.w as int, c.z as int, c.w as int) - a.z * det2(
        b.y as int,
        b.w as int,
        c.y as int,
        c.w as int,
    ) + a.w * det2(b.y as int, b.z as int, c.y as int, c.z as int)
}

pub open spec fn cross_y(a: Vec4, b: Vec4, c: Vec4) -> int {
    -(a.x * det2(b.z as int, b.w as int, c.z as int, c.w as int) - a.z * det2(
        b.x as int,
        b.w as int,
        c.x as int,
        c.w as int,
    ) + a.w * det2(b.x as int, b.z as int, c.x as int, c.z as int))
}

pub open spec fn cross_z(a: Vec4, b: Vec4, c: Vec4) -> int {
    a.x * det2(b.y as int, b.w as int, c.y as int, c.w as int) - a.y * det2(
        b.x as int,
        b.w as int,
        c.x as int,
        c.w as int,
    ) + a.w * det2(b.x as int, b.y as int, c.x as int, c.y as int)
}

pub open spec fn cross_w(a: Vec4, b: Vec4, c: Vec4) -> int {
    -(a.x * det2(b.y as int, b.z as int, c.y as int, c.z as int) - a.y * det2(
        b.x as int,
        b.z as int,
        c.x as int,
        c.z as int,
    ) + a.z * det2(b.x as int, b.y as int, c.x as int, c.y as int))
}

/// Dot product of the exact cross product of `a`, `b`, `c` with `v`.
pub open spec fn cross_dot(a: Vec4, b: Vec4, c: Vec4, v: Vec4) -> int {
    cross_x(a, b, c) * v.x + cross_y(a, b, c) * v.y + cross_z(a, b, c) * v.z + cross_w(a, b, c)
        * v.w
}

/// The cross product as fixed-point numbers: each exact minor divided by
/// `ONE * ONE`, rounded toward zero so that the sign symmetry survives.
pub open spec fn cross_of(a: Vec4, b: Vec4, c: Vec4) -> Vec4 {
    Vec4 {
        x: trunc_div(cross_x(a, b, c), ONE * ONE) as i64,
        y: trunc_div(cross_y(a, b, c), ONE * ONE) as i64,
        z: trunc_div(cross_z(a, b, c), ONE * ONE) as i64,
        w: trunc_div(cross_w(a, b, c), ONE * ONE) as i64,
    }
}

/// Whether each rounded component of the cross product, and its negation, is representable.
pub open spec fn cross_fits(a: Vec4, b: Vec4, c: Vec4) -> bool {
    &&& -i64::MAX <= trunc_div(cross_x(a, b, c), ONE * ONE) <= i64::MAX
    &&& -i64::MAX <= trunc_div(cross_y(a, b, c), ONE * ONE) <= i64::MAX
    &&& -i64::MAX <= trunc_div(cross_z(a, b, c), ONE * ONE) <= i64::MAX
    &&& -i64::MAX <= trunc_div(cross_w(a, b, c), ONE * ONE) <= i64::MAX
}

/// Largest component size accepted by the cross product.
pub const CROSS_BOUND: i64 = 0x100_0000_0000;

/// Largest component size accepted by `normalized` (2^30 in fixed point).
pub const NORM_BOUND: i64 = 0x4000_0000_0000;

/// Largest component size accepted by `magnitude` and `dot`.
pub const LEN_BOUND: i64 = 0x2000_0000_0000_0000;

/// The 2x2 determinant of four bounded components.
fn minor(p: i64, q: i64, r: i64, s: i64) -> (m: i128)
    requires
        -CROSS_BOUND <= p <= CROSS_BOUND,
        -CROSS_BOUND <= q <= CROSS_BOUND,
        -CROSS_BOUND <= r <= CROSS_BOUND,
        -CROSS_BOUND <= s <= CROSS_BOUND,
    ensures
        m == det2(p as int, q as int, r as int, s as int),
        -MINOR_BOUND <= m <= MINOR_BOUND,
{
    proof {
        let b = CROSS_BOUND as int;
        lemma_mul_bound(p as int, s as int, b, b);
        lemma_mul_bound(q as int, r as int, b, b);
    }
    (p as i128) * (s as i128) - (q as i128) * (r as i128)
}

/// `a1 * m1 - a2 * m2 + a3 * m3`, one row of the cofactor expansion.
fn expand(a1: i64, m1: i128, a2: i64, m2: i128, a3: i64, m3: i128) -> (r: i128)
    requires
        -CROSS_BOUND <= a1 <= CROSS_BOUND,
        -CROSS_BOUND <= a2 <= CROSS_BOUND,
        -CROSS_BOUND <= a3 <= CROSS_BOUND,
        -MINOR_BOUND <= m1 <= MINOR_BOUND,
        -MINOR_BOUND <= m2 <= MINOR_BOUND,
        -MINOR_BOUND <= m3 <= MINOR_BOUND,
    ensures
        r == a1 * m1 - a2 * m2 + a3 * m3,
        -0x1000_0000_0000_0000_0000_0000_0000_0000 <= r <= 0x1000_0000_0000_0000_0000_0000_0000_0000,
{
    proof {
        let b = CROSS_BOUND as int;
        let mb = MINOR_BOUND as int;
        lemma_mul_bound(a1 as int, m1 as int, b, mb);
        lemma_mul_bound(a2 as int, m2 as int, b, mb);
        lemma_mul_bound(a3 as int, m3 as int, b, mb);
    }
    (a1 as i128) * m1 - (a2 as i128) * m2 + (a3 as i128) * m3
}

/// Bound on a 2x2 minor of components within `CROSS_BOUND`.
pub const MINOR_BOUND: i128 = 0x2_0000_0000_0000_0000_0000;

impl Vec4 {
    pub fn new(x: i64, y: i64, z: i64, w: i64) -> (r: Vec4)
        ensures
            r == (Vec4 { x, y, z, w }),
    {
        Vec4 { x, y, z, w }
    }

    pub fn add(self, rhs: Vec4) -> (r: Vec4)
        requires
            fits(self.x + rhs.x),
            fits(self.y + rhs.y),
            fits(self.z + rhs.z),
            fits(self.w + rhs.w),
        ensures
            r.x == self.x + rhs.x,
            r.y == self.y + rhs.y,
            r.z == self.z + rhs.z,
            r.w == self.w + rhs.w,
    {
        Vec4 { x: self.x + rhs.x, y: self.y + rhs.y, z: self.z + rhs.z, w: self.w + rhs.w }
    }

    pub fn sub(self, rhs: Vec4) -> (r: Vec4)
        requires
            fits(self.x - rhs.x),
            fits(self.y - rhs.y),
            fits(self.z - rhs.z),
            fits(self.w - rhs.w),
        ensures
            r.x == self.x - rhs.x,
            r.y == self.y - rhs.y,
            r.z == self.z - rhs.z,
            r.w == self.w - rhs.w,
    {
        Vec4 { x: self.x - rhs.x, y: self.y - rhs.y, z: self.z - rhs.z, w: self.w - rhs.w }
    }

    pub fn neg(self) -> (r: Vec4)
        requires
            fits(-self.x),
            fits(-self.y),
            fits(-self.z),
            fits(-self.w),
        ensures
            r.x == -self.x,
            r.y == -self.y,
            r.z == -self.z,
            r.w == -self.w,
    {
        Vec4 { x: -self.x, y: -self.y, z: -self.z, w: -self.w }
    }

    /// Scales by the fixed-point number `s`, rounding each component down.
    pub fn mul(self, s: i64) -> (r: Vec4)
        requires
            mul_fits(self, s as int),
        ensures
            r == mul_of(self, s as int),
    {
        Vec4 {
            x: mul_div_floor(self.x, s, ONE),
            y: mul_div_floor(self.y, s, ONE),
            z: mul_div_floor(self.z, s, ONE),
            w: mul_div_floor(self.w, s, ONE),
        }
    }

    /// Divides by the nonzero fixed-point number `s`, rounding each component down.
    pub fn div(self, s: i64) -> (r: Vec4)
        requires
            s != 0,
            div_fits(self, s as int),
        ensures
            r == div_of(self, s as int),
    {
        Vec4 {
            x: mul_div_floor(self.x, ONE, s),
            y: mul_div_floor(self.y, ONE, s),
            z: mul_div_floor(self.z, ONE, s),
            w: mul_div_floor(self.w, ONE, s),
        }
    }

    /// Exact sum of the products of the raw components, as a wide integer.
    pub(crate) fn dot_wide(self, rhs: Vec4) -> (r: i128)
        requires
            within(self, LEN_BOUND as int),
            within(rhs, LEN_BOUND as int),
        ensures
            r == dot_raw(self, rhs),
            -0x1000_0000_0000_0000_0000_0000_0000_0000 <= r <= 0x1000_0000_0000_0000_0000_0000_0000_0000,
    {
        proof {
            let b = LEN_BOUND as int;
            lemma_mul_bound(self.x as int, rhs.x as int, b, b);
            lemma_mul_bound(self.y as int, rhs.y as int, b, b);
            lemma_mul_bound(self.z as int, rhs.z as int, b, b);
            lemma_mul_bound(self.w as int, rhs.w as int, b, b);
        }
        (self.x as i128) * (rhs.x as i128) + (self.y as i128) * (rhs.y as i128) + (self.z as i128)
            * (rhs.z as i128) + (self.w as i128) * (rhs.w as i128)
    }

    /// The fixed-point dot product, rounded down.
    pub fn dot(self, rhs: Vec4) -> (r: i64)
        requires
            within(self, LEN_BOUND as int),
            within(rhs, LEN_BOUND as int),
            fits(floor_div(dot_raw(self, rhs), ONE as int)),
        ensures
            r == floor_div(dot_raw(self, rhs), ONE as int),
    {
        let n = self.dot_wide(rhs);
        div_floor(n, ONE as i128) as i64
    }

    /// Length in fixed point: the integer square root of the sum of the squared raw components.
    pub fn magnitude(&self) -> (r: i64)
        requires
            within(*self, LEN_BOUND as int),
        ensures
            r == magnitude_of(*self),
            is_isqrt(norm2(*self), r as int),
    {
        let n = self.dot_wide(*self);
        proof {
            let b = LEN_BOUND as int;
            assert(n >= 0) by (nonlinear_arith)
                requires
                    n == self.x * self.x + self.y * self.y + self.z * self.z + self.w * self.w,
            ;
        }
        let s = isqrt_u128(n as u128);
        proof {
            assert(s < 0x8000_0000_0000_0000) by (nonlinear_arith)
                requires
                    s * s <= n,
                    n <= 0x1000_0000_0000_0000_0000_0000_0000_0000,
                    s >= 0,
            ;
        }
        s as i64
    }

    /// The generalized cross product: a vector orthogonal to `a`, `b` and `c`,
    /// made of the signed 3x3 minors of the matrix with those rows.
    pub fn cross(a: Vec4, b: Vec4, c: Vec4) -> (r: Vec4)
        requires
            within(a, CROSS_BOUND as int),
            within(b, CROSS_BOUND as int),
            within(c, CROSS_BOUND as int),
            cross_fits(a, b, c),
        ensures
            r == cross_of(a, b, c),
    {
        let m_xy = minor(b.x, b.y, c.x, c.y);
        let m_xz = minor(b.x, b.z, c.x, c.z);
        let m_xw = minor(b.x, b.w, c.x, c.w);
        let m_yz = minor(b.y, b.z, c.y, c.z);
        let m_yw = minor(b.y, b.w, c.y, c.w);
        let m_zw = minor(b.z, b.w, c.z, c.w);
        let scale: i128 = (ONE as i128) * (ONE as i128);
        let x = expand(a.y, m_zw, a.z, m_yw, a.w, m_yz);
        let y = expand(a.x, m_zw, a.z, m_xw, a.w, m_xz);
        let z = expand(a.x, m_yw, a.y, m_xw, a.w, m_xy);
        let w = expand(a.x, m_yz, a.y, m_xz, a.z, m_xy);
        Vec4 {
            x: div_trunc(x, scale) as i64,
            y: div_trunc(-y, scale) as i64,
            z: div_trunc(z, scale) as i64,
            w: div_trunc(-w, scale) as i64,
        }
    }

    /// This vector divided by its magnitude, each component rounded toward
    /// zero. The magnitude is taken with sixteen extra fractional bits, so the
    /// result has unit length within a few raw units (`near_unit`).
    pub fn normalized(&self) -> (r: Vec4)
        requires
            within(*self, NORM_BOUND as int),
            !is_zero(*self),
        ensures
            r == normalized_of(*self),
            within(r, ONE as int),
            near_unit(r),
            near_unit(*self) ==> close(r, *self, 16),
    {
        let n = self.dot_wide(*self);
        proof {
            let b = NORM_BOUND as int;
            lemma_mul_bound(self.x as int, self.x as int, b, b);
            lemma_mul_bound(self.y as int, self.y as int, b, b);
            lemma_mul_bound(self.z as int, self.z as int, b, b);
            lemma_mul_bound(self.w as int, self.w as int, b, b);
            assert(n >= 0) by (nonlinear_arith)
                requires
                    n == self.x * self.x + self.y * self.y + self.z * self.z + self.w * self.w,
            ;
        }
        let m = isqrt_u128((n * 0x1_0000_0000) as u128) as i128;
        proof {
            lemma_normalized_near_unit(*self, m as int);
            if near_unit(*self) {
                let nn = norm2(*self);
                assert(self.x * self.x >= 0 && self.y * self.y >= 0 && self.z * self.z >= 0
                    && self.w * self.w >= 0) by (nonlinear_arith);
                lemma_near_identity_component(self.x as int, nn, m as int);
                lemma_near_identity_component(self.y as int, nn, m as int);
                lemma_near_identity_component(self.z as int, nn, m as int);
                lemma_near_identity_component(self.w as int, nn, m as int);
            }
        }
        let k: i128 = 0x1_0000_0000;
        Vec4 {
            x: div_trunc((self.x as i128) * k, m) as i64,
            y: div_trunc((self.y as i128) * k, m) as i64,
            z: div_trunc((self.z as i128) * k, m) as i64,
            w: div_trunc((self.w as i128) * k, m) as i64,
        }
    }
}

/// Normalizing a vector of exactly unit length gives the same vector back,
/// which therefore still has unit length.
pub proof fn lemma_normalized_unit(v: Vec4)
    requires
        norm2(v) == ONE * ONE,
    ensures
        normalized_of(v) == v,
        norm2(normalized_of(v)) == ONE * ONE,
{
    let k: int = 0x1_0000_0000;
    assert(is_isqrt(k * k, k));
    lemma_isqrt_unique(k * k, k, fine_magnitude_of(v));
    lemma_trunc_exact(v.x as int);
    lemma_trunc_exact(v.y as int);
    lemma_trunc_exact(v.z as int);
    lemma_trunc_exact(v.w as int);
}

/// `c 2^32 / 2^32 == c`, rounded either way.
proof fn lemma_trunc_exact(c: int)
    ensures
        trunc_div(c * 0x1_0000_0000, 0x1_0000_0000) == c,
{
    vstd::arithmetic::div_mod::lemma_div_multiples_vanish(c, 0x1_0000_0000);
    vstd::arithmetic::div_mod::lemma_div_multiples_vanish(-c, 0x1_0000_0000);
}

/// `(p1 q1 - p2 q2 + p3 q3) x`, distributed.
proof fn lemma_expand_row(x: int, p1: int, q1: int, p2: int, q2: int, p3: int, q3: int)
    ensures
        (p1 * q1 - p2 * q2 + p3 * q3) * x == (x * p1) * q1 - (x * p2) * q2 + (x * p3) * q3,
{
    vstd::arithmetic::mul::lemma_mul_is_distributive_add_other_way(x, p1 * q1 - p2 * q2, p3 * q3);
    vstd::arithmetic::mul::lemma_mul_is_distributive_sub_other_way(x, p1 * q1, p2 * q2);
    vstd::arithmetic::mul::lemma_mul_is_commutative(p1 * q1, x);
    vstd::arithmetic::mul::lemma_mul_is_commutative(p2 * q2, x);
    vstd::arithmetic::mul::lemma_mul_is_commutative(p3 * q3, x);
    vstd::arithmetic::mul::lemma_mul_is_associative(x, p1, q1);
    vstd::arithmetic::mul::lemma_mul_is_associative(x, p2, q2);
    vstd::arithmetic::mul::lemma_mul_is_associative(x, p3, q3);
}

/// Expanding a determinant whose first two rows are equal gives zero, whatever
/// the 2x2 minors of the remaining rows.
proof fn lemma_repeated_row(
    x: int,
    y: int,
    z: int,
    w: int,
    zw: int,
    yw: int,
    yz: int,
    xw: int,
    xz: int,
    xy: int,
)
    ensures
        (y * zw - z * yw + w * yz) * x + (-(x * zw - z * xw + w * xz)) * y + (x * yw - y * xw + w
            * xy) * z + (-(x * yz - y * xz + z * xy)) * w == 0,
{
    lemma_expand_row(x, y, zw, z, yw, w, yz);
    lemma_expand_row(y, x, zw, z, xw, w, xz);
    lemma_expand_row(z, x, yw, y, xw, w, xy);
    lemma_expand_row(w, x, yz, y, xz, z, xy);
    vstd::arithmetic::mul::lemma_mul_unary_negation(x * zw - z * xw + w * xz, y);
    vstd::arithmetic::mul::lemma_mul_unary_negation(x * yz - y * xz + z * xy, w);
    vstd::arithmetic::mul::lemma_mul_is_commutative(x, y);
    vstd::arithmetic::mul::lemma_mul_is_commutative(x, z);
    vstd::arithmetic::mul::lemma_mul_is_commutative(x, w);
    vstd::arithmetic::mul::lemma_mul_is_commutative(y, z);
    vstd::arithmetic::mul::lemma_mul_is_commutative(y, w);
    vstd::arithmetic::mul::lemma_mul_is_commutative(z, w);
}

/// The exact cross product of `a`, `b`, `c` is orthogonal to its first argument `a`.
proof fn lemma_cross_orthogonal_first(a: Vec4, b: Vec4, c: Vec4)
    ensures
        cross_dot(a, b, c, a) == 0,
{
    lemma_repeated_row(
        a.x as int,
        a.y as int,
        a.z as int,
        a.w as int,
        det2(b.z as int, b.w as int, c.z as int, c.w as int),
        det2(b.y as int, b.w as int, c.y as int, c.w as int),
        det2(b.y as int, b.z as int, c.y as int, c.z as int),
        det2(b.x as int, b.w as int, c.x as int, c.w as int),
        det2(b.x as int, b.z as int, c.x as int, c.z as int),
        det2(b.x as int, b.y as int, c.x as int, c.y as int),
    );
}

/// The 3x3 determinant with rows `p`, `q`, `r`, expanded along `p`.
pub open spec fn det3(p: (int, int, int), q: (int, int, int), r: (int, int, int)) -> int {
    p.0 * det2(q.1, q.2, r.1, r.2) - p.1 * det2(q.0, q.2, r.0, r.2) + p.2 * det2(q.0, q.1, r.0, r.1)
}

/// `det3` as a sum of six products.
proof fn lemma_det3_expand(p: (int, int, int), q: (int, int, int), r: (int, int, int))
    ensures
        det3(p, q, r) == (p.0 * q.1) * r.2 - (p.0 * q.2) * r.1 - (p.1 * q.0) * r.2 + (p.1 * q.2)
            * r.0 + (p.2 * q.0) * r.1 - (p.2 * q.1) * r.0,
{
    vstd::arithmetic::mul::lemma_mul_is_distributive_sub(p.0, q.1 * r.2, q.2 * r.1);
    vstd::arithmetic::mul::lemma_mul_is_distributive_sub(p.1, q.0 * r.2, q.2 * r.0);
    vstd::arithmetic::mul::lemma_mul_is_distributive_sub(p.2, q.0 * r.1, q.1 * r.0);
    vstd::arithmetic::mul::lemma_mul_is_associative(p.0, q.1, r.2);
    vstd::arithmetic::mul::lemma_mul_is_associative(p.0, q.2, r.1);
    vstd::arithmetic::mul::lemma_mul_is_associative(p.1, q.0, r.2);
    vstd::arithmetic::mul::lemma_mul_is_associative(p.1, q.2, r.0);
    vstd::arithmetic::mul::lemma_mul_is_associative(p.2, q.0, r.1);
    vstd::arithmetic::mul::lemma_mul_is_associative(p.2, q.1, r.0);
}

/// `(p q) r == (p r) q`.
proof fn lemma_mul_swap_last(p: int, q: int, r: int)
    ensures
        (p * q) * r == (p * r) * q,
{
    vstd::arithmetic::mul::lemma_mul_is_associative(p, q, r);
    vstd::arithmetic::mul::lemma_mul_is_associative(p, r, q);
    vstd::arithmetic::mul::lemma_mul_is_commutative(q, r);
}

/// Swapping two rows of a 3x3 determinant changes its sign.
proof fn lemma_det3_swap(p: (int, int, int), q: (int, int, int), r: (int, int, int))
    ensures
        det3(q, p, r) == -det3(p, q, r),
        det3(p, r, q) == -det3(p, q, r),
{
    lemma_det3_expand(p, q, r);
    lemma_det3_expand(q, p, r);
    lemma_det3_expand(p, r, q);
    vstd::arithmetic::mul::lemma_mul_is_commutative(q.0, p.1);
    vstd::arithmetic::mul::lemma_mul_is_commutative(q.0, p.2);
    vstd::arithmetic::mul::lemma_mul_is_commutative(q.1, p.0);
    vstd::arithmetic::mul::lemma_mul_is_commutative(q.1, p.2);
    vstd::arithmetic::mul::lemma_mul_is_commutative(q.2, p.0);
    vstd::arithmetic::mul::lemma_mul_is_commutative(q.2, p.1);
    lemma_mul_swap_last(p.0, r.1, q.2);
    lemma_mul_swap_last(p.0, r.2, q.1);
    lemma_mul_swap_last(p.1, r.0, q.2);
    lemma_mul_swap_last(p.1, r.2, q.0);
    lemma_mul_swap_last(p.2, r.0, q.1);
    lemma_mul_swap_last(p.2, r.1, q.0);
}

/// Swapping two of the three arguments of the exact cross product negates it.
proof fn lemma_cross_swap(a: Vec4, b: Vec4, c: Vec4)
    ensures
        cross_x(b, a, c) == -cross_x(a, b, c) && cross_y(b, a, c) == -cross_y(a, b, c) && cross_z(
            b,
            a,
            c,
        ) == -cross_z(a, b, c) && cross_w(b, a, c) == -cross_w(a, b, c),
        cross_x(a, c, b) == -cross_x(a, b, c) && cross_y(a, c, b) == -cross_y(a, b, c) && cross_z(
            a,
            c,
            b,
        ) == -cross_z(a, b, c) && cross_w(a, c, b) == -cross_w(a, b, c),
{
    lemma_det3_swap(
        (a.y as int, a.z as int, a.w as int),
        (b.y as int, b.z as int, b.w as int),
        (c.y as int, c.z as int, c.w as int),
    );
    lemma_det3_swap(
        (a.x as int, a.z as int, a.w as int),
        (b.x as int, b.z as int, b.w as int),
        (c.x as int, c.z as int, c.w as int),
    );
    lemma_det3_swap(
        (a.x as int, a.y as int, a.w as int),
        (b.x as int, b.y as int, b.w as int),
        (c.x as int, c.y as int, c.w as int),
    );
    lemma_det3_swap(
        (a.x as int, a.y as int, a.z as int),
        (b.x as int, b.y as int, b.z as int),
        (c.x as int, c.y as int, c.z as int),
    );
}

/// Negating every component of the cross product negates its dot product with `v`.
proof fn lemma_cross_dot_negated(a: Vec4, b: Vec4, c: Vec4, a2: Vec4, b2: Vec4, c2: Vec4, v: Vec4)
    requires
        cross_x(a2, b2, c2) == -cross_x(a, b, c),
        cross_y(a2, b2, c2) == -cross_y(a, b, c),
        cross_z(a2, b2, c2) == -cross_z(a, b, c),
        cross_w(a2, b2, c2) == -cross_w(a, b, c),
    ensures
        cross_dot(a2, b2, c2, v) == -cross_dot(a, b, c, v),
{
    vstd::arithmetic::mul::lemma_mul_unary_negation(cross_x(a, b, c), v.x as int);
    vstd::arithmetic::mul::lemma_mul_unary_negation(cross_y(a, b, c), v.y as int);
    vstd::arithmetic::mul::lemma_mul_unary_negation(cross_z(a, b, c), v.z as int);
    vstd::arithmetic::mul::lemma_mul_unary_negation(cross_w(a, b, c), v.w as int);
}

/// The exact cross product of `a`, `b`, `c` is orthogonal to each of them.
pub proof fn lemma_cross_orthogonal(a: Vec4, b: Vec4, c: Vec4)
    ensures
        cross_dot(a, b, c, a) == 0,
        cross_dot(a, b, c, b) == 0,
        cross_dot(a, b, c, c) == 0,
{
    lemma_cross_orthogonal_first(a, b, c);
    // (a, b, c) -> (b, a, c): b leads.
    lemma_cross_swap(a, b, c);
    lemma_cross_dot_negated(a, b, c, b, a, c, b);
    lemma_cross_orthogonal_first(b, a, c);
    // (a, b, c) -> (a, c, b) -> (c, a, b): c leads.
    lemma_cross_swap(a, c, b);
    lemma_cross_dot_negated(a, c, b, c, a, b, c);
    lemma_cross_dot_negated(a, b, c, a, c, b, c);
    lemma_cross_orthogonal_first(c, a, b);
}

/// `0 <= x <= y` gives `x^2 <= y^2`, and `0 <= x < y` gives `x^2 < y^2`.
proof fn lemma_square_mono(x: int, y: int)
    requires
        0 <= x <= y,
    ensures
        x * x <= y * y,
        x < y ==> x * x < y * y,
{
    assert(x * x <= x * y && x * y <= y * y) by (nonlinear_arith)
        requires
            0 <= x <= y,
    ;
    if x < y {
        assert(x * y < y * y) by (nonlinear_arith)
            requires
                0 <= x < y,
        ;
    }
}

/// `(x y)^2 == x^2 y^2`.
proof fn lemma_square_product(x: int, y: int)
    ensures
        (x * y) * (x * y) == (x * x) * (y * y),
{
    assert((x * y) * (x * y) == (x * x) * (y * y)) by (nonlinear_arith);
}

/// One component `q` of a normalized vector, where `c` is the component
/// before and `m` the fine magnitude: `|q| <= ONE` and, scaled by `m^2`,
/// `q^2 <= c^2 2^64 < (|q| + 1)^2`.
proof fn lemma_unit_component(c: int, n: int, m: int)
    requires
        0 <= c * c <= n,
        is_isqrt(n * 0x1_0000_0000, m),
        m > 0,
    ensures
        -ONE <= trunc_div(c * 0x1_0000_0000, m) <= ONE,
        ({
            let q = trunc_div(c * 0x1_0000_0000, m);
            let aq = if q >= 0 { q } else { -q };
            &&& (aq * aq) * (m * m) <= (c * c) * 0x1_0000_0000_0000_0000
            &&& (c * c) * 0x1_0000_0000_0000_0000 < ((aq + 1) * (aq + 1)) * (m * m)
            &&& (aq + 1) * (aq + 1) == aq * aq + 2 * aq + 1
            &&& q * q == aq * aq
            &&& 0 <= aq <= ONE
        }),
{
    let ac = if c >= 0 { c } else { -c };
    let p = ac * 0x1_0000_0000;
    let aq = p / m;
    assert(ac * ac == c * c) by (nonlinear_arith)
        requires
            ac == c || ac == -c,
    ;
    // |c| 2^16 <= m.
    lemma_square_product(ac, 0x1_0000);
    assert((ac * ac) * (0x1_0000 * 0x1_0000) <= n * 0x1_0000_0000) by (nonlinear_arith)
        requires
            ac * ac <= n,
    ;
    assert((ac * 0x1_0000) * (ac * 0x1_0000) < (m + 1) * (m + 1));
    lemma_sqrt_dominates(ac * 0x1_0000, m);
    // aq <= ONE.
    vstd::arithmetic::div_mod::lemma_div_is_ordered(p, m * 0x1_0000, m);
    vstd::arithmetic::div_mod::lemma_div_multiples_vanish(0x1_0000, m);
    assert(m * 0x1_0000 == m * 0x1_0000int);
    vstd::arithmetic::div_mod::lemma_div_pos_is_pos(p, m);
    // aq m <= p < (aq + 1) m.
    vstd::arithmetic::div_mod::lemma_fundamental_div_mod(p, m);
    assert(aq * m <= p < (aq + 1) * m) by (nonlinear_arith)
        requires
            p == m * aq + p % m,
            0 <= p % m < m,
    ;
    assert(aq * m >= 0) by (nonlinear_arith)
        requires
            aq >= 0,
            m > 0,
    ;
    lemma_square_mono(aq * m, p);
    lemma_square_mono(p, (aq + 1) * m);
    lemma_square_product(aq, m);
    lemma_square_product(aq + 1, m);
    lemma_square_product(ac, 0x1_0000_0000);
    assert((aq + 1) * (aq + 1) == aq * aq + 2 * aq + 1) by (nonlinear_arith);
    assert((-aq) * (-aq) == aq * aq) by (nonlinear_arith);
}

/// `a x + b x + c x + d x == (a + b + c + d) x`.
proof fn lemma_sum4_mul(a: int, b: int, c: int, d: int, x: int)
    ensures
        a * x + b * x + c * x + d * x == (a + b + c + d) * x,
{
    assert(a * x + b * x + c * x + d * x == (a + b + c + d) * x) by (nonlinear_arith);
}

/// With `m >= ONE`, `Q m^2 < 2^32 (m + 1)^2` forces `Q <= ONE^2 + 8 ONE`.
proof fn lemma_unit_upper(q: int, x: int, m: int)
    requires
        x == m * m,
        m >= 0x1_0000,
        q * x < 0x1_0000_0000 * x + 0x2_0000_0000 * m + 0x1_0000_0000,
    ensures
        q <= 0x1_0000_0000 + 0x8_0000,
{
    if q > 0x1_0000_0000 + 0x8_0000 {
        vstd::arithmetic::mul::lemma_mul_inequality(0x1_0000_0000int + 0x8_0001, q, x);
        vstd::arithmetic::mul::lemma_mul_inequality(0x1_0000int, m, m);
        assert(false);
    }
}

/// With `2^32 m^2 < R m^2`, `R > 2^32`.
proof fn lemma_unit_lower(r: int, x: int)
    requires
        x >= 0,
        0x1_0000_0000 * x < r * x,
    ensures
        r > 0x1_0000_0000,
{
    if r <= 0x1_0000_0000 {
        vstd::arithmetic::mul::lemma_mul_inequality(r, 0x1_0000_0000int, x);
    }
}

/// A nonzero vector normalized with the fine magnitude `m` has every
/// component within `[-ONE, ONE]` and unit length within rounding.
proof fn lemma_normalized_near_unit(a: Vec4, m: int)
    requires
        !is_zero(a),
        within(a, NORM_BOUND as int),
        is_isqrt(norm2(a) * 0x1_0000_0000, m),
    ensures
        m >= 0x1_0000,
        -ONE <= trunc_div(a.x * 0x1_0000_0000, m) <= ONE,
        -ONE <= trunc_div(a.y * 0x1_0000_0000, m) <= ONE,
        -ONE <= trunc_div(a.z * 0x1_0000_0000, m) <= ONE,
        -ONE <= trunc_div(a.w * 0x1_0000_0000, m) <= ONE,
        ({
            let qx = trunc_div(a.x * 0x1_0000_0000, m);
            let qy = trunc_div(a.y * 0x1_0000_0000, m);
            let qz = trunc_div(a.z * 0x1_0000_0000, m);
            let qw = trunc_div(a.w * 0x1_0000_0000, m);
            ONE * ONE - 8 * ONE - 3 <= qx * qx + qy * qy + qz * qz + qw * qw <= ONE * ONE + 8 * ONE
        }),
{
    let n = norm2(a);
    assert(a.x * a.x >= 0 && a.y * a.y >= 0 && a.z * a.z >= 0 && a.w * a.w >= 0)
        by (nonlinear_arith);
    assert(n >= 1) by (nonlinear_arith)
        requires
            n == a.x * a.x + a.y * a.y + a.z * a.z + a.w * a.w,
            a.x != 0 || a.y != 0 || a.z != 0 || a.w != 0,
    ;
    if m < 0x1_0000 {
        lemma_square_mono(m + 1, 0x1_0000);
    }
    lemma_unit_component(a.x as int, n, m);
    lemma_unit_component(a.y as int, n, m);
    lemma_unit_component(a.z as int, n, m);
    lemma_unit_component(a.w as int, n, m);
    let qx = trunc_div(a.x * 0x1_0000_0000, m);
    let qy = trunc_div(a.y * 0x1_0000_0000, m);
    let qz = trunc_div(a.z * 0x1_0000_0000, m);
    let qw = trunc_div(a.w * 0x1_0000_0000, m);
    let ax = if qx >= 0 { qx } else { -qx };
    let ay = if qy >= 0 { qy } else { -qy };
    let az = if qz >= 0 { qz } else { -qz };
    let aw = if qw >= 0 { qw } else { -qw };
    let x = m * m;
    let q = qx * qx + qy * qy + qz * qz + qw * qw;
    lemma_sum4_mul(ax * ax, ay * ay, az * az, aw * aw, x);
    lemma_sum4_mul((ax + 1) * (ax + 1), (ay + 1) * (ay + 1), (az + 1) * (az + 1), (aw + 1) * (aw
        + 1), x);
    assert((m + 1) * (m + 1) == x + 2 * m + 1) by (nonlinear_arith)
        requires
            x == m * m,
    ;
    lemma_unit_upper(q, x, m);
    let r = (ax + 1) * (ax + 1) + (ay + 1) * (ay + 1) + (az + 1) * (az + 1) + (aw + 1) * (aw + 1);
    lemma_unit_lower(r, x);
}

/// Swapping two arguments of the rounded cross product negates it: the
/// result is determined up to sign by the three vectors.
pub proof fn lemma_cross_antisymmetric(a: Vec4, b: Vec4, c: Vec4)
    requires
        cross_fits(a, b, c),
    ensures
        cross_fits(b, a, c),
        cross_fits(a, c, b),
        cross_of(b, a, c).x == -cross_of(a, b, c).x,
        cross_of(b, a, c).y == -cross_of(a, b, c).y,
        cross_of(b, a, c).z == -cross_of(a, b, c).z,
        cross_of(b, a, c).w == -cross_of(a, b, c).w,
        cross_of(a, c, b).x == -cross_of(a, b, c).x,
        cross_of(a, c, b).y == -cross_of(a, b, c).y,
        cross_of(a, c, b).z == -cross_of(a, b, c).z,
        cross_of(a, c, b).w == -cross_of(a, b, c).w,
{
    lemma_cross_swap(a, b, c);
    let d = ONE * ONE;
    lemma_trunc_div_neg(cross_x(a, b, c), d);
    lemma_trunc_div_neg(cross_y(a, b, c), d);
    lemma_trunc_div_neg(cross_z(a, b, c), d);
    lemma_trunc_div_neg(cross_w(a, b, c), d);
}

/// Sum of the absolute values of the raw components.
pub open spec fn l1(v: Vec4) -> int {
    (if v.x >= 0 { v.x as int } else { -v.x }) + (if v.y >= 0 { v.y as int } else { -v.y }) + (
    if v.z >= 0 { v.z as int } else { -v.z }) + (if v.w >= 0 { v.w as int } else { -v.w })
}

/// One term of the rounding error: `|(x - r 2^32) a| <= (2^32 - 1) |a|` when
/// `r` is `x / 2^32` rounded toward zero.
proof fn lemma_rounding_term(x: int, a: int)
    ensures
        ({
            let r = trunc_div(x, 0x1_0000_0000);
            let aa = if a >= 0 { a } else { -a };
            &&& (x - r * 0x1_0000_0000) * a == x * a - 0x1_0000_0000 * (r * a)
            &&& -(0xFFFF_FFFF * aa) <= (x - r * 0x1_0000_0000) * a <= 0xFFFF_FFFF * aa
        }),
{
    let d: int = 0x1_0000_0000;
    let r = trunc_div(x, d);
    let aa = if a >= 0 { a } else { -a };
    if x >= 0 {
        vstd::arithmetic::div_mod::lemma_fundamental_div_mod(x, d);
    } else {
        vstd::arithmetic::div_mod::lemma_fundamental_div_mod(-x, d);
    }
    assert(-(d - 1) <= x - r * d <= d - 1);
    lemma_mul_bound(x - r * d, a, d - 1, aa);
    assert((x - r * 0x1_0000_0000) * a == x * a - 0x1_0000_0000 * (r * a)) by (nonlinear_arith);
}

/// The rounded cross product is orthogonal, within rounding, to any `v`
/// that the exact one is orthogonal to.
proof fn lemma_rounded_orthogonal(a: Vec4, b: Vec4, c: Vec4, v: Vec4)
    requires
        cross_fits(a, b, c),
        cross_dot(a, b, c, v) == 0,
    ensures
        -l1(v) <= dot_raw(cross_of(a, b, c), v) <= l1(v),
{
    lemma_rounding_term(cross_x(a, b, c), v.x as int);
    lemma_rounding_term(cross_y(a, b, c), v.y as int);
    lemma_rounding_term(cross_z(a, b, c), v.z as int);
    lemma_rounding_term(cross_w(a, b, c), v.w as int);
    assert(ONE * ONE == 0x1_0000_0000);
}

/// The cross product that `Vec4::cross` returns is orthogonal to each of its
/// three arguments within rounding: each dot product is at most the sum of
/// the absolute components of that argument, in raw units.
pub proof fn lemma_cross_nearly_orthogonal(a: Vec4, b: Vec4, c: Vec4)
    requires
        cross_fits(a, b, c),
    ensures
        -l1(a) <= dot_raw(cross_of(a, b, c), a) <= l1(a),
        -l1(b) <= dot_raw(cross_of(a, b, c), b) <= l1(b),
        -l1(c) <= dot_raw(cross_of(a, b, c), c) <= l1(c),
{
    lemma_cross_orthogonal(a, b, c);
    lemma_rounded_orthogonal(a, b, c, a);
    lemma_rounded_orthogonal(a, b, c, b);
    lemma_rounded_orthogonal(a, b, c, c);
}

/// Normalizing one component `c` of a vector that already has unit length
/// within rounding moves it by at most 16 raw units.
proof fn lemma_near_identity_component(c: int, n: int, m: int)
    requires
        0 <= c * c <= n,
        ONE * ONE - 8 * ONE - 3 <= n <= ONE * ONE + 8 * ONE,
        is_isqrt(n * 0x1_0000_0000, m),
    ensures
        -16 <= trunc_div(c * 0x1_0000_0000, m) - c <= 16,
{
    let big: int = 0x1_0000_0000;
    let k: int = 0x8_0003;
    // The fine magnitude lies within `k` of 2^32.
    if m >= big + k {
        lemma_square_mono(big + k, m);
    }
    if m + 1 <= big - k {
        lemma_square_mono(m + 1, big - k);
    }
    assert(big - k <= m < big + k);
    // |c| <= ONE + 4.
    lemma_sqrt_dominates(c, 0x1_0004);
    let q = trunc_div(c * big, m);
    let ac = if c >= 0 { c } else { -c };
    vstd::arithmetic::div_mod::lemma_fundamental_div_mod(ac * big, m);
    let t = c * big - q * m;
    assert(-m < t < m) by (nonlinear_arith)
        requires
            ac == c || ac == -c,
            c >= 0 ==> q == (ac * big) / m,
            c < 0 ==> q == -((ac * big) / m),
            ac * big == m * ((ac * big) / m) + (ac * big) % m,
            0 <= (ac * big) % m < m,
            t == c * big - q * m,
            ac >= 0,
            c >= 0 ==> ac == c,
            c < 0 ==> ac == -c,
    ;
    lemma_mul_bound(c, big - m, 0x1_0004, k);
    assert((q - c) * m == c * (big - m) - t) by (nonlinear_arith)
        requires
            t == c * big - q * m,
    ;
    if q - c >= 17 {
        vstd::arithmetic::mul::lemma_mul_inequality(17, q - c, m);
    }
    if q - c <= -17 {
        vstd::arithmetic::mul::lemma_mul_inequality(17, c - q, m);
        assert((c - q) * m == -((q - c) * m)) by (nonlinear_arith);
    }
}

} // verus!

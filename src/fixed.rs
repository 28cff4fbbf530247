use vstd::prelude::*;

verus! {

/// One unit in the 16.16 fixed-point representation used for every scalar.
///
/// The precision is absolute, not relative: every rounded result is within
/// one raw unit (1 / ONE) of the exact value, so a quantity of a few raw
/// units keeps only a few bits, and one below a raw unit may round to zero.
pub const ONE: i64 = 65536;

/// Rounds `n / d` toward zero, for a positive divisor.
pub open spec fn trunc_div(n: int, d: int) -> int {
    if n >= 0 {
        n / d
    } else {
        -((-n) / d)
    }
}

/// Rounding toward zero commutes with negation.
pub proof fn lemma_trunc_div_neg(n: int, d: int)
    requires
        d > 0,
    ensures
        trunc_div(-n, d) == -trunc_div(n, d),
{
    vstd::arithmetic::div_mod::lemma_div_basics(d);
}

/// Exact division of a wide integer by a positive divisor, rounded toward zero.
pub fn div_trunc(n: i128, d: i128) -> (r: i128)
    requires
        d > 0,
        n != i128::MIN,
    ensures
        r == trunc_div(n as int, d as int),
{
    if n >= 0 {
        n / d
    } else {
        let q: i128 = (-n) / d;
        -q
    }
}

/// Rounds `n / d` toward negative infinity, for a divisor of either sign.
pub open spec fn floor_div(n: int, d: int) -> int {
    if d > 0 {
        n / d
    } else {
        (-n) / (-d)
    }
}

/// Exact floor division of a wide integer by a nonzero divisor.
pub fn div_floor(n: i128, d: i128) -> (r: i128)
    requires
        d != 0,
        n != i128::MIN,
        d != i128::MIN,
    ensures
        r == floor_div(n as int, d as int),
{
    let (nn, dd): (i128, i128) = if d > 0 { (n, d) } else { (-n, -d) };
    if nn >= 0 {
        nn / dd
    } else {
        let q: i128 = (-nn - 1) / dd;
        proof {
            let a: int = -(nn as int) - 1;
            let b: int = dd as int;
            assert(a >= 0 && b > 0);
            let qq = a / b;
            let rr = a % b;
            assert(a == qq * b + rr && 0 <= rr < b) by {
                vstd::arithmetic::div_mod::lemma_fundamental_div_mod(a, b);
            };
            assert(nn as int == (-qq - 1) * b + (b - 1 - rr)) by (nonlinear_arith)
                requires
                    nn as int == -a - 1,
                    a == qq * b + rr,
            ;
            vstd::arithmetic::div_mod::lemma_fundamental_div_mod_converse(
                nn as int,
                b,
                -qq - 1,
                b - 1 - rr,
            );
        }
        -q - 1
    }
}

/// Whether `x` is representable as an `i64`.
pub open spec fn fits(x: int) -> bool {
    i64::MIN <= x <= i64::MAX
}

/// `s` is the integer square root of `n`: the largest `s` whose square does not exceed `n`.
pub open spec fn is_isqrt(n: int, s: int) -> bool {
    0 <= s && s * s <= n < (s + 1) * (s + 1)
}

/// The integer square root of a nonnegative `n`.
pub open spec fn isqrt(n: int) -> int {
    choose|s: int| is_isqrt(n, s)
}

/// At most one integer is the square root of `n`.
pub proof fn lemma_isqrt_unique(n: int, s1: int, s2: int)
    requires
        is_isqrt(n, s1),
        is_isqrt(n, s2),
    ensures
        s1 == s2,
{
    if s1 < s2 {
        assert((s1 + 1) * (s1 + 1) <= s2 * s2) by (nonlinear_arith)
            requires
                0 <= s1 + 1 <= s2,
        ;
    } else if s2 < s1 {
        assert((s2 + 1) * (s2 + 1) <= s1 * s1) by (nonlinear_arith)
            requires
                0 <= s2 + 1 <= s1,
        ;
    }
}

/// Floor of the square root, by bisection.
pub fn isqrt_u128(n: u128) -> (r: u128)
    requires
        n < 0x1_0000_0000_0000_0000_0000_0000_0000_0000,
    ensures
        r as int == isqrt(n as int),
        is_isqrt(n as int, r as int),
        r < 0x1_0000_0000_0000_0000,
{
    let mut lo: u128 = 0;
    let mut hi: u128 = 0x1_0000_0000_0000_0000;
    assert(hi * hi > n) by (nonlinear_arith)
        requires
            hi == 0x1_0000_0000_0000_0000u128,
            n < 0x1_0000_0000_0000_0000_0000_0000_0000_0000,
    ;
    while hi - lo > 1
        invariant
            lo < hi <= 0x1_0000_0000_0000_0000,
            lo * lo <= n,
            n < hi * hi,
        decreases hi - lo,
    {
        let mid: u128 = lo + (hi - lo) / 2;
        assert(mid * mid < 0x1_0000_0000_0000_0000_0000_0000_0000_0000) by (nonlinear_arith)
            requires
                mid < 0x1_0000_0000_0000_0000,
        ;
        if mid * mid <= n {
            lo = mid;
        } else {
            hi = mid;
        }
    }
    proof {
        assert(is_isqrt(n as int, lo as int));
        lemma_isqrt_unique(n as int, lo as int, isqrt(n as int));
    }
    lo
}

/// `floor_div(c * m, d)` computed exactly on `i64` inputs.
pub fn mul_div_floor(c: i64, m: i64, d: i64) -> (r: i64)
    requires
        d != 0,
        fits(floor_div(c * m, d as int)),
    ensures
        r == floor_div(c * m, d as int),
{
    proof {
        lemma_mul_bound(c as int, m as int, 0x8000_0000_0000_0000, 0x8000_0000_0000_0000);
    }
    let n: i128 = (c as i128) * (m as i128);
    div_floor(n, d as i128) as i64
}

/// A product of two bounded factors is bounded by the product of the bounds.
pub proof fn lemma_mul_bound(x: int, y: int, bx: int, by: int)
    requires
        -bx <= x <= bx,
        -by <= y <= by,
    ensures
        -(bx * by) <= x * y <= bx * by,
{
    assert(-(bx * by) <= x * y <= bx * by) by (nonlinear_arith)
        requires
            -bx <= x <= bx,
            -by <= y <= by,
    ;
}

/// An integer whose square is below `(s + 1)^2` lies in `[-s, s]`.
pub proof fn lemma_sqrt_dominates(c: int, s: int)
    requires
        0 <= s,
        c * c < (s + 1) * (s + 1),
    ensures
        -s <= c <= s,
{
    if c > s {
        assert((s + 1) * (s + 1) <= c * c) by (nonlinear_arith)
            requires
                0 <= s + 1 <= c,
        ;
    }
    if c < -s {
        assert((s + 1) * (s + 1) <= c * c) by (nonlinear_arith)
            requires
                0 <= s + 1 <= -c,
        ;
    }
}

/// A quotient by a nonzero divisor is at most `b` when the dividend lies in `[-b, b]`.
pub proof fn lemma_quotient_upper(n: int, d: int, b: int)
    requires
        d != 0,
        -b <= n <= b,
    ensures
        floor_div(n, d) <= b,
{
    let (nn, dd) = if d > 0 { (n, d) } else { (-n, -d) };
    if nn >= 0 {
        vstd::arithmetic::div_mod::lemma_div_is_ordered_by_denominator(nn, 1, dd);
        vstd::arithmetic::div_mod::lemma_div_basics(nn);
    } else {
        vstd::arithmetic::div_mod::lemma_div_is_ordered(nn, 0, dd);
        vstd::arithmetic::div_mod::lemma_div_basics(dd);
    }
}

/// A quotient by a nonzero divisor is at least `-b` when the dividend lies in `[-b, b]`.
pub proof fn lemma_quotient_lower(n: int, d: int, b: int)
    requires
        d != 0,
        -b <= n <= b,
    ensures
        -b <= floor_div(n, d),
{
    let (nn, dd) = if d > 0 { (n, d) } else { (-n, -d) };
    if nn >= 0 {
        vstd::arithmetic::div_mod::lemma_div_is_ordered(0, nn, dd);
        vstd::arithmetic::div_mod::lemma_div_basics(dd);
    } else {
        assert(nn * dd <= nn && nn * dd == dd * nn) by (nonlinear_arith)
            requires
                nn < 0,
                dd >= 1,
        ;
        vstd::arithmetic::div_mod::lemma_div_is_ordered(nn * dd, nn, dd);
        vstd::arithmetic::div_mod::lemma_div_multiples_vanish(nn, dd);
    }
}

/// Rounding toward zero keeps a dividend within `[-b, b]` in that range.
pub proof fn lemma_trunc_bound(n: int, d: int, b: int)
    requires
        d > 0,
        -b <= n <= b,
    ensures
        -b <= trunc_div(n, d) <= b,
{
    lemma_quotient_upper(n, d, b);
    lemma_quotient_lower(n, d, b);
    lemma_quotient_upper(-n, d, b);
    lemma_quotient_lower(-n, d, b);
}

} // verus!

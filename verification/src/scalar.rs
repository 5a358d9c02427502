//! Fixed-point scalars and small vectors.
//!
//! World-space quantities are carried as `i64` values in units of
//! `1 / SCALE` of a world unit, so all geometric arithmetic is exact
//! integer arithmetic.

use vstd::prelude::*;

verus! {

/// Number of fixed-point units in one world unit.
pub const SCALE: i64 = 65536;

/// A 3-D point or vector in fixed-point units.
#[derive(Clone, Copy, PartialEq, Eq, Structural, Debug)]
pub struct Vec3 {
    pub x: i64,
    pub y: i64,
    pub z: i64,
}

/// A 2-D texture coordinate in fixed-point units; each component lies
/// in `[0, SCALE]`, standing for `[0, 1]`.
#[derive(Clone, Copy, PartialEq, Eq, Structural, Debug)]
pub struct Vec2 {
    pub x: i64,
    pub y: i64,
}

/// The up vector `(0, 1, 0)` in fixed-point units.
pub open spec fn up_vector() -> Vec3 {
    Vec3 { x: 0, y: SCALE, z: 0 }
}

/// `r` is the square root of `n`, rounded down.
pub open spec fn is_sqrt_floor(n: int, r: int) -> bool {
    &&& 0 <= r
    &&& r * r <= n
    &&& n < (r + 1) * (r + 1)
}

/// The square root of `n`, rounded down.
pub open spec fn sqrt_floor(n: int) -> int {
    choose|r: int| is_sqrt_floor(n, r)
}

/// The rounded-down square root is unique, so any witness equals
/// `sqrt_floor`.
pub proof fn lemma_sqrt_floor_unique(n: int, r: int)
    requires
        is_sqrt_floor(n, r),
    ensures
        sqrt_floor(n) == r,
{
    assert(is_sqrt_floor(n, sqrt_floor(n)));
    let s = sqrt_floor(n);
    assert(s == r) by (nonlinear_arith)
        requires
            0 <= r,
            r * r <= n,
            n < (r + 1) * (r + 1),
            0 <= s,
            s * s <= n,
            n < (s + 1) * (s + 1),
    ;
}

/// Every non-negative integer has a rounded-down square root, so
/// `sqrt_floor` always denotes a genuine root.
pub proof fn lemma_sqrt_floor_exists(n: int)
    requires
        0 <= n,
    ensures
        is_sqrt_floor(n, sqrt_floor(n)),
    decreases n,
{
    if n == 0 {
        assert(is_sqrt_floor(0, 0)) by (nonlinear_arith);
    } else {
        lemma_sqrt_floor_exists(n - 1);
        let r = sqrt_floor(n - 1);
        if n < (r + 1) * (r + 1) {
            assert(is_sqrt_floor(n, r));
        } else {
            assert(is_sqrt_floor(n, r + 1)) by (nonlinear_arith)
                requires
                    0 <= r,
                    r * r <= n - 1,
                    n - 1 < (r + 1) * (r + 1),
                    n >= (r + 1) * (r + 1),
            ;
        }
        assert(exists|s: int| is_sqrt_floor(n, s));
    }
}

/// The squared length of a vector.
pub open spec fn vec3_len_sq(v: Vec3) -> int {
    v.x * v.x + v.y * v.y + v.z * v.z
}

/// For `0 <= v <= l`, the scaled quotient `v * SCALE / l` lies in
/// `[0, SCALE]`, and it reaches `SCALE` exactly when `v == l`.
pub proof fn lemma_scaled_div_bounds(v: int, l: int)
    requires
        1 <= l,
        0 <= v <= l,
    ensures
        0 <= v * (SCALE as int) / l <= SCALE as int,
        v == l ==> v * (SCALE as int) / l == SCALE as int,
{
    vstd::arithmetic::div_mod::lemma_div_is_ordered(0, v * (SCALE as int), l);
    vstd::arithmetic::mul::lemma_mul_inequality(v, l, SCALE as int);
    vstd::arithmetic::div_mod::lemma_div_is_ordered(v * (SCALE as int), l * (SCALE as int), l);
    vstd::arithmetic::div_mod::lemma_div_multiples_vanish(SCALE as int, l);
    assert(l * (SCALE as int) == (SCALE as int) * l) by {
        vstd::arithmetic::mul::lemma_mul_is_commutative(l, SCALE as int);
    }
}

/// Square root of a 128-bit value, rounded down, by bisection.
pub fn isqrt_u128(n: u128) -> (r: u128)
    requires
        (n as int) < 0x40000000000000000000000000000000,
    ensures
        is_sqrt_floor(n as int, r as int),
        r as int == sqrt_floor(n as int),
        r < 0x8000000000000000,
{
    let mut lo: u128 = 0;
    let mut hi: u128 = 0x8000000000000000;
    assert((hi as int) * (hi as int) == 0x40000000000000000000000000000000) by (nonlinear_arith)
        requires
            hi as int == 0x8000000000000000,
    ;
    while lo + 1 < hi
        invariant
            (lo as int) * (lo as int) <= n as int,
            (n as int) < (hi as int) * (hi as int),
            lo < hi <= 0x8000000000000000,
        decreases hi - lo,
    {
        let mid: u128 = lo + (hi - lo) / 2;
        assert((mid as int) * (mid as int) < 0x80000000000000000000000000000000)
            by (nonlinear_arith)
            requires
                0 <= mid as int <= 0x8000000000000000,
        ;
        if mid * mid <= n {
            lo = mid;
        } else {
            hi = mid;
        }
    }
    proof {
        lemma_sqrt_floor_unique(n as int, lo as int);
    }
    lo
}

} // verus!

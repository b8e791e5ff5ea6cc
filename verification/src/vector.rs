//! Planar vector arithmetic on fixed-point integer coordinates.

use vstd::prelude::*;
use vstd::arithmetic::div_mod::lemma_div_nonincreasing;
use vstd::arithmetic::div_mod::lemma_div_pos_is_pos;
use vstd::arithmetic::div_mod::lemma_div_is_ordered;
use vstd::arithmetic::div_mod::lemma_div_multiples_vanish;

verus! {

/// Largest coordinate magnitude the library works with.  Keeping every
/// coordinate within this bound lets squared distances and grid products
/// stay inside `i64`.
pub const COORD_LIMIT: i64 = 1_000_000_000;

/// A planar point or direction.  Coordinates are fixed-point integers in a
/// unit chosen by the caller (the simulation behaves the same at any scale).
#[derive(Copy, Clone, PartialEq, Eq, Structural, Debug)]
pub struct Vector {
    pub x: i64,
    pub y: i64,
}

/// Both coordinates within `bound`.
pub open spec fn in_bounds(v: Vector, bound: int) -> bool {
    -bound <= v.x <= bound && -bound <= v.y <= bound
}

/// The product of two values bounded by `l` is bounded by `l * l`.
pub proof fn lemma_mul_bounds(a: int, b: int, l: int)
    requires
        0 <= l,
        -l <= a <= l,
        -l <= b <= l,
    ensures
        -(l * l) <= a * b <= l * l,
{
    assert(-(l * l) <= a * b <= l * l) by (nonlinear_arith)
        requires
            0 <= l,
            -l <= a <= l,
            -l <= b <= l,
    ;
}

/// Squared Euclidean distance between two points, as a mathematical integer.
pub open spec fn dist_sq(a: Vector, b: Vector) -> int {
    (b.x - a.x) * (b.x - a.x) + (b.y - a.y) * (b.y - a.y)
}

/// `c` saturated into the representable coordinate range.
pub open spec fn clamp_spec(c: int) -> int {
    if c > COORD_LIMIT as int {
        COORD_LIMIT as int
    } else if c < -COORD_LIMIT as int {
        -COORD_LIMIT as int
    } else {
        c
    }
}

/// Saturate a coordinate into the representable range.
pub fn clamp_coord(c: i64) -> (r: i64)
    ensures
        r == clamp_spec(c as int),
        -COORD_LIMIT <= r <= COORD_LIMIT,
{
    if c > COORD_LIMIT {
        COORD_LIMIT
    } else if c < -COORD_LIMIT {
        -COORD_LIMIT
    } else {
        c
    }
}

impl Vector {
    pub fn new(x: i64, y: i64) -> (r: Vector)
        ensures
            r.x == x && r.y == y,
    {
        Vector { x, y }
    }

    /// Component-wise sum.
    pub fn add(self, other: Vector) -> (r: Vector)
        requires
            in_bounds(self, COORD_LIMIT as int),
            in_bounds(other, COORD_LIMIT as int),
        ensures
            r.x == self.x + other.x,
            r.y == self.y + other.y,
    {
        Vector { x: self.x + other.x, y: self.y + other.y }
    }

    /// Component-wise difference `to - from`.
    pub fn diff(to: &Vector, from: &Vector) -> (r: Vector)
        requires
            in_bounds(*to, COORD_LIMIT as int),
            in_bounds(*from, COORD_LIMIT as int),
        ensures
            r.x == to.x - from.x,
            r.y == to.y - from.y,
    {
        Vector { x: to.x - from.x, y: to.y - from.y }
    }

    /// Component-wise difference `self - other`.
    pub fn sub(self, other: Vector) -> (r: Vector)
        requires
            in_bounds(self, COORD_LIMIT as int),
            in_bounds(other, COORD_LIMIT as int),
        ensures
            r.x == self.x - other.x,
            r.y == self.y - other.y,
    {
        Vector { x: self.x - other.x, y: self.y - other.y }
    }

    /// Scaling by an integer factor.
    pub fn mul(self, scalar: i64) -> (r: Vector)
        requires
            self.x * scalar <= i64::MAX as int,
            self.x * scalar >= i64::MIN as int,
            self.y * scalar <= i64::MAX as int,
            self.y * scalar >= i64::MIN as int,
        ensures
            r.x == self.x * scalar,
            r.y == self.y * scalar,
    {
        Vector { x: self.x * scalar, y: self.y * scalar }
    }

    /// Dot product.
    pub fn dot(one: &Vector, other: &Vector) -> (r: i64)
        requires
            in_bounds(*one, COORD_LIMIT as int),
            in_bounds(*other, COORD_LIMIT as int),
        ensures
            r == one.x * other.x + one.y * other.y,
    {
        proof {
            lemma_mul_bounds(one.x as int, other.x as int, COORD_LIMIT as int);
            lemma_mul_bounds(one.y as int, other.y as int, COORD_LIMIT as int);
        }
        one.x * other.x + one.y * other.y
    }

    /// Squared Euclidean distance between two points.
    pub fn distance_squared(one: &Vector, other: &Vector) -> (r: i64)
        requires
            in_bounds(*one, COORD_LIMIT as int),
            in_bounds(*other, COORD_LIMIT as int),
        ensures
            r == dist_sq(*one, *other),
    {
        let dx: i64 = other.x - one.x;
        let dy: i64 = other.y - one.y;
        proof {
            lemma_mul_bounds(dx as int, dx as int, 2 * COORD_LIMIT as int);
            lemma_mul_bounds(dy as int, dy as int, 2 * COORD_LIMIT as int);
        }
        dx * dx + dy * dy
    }

    /// Euclidean length of a vector, rounded down.
    pub fn length(v: &Vector) -> (r: i64)
        requires
            in_bounds(*v, 2 * COORD_LIMIT as int),
        ensures
            r as int == sqrt_floor(v.x * v.x + v.y * v.y),
            is_sqrt_floor(v.x * v.x + v.y * v.y, r as int),
            0 <= r <= 2_900_000_000,
    {
        proof {
            lemma_mul_bounds(v.x as int, v.x as int, 2_000_000_000);
            lemma_mul_bounds(v.y as int, v.y as int, 2_000_000_000);
            assert(v.x as int * v.x as int >= 0) by (nonlinear_arith);
            assert(v.y as int * v.y as int >= 0) by (nonlinear_arith);
        }
        let xx: i64 = v.x * v.x;
        let yy: i64 = v.y * v.y;
        let r = isqrt((xx as u64) + (yy as u64));
        r as i64
    }

    /// Scale `v` to length `unit` (each component rounded toward zero); the
    /// zero vector is returned unchanged.
    pub fn normalize(v: Vector, unit: i64) -> (r: Vector)
        requires
            in_bounds(v, 2 * COORD_LIMIT as int),
            1 <= unit <= 1_000_000,
        ensures
            r == normalize_spec(v, unit as int),
            in_bounds(r, unit as int),
        {
        let len = Vector::length(&v);
        if len == 0 {
            Vector { x: 0, y: 0 }
        } else {
            proof {
                let n = v.x as int * v.x as int + v.y as int * v.y as int;
                assert(v.x as int * v.x as int <= n && v.y as int * v.y as int <= n) by (nonlinear_arith)
                    requires
                        n == v.x as int * v.x as int + v.y as int * v.y as int,
                ;
                lemma_sqrt_dominates(n, len as int, v.x as int);
                lemma_sqrt_dominates(n, len as int, v.y as int);
                assert(-(unit as int * len as int) <= v.x as int * unit as int <= unit as int
                    * len as int) by (nonlinear_arith)
                    requires
                        -(len as int) <= v.x as int <= len as int,
                        1 <= unit,
                ;
                assert(-(unit as int * len as int) <= v.y as int * unit as int <= unit as int
                    * len as int) by (nonlinear_arith)
                    requires
                        -(len as int) <= v.y as int <= len as int,
                        1 <= unit,
                ;
                lemma_div_tz_bound(v.x as int * unit as int, len as int, unit as int);
                lemma_div_tz_bound(v.y as int * unit as int, len as int, unit as int);
                lemma_mul_bounds(v.x as int, unit as int, 2_000_000_000);
                lemma_mul_bounds(v.y as int, unit as int, 2_000_000_000);
            }
            Vector { x: div_trunc(v.x * unit, len), y: div_trunc(v.y * unit, len) }
        }
    }
}


/// Division truncating toward zero, as the hardware divides.
pub open spec fn div_tz(a: int, d: int) -> int {
    if a >= 0 {
        a / d
    } else {
        -((-a) / d)
    }
}

/// Truncating division stays within a bound that covers the numerator.
pub proof fn lemma_div_tz_bound(a: int, d: int, b: int)
    requires
        1 <= d,
        0 <= b,
        -(b * d) <= a <= b * d,
    ensures
        -b <= div_tz(a, d) <= b,
        a >= 0 ==> 0 <= div_tz(a, d),
        a < 0 ==> div_tz(a, d) <= 0,
{
    if a >= 0 {
        lemma_div_pos_is_pos(a, d);
        lemma_div_is_ordered(a, b * d, d);
        lemma_div_multiples_vanish(b, d);
        assert(b * d == d * b) by (nonlinear_arith);
    } else {
        lemma_div_pos_is_pos(-a, d);
        lemma_div_is_ordered(-a, b * d, d);
        lemma_div_multiples_vanish(b, d);
        assert(b * d == d * b) by (nonlinear_arith);
    }
}

/// Truncating division, executable.
pub fn div_trunc(a: i64, d: i64) -> (r: i64)
    requires
        1 <= d,
        a > i64::MIN,
    ensures
        r == div_tz(a as int, d as int),
        a >= 0 ==> 0 <= r <= a,
        a < 0 ==> a <= r <= 0,
{
    if a >= 0 {
        proof {
            lemma_div_nonincreasing(a as int, d as int);
            lemma_div_pos_is_pos(a as int, d as int);
        }
        ((a as u64) / (d as u64)) as i64
    } else {
        proof {
            lemma_div_nonincreasing(-a as int, d as int);
            lemma_div_pos_is_pos(-a as int, d as int);
        }
        -((((-a) as u64) / (d as u64)) as i64)
    }
}

/// `r` is the floor of the square root of `n`.
pub open spec fn is_sqrt_floor(n: int, r: int) -> bool {
    0 <= r && r * r <= n && n < (r + 1) * (r + 1)
}

/// The floor of the square root of a non-negative value.
pub open spec fn sqrt_floor(n: int) -> int {
    choose|r: int| is_sqrt_floor(n, r)
}

/// Any value meeting the floor bounds is the floor of the square root.
pub proof fn lemma_sqrt_floor_unique(n: int, r: int)
    requires
        0 <= r,
        r * r <= n,
        n < (r + 1) * (r + 1),
    ensures
        sqrt_floor(n) == r,
{
    assert(is_sqrt_floor(n, r));
    assert(exists|c: int| is_sqrt_floor(n, c)) by {
        assert(is_sqrt_floor(n, r));
    }
    let c = sqrt_floor(n);
    assert(is_sqrt_floor(n, c));
    assert(c == r) by (nonlinear_arith)
        requires
            0 <= r,
            0 <= c,
            r * r <= n,
            c * c <= n,
            n < (r + 1) * (r + 1),
            n < (c + 1) * (c + 1),
    ;
}

/// A square no larger than `n` has its root no larger than the floor of
/// the square root of `n`.
pub proof fn lemma_sqrt_dominates(n: int, r: int, x: int)
    requires
        is_sqrt_floor(n, r),
        x * x <= n,
    ensures
        -r <= x <= r,
{
    assert(-r <= x <= r) by (nonlinear_arith)
        requires
            0 <= r,
            x * x <= n,
            n < (r + 1) * (r + 1),
    ;
}

/// Integer square root by bisection.
pub fn isqrt(n: u64) -> (r: u64)
    requires
        n <= 8_200_000_000_000_000_000,
    ensures
        r as int == sqrt_floor(n as int),
        is_sqrt_floor(n as int, r as int),
        r <= 2_900_000_000,
{
    let mut lo: u64 = 0;
    let mut hi: u64 = 2_900_000_000;
    while lo + 1 < hi
        invariant
            lo < hi <= 2_900_000_000,
            (lo as int) * (lo as int) <= n as int,
            (n as int) < (hi as int) * (hi as int),
            n <= 8_200_000_000_000_000_000,
        decreases hi - lo,
    {
        let mid = lo + (hi - lo) / 2;
        proof {
            assert(mid as int * mid as int <= 8_410_000_000_000_000_000) by (nonlinear_arith)
                requires
                    0 <= mid <= 2_900_000_000,
            ;
        }
        if mid * mid <= n {
            lo = mid;
        } else {
            hi = mid;
        }
    }
    proof {
        assert(hi == lo + 1);
        lemma_sqrt_floor_unique(n as int, lo as int);
    }
    lo
}

/// The vector as it reads after scaling to length `unit`, rounding each
/// component toward zero; the zero vector stays zero.
pub open spec fn normalize_spec(v: Vector, unit: int) -> Vector {
    let len = sqrt_floor(v.x * v.x + v.y * v.y);
    if len == 0 {
        Vector { x: 0, y: 0 }
    } else {
        Vector { x: div_tz(v.x * unit, len) as i64, y: div_tz(v.y * unit, len) as i64 }
    }
}

} // verus!

//! Fixed-point 3D vector arithmetic.
//!
//! Coordinates are `i64` values in units of `1 / SCALE` model units. Every
//! executable operation carries a precondition wide enough for its callers
//! and is proved exact against the unbounded integer specification.

use vstd::prelude::*;
use vstd::arithmetic::div_mod::{
    lemma_div_is_ordered, lemma_div_multiples_vanish, lemma_div_pos_is_pos,
};

verus! {

/// Fixed-point scale: this many integer units stand for one model unit.
pub const SCALE: i64 = 1024;

/// Bound on every coordinate the library accepts (positions and ray data).
/// Chosen so that all intermediate products of the geometric predicates fit
/// in the machine integers they are computed in.
pub const COORD_LIMIT: i64 = 32768;

/// The squared distance cutoff of the region growth: one model unit, squared
/// (`SCALE * SCALE`), in fixed-point units.
pub const MAX_DIST_SQ: i64 = 1048576;

/// Operand bound under which componentwise addition and subtraction cannot
/// overflow an `i64`.
pub const ADD_LIMIT: i64 = 0x1000_0000_0000_0000;

/// Operand bound under which a cross product cannot overflow an `i64`.
pub const CROSS_LIMIT: i64 = 0x4000_0000;

/// First-operand bound of `v_dot`.
pub const DOT_LIMIT_A: i64 = 0x10_0000;

/// Second-operand bound of `v_dot`.
pub const DOT_LIMIT_B: i64 = 0x200_0000_0000;

/// Operand bound of `v_dist_sq`.
pub const DIST_LIMIT: i64 = 0x8_0000;

/// A point or direction in fixed-point coordinates.
#[derive(Clone, Copy, PartialEq, Eq, Structural, Debug)]
pub struct Vec3 {
    pub x: i64,
    pub y: i64,
    pub z: i64,
}

impl Vec3 {
    /// The vector as a triple of unbounded integers, for specifications.
    pub open spec fn s(self) -> (int, int, int) {
        (self.x as int, self.y as int, self.z as int)
    }

    pub fn new(x: i64, y: i64, z: i64) -> (r: Vec3)
        ensures
            r == (Vec3 { x, y, z }),
    {
        Vec3 { x, y, z }
    }
}

/// The all-zero vector.
pub open spec fn zero3() -> Vec3 {
    Vec3 { x: 0, y: 0, z: 0 }
}

pub open spec fn adds(a: (int, int, int), b: (int, int, int)) -> (int, int, int) {
    (a.0 + b.0, a.1 + b.1, a.2 + b.2)
}

pub open spec fn subs(a: (int, int, int), b: (int, int, int)) -> (int, int, int) {
    (a.0 - b.0, a.1 - b.1, a.2 - b.2)
}

pub open spec fn crosss(a: (int, int, int), b: (int, int, int)) -> (int, int, int) {
    (a.1 * b.2 - a.2 * b.1, a.2 * b.0 - a.0 * b.2, a.0 * b.1 - a.1 * b.0)
}

pub open spec fn dots(a: (int, int, int), b: (int, int, int)) -> int {
    a.0 * b.0 + a.1 * b.1 + a.2 * b.2
}

pub open spec fn dist_sqs(a: (int, int, int), b: (int, int, int)) -> int {
    dots(subs(a, b), subs(a, b))
}

/// Every component of `a` lies in `[-b, b]`.
pub open spec fn bnd(a: (int, int, int), b: int) -> bool {
    &&& -b <= a.0 <= b
    &&& -b <= a.1 <= b
    &&& -b <= a.2 <= b
}

/// Every component of `v` lies in `[-b, b]`.
pub open spec fn bounded(v: Vec3, b: int) -> bool {
    bnd(v.s(), b)
}

/// Quotient truncated toward zero, as Rust's `/` computes it; `d > 0`.
pub open spec fn div_tz(a: int, d: int) -> int {
    if a >= 0 {
        a / d
    } else {
        -((-a) / d)
    }
}

/// Sign of an integer: `-1`, `0` or `1`.
pub open spec fn sgn(x: int) -> int {
    if x > 0 {
        1
    } else if x < 0 {
        -1
    } else {
        0
    }
}

/// A dot product of bounded vectors is bounded.
pub proof fn lemma_dot_range(a: (int, int, int), b: (int, int, int), aa: int, bb: int)
    requires
        bnd(a, aa),
        bnd(b, bb),
        0 <= aa,
        0 <= bb,
    ensures
        -(3 * (aa * bb)) <= dots(a, b) <= 3 * (aa * bb),
{
    lemma_mul_bnd(a.0, b.0, aa, bb);
    lemma_mul_bnd(a.1, b.1, aa, bb);
    lemma_mul_bnd(a.2, b.2, aa, bb);
}

/// A cross product of bounded vectors is bounded.
pub proof fn lemma_cross_range(a: (int, int, int), b: (int, int, int), aa: int, bb: int)
    requires
        bnd(a, aa),
        bnd(b, bb),
        0 <= aa,
        0 <= bb,
    ensures
        bnd(crosss(a, b), 2 * (aa * bb)),
{
    lemma_mul_bnd(a.1, b.2, aa, bb);
    lemma_mul_bnd(a.2, b.1, aa, bb);
    lemma_mul_bnd(a.2, b.0, aa, bb);
    lemma_mul_bnd(a.0, b.2, aa, bb);
    lemma_mul_bnd(a.0, b.1, aa, bb);
    lemma_mul_bnd(a.1, b.0, aa, bb);
}

/// A product of bounded factors is bounded by the product of the bounds.
pub proof fn lemma_mul_bnd(a: int, b: int, aa: int, bb: int)
    requires
        -aa <= a <= aa,
        -bb <= b <= bb,
        0 <= aa,
        0 <= bb,
    ensures
        -(aa * bb) <= a * b <= aa * bb,
{
    assert(-(aa * bb) <= a * b <= aa * bb) by (nonlinear_arith)
        requires
            -aa <= a <= aa,
            -bb <= b <= bb,
            0 <= aa,
            0 <= bb,
    ;
}

/// Truncated division keeps a bound: `|n| <= d * b` gives `|n / d| <= b`.
pub proof fn lemma_div_tz_bound(n: int, d: int, b: int)
    requires
        0 < d,
        0 <= b,
        -(d * b) <= n <= d * b,
    ensures
        -b <= div_tz(n, d) <= b,
{
    if n >= 0 {
        lemma_div_is_ordered(n, d * b, d);
        lemma_div_multiples_vanish(b, d);
        lemma_div_pos_is_pos(n, d);
    } else {
        lemma_div_is_ordered(-n, d * b, d);
        lemma_div_multiples_vanish(b, d);
        lemma_div_pos_is_pos(-n, d);
    }
}

/// Truncated division is monotone on nonnegative numerators.
pub proof fn lemma_div_tz_ordered(n1: int, n2: int, d: int)
    requires
        0 < d,
        0 <= n1 <= n2,
    ensures
        div_tz(n1, d) <= div_tz(n2, d),
{
    lemma_div_is_ordered(n1, n2, d);
}

pub fn v_sub(a: Vec3, b: Vec3) -> (r: Vec3)
    requires
        bounded(a, ADD_LIMIT as int),
        bounded(b, ADD_LIMIT as int),
    ensures
        r.s() == subs(a.s(), b.s()),
{
    Vec3 { x: a.x - b.x, y: a.y - b.y, z: a.z - b.z }
}

pub fn v_cross(a: Vec3, b: Vec3) -> (r: Vec3)
    requires
        bounded(a, CROSS_LIMIT as int),
        bounded(b, CROSS_LIMIT as int),
    ensures
        r.s() == crosss(a.s(), b.s()),
{
    proof {
        lemma_mul_bnd(a.y as int, b.z as int, CROSS_LIMIT as int, CROSS_LIMIT as int);
        lemma_mul_bnd(a.z as int, b.y as int, CROSS_LIMIT as int, CROSS_LIMIT as int);
        lemma_mul_bnd(a.z as int, b.x as int, CROSS_LIMIT as int, CROSS_LIMIT as int);
        lemma_mul_bnd(a.x as int, b.z as int, CROSS_LIMIT as int, CROSS_LIMIT as int);
        lemma_mul_bnd(a.x as int, b.y as int, CROSS_LIMIT as int, CROSS_LIMIT as int);
        lemma_mul_bnd(a.y as int, b.x as int, CROSS_LIMIT as int, CROSS_LIMIT as int);
    }
    Vec3 {
        x: a.y * b.z - a.z * b.y,
        y: a.z * b.x - a.x * b.z,
        z: a.x * b.y - a.y * b.x,
    }
}

pub fn v_dot(a: Vec3, b: Vec3) -> (r: i64)
    requires
        bounded(a, DOT_LIMIT_A as int),
        bounded(b, DOT_LIMIT_B as int),
    ensures
        r == dots(a.s(), b.s()),
{
    proof {
        lemma_mul_bnd(a.x as int, b.x as int, DOT_LIMIT_A as int, DOT_LIMIT_B as int);
        lemma_mul_bnd(a.y as int, b.y as int, DOT_LIMIT_A as int, DOT_LIMIT_B as int);
        lemma_mul_bnd(a.z as int, b.z as int, DOT_LIMIT_A as int, DOT_LIMIT_B as int);
    }
    a.x * b.x + a.y * b.y + a.z * b.z
}

/// Dot product computed in `i128`, for the wide accumulators of the normal
/// computation.
pub fn v_dot_wide(a: Vec3, b: Vec3) -> (r: i128)
    requires
        bounded(a, 0x4000_0000_0000_0000),
        bounded(b, 0x4000_0000_0000_0000),
    ensures
        r == dots(a.s(), b.s()),
{
    proof {
        let lim: int = 0x4000_0000_0000_0000;
        lemma_mul_bnd(a.x as int, b.x as int, lim, lim);
        lemma_mul_bnd(a.y as int, b.y as int, lim, lim);
        lemma_mul_bnd(a.z as int, b.z as int, lim, lim);
    }
    (a.x as i128) * (b.x as i128) + (a.y as i128) * (b.y as i128) + (a.z as i128) * (b.z as i128)
}

/// Squared Euclidean distance between two bounded points.
pub fn v_dist_sq(a: Vec3, b: Vec3) -> (r: i64)
    requires
        bounded(a, DIST_LIMIT as int),
        bounded(b, DIST_LIMIT as int),
    ensures
        r == dist_sqs(a.s(), b.s()),
        0 <= r,
{
    let dx = a.x - b.x;
    let dy = a.y - b.y;
    let dz = a.z - b.z;
    proof {
        let lim: int = 2 * DIST_LIMIT as int;
        lemma_mul_bnd(dx as int, dx as int, lim, lim);
        lemma_mul_bnd(dy as int, dy as int, lim, lim);
        lemma_mul_bnd(dz as int, dz as int, lim, lim);
        assert(0 <= dx as int * dx as int && 0 <= dy as int * dy as int && 0 <= dz as int
            * dz as int) by (nonlinear_arith);
    }
    dx * dx + dy * dy + dz * dz
}

/// Quotient of `a` by `d`, truncated toward zero.
pub fn div_trunc(a: i128, d: i128) -> (r: i128)
    requires
        0 < d,
    ensures
        r == div_tz(a as int, d as int),
{
    proof {
        if a >= 0 {
            lemma_div_pos_is_pos(a as int, d as int);
            lemma_div_is_ordered(0, a as int, d as int);
            vstd::arithmetic::div_mod::lemma_div_nonincreasing(a as int, d as int);
        } else {
            lemma_div_pos_is_pos(-(a as int), d as int);
            vstd::arithmetic::div_mod::lemma_div_nonincreasing(-(a as int), d as int);
        }
    }
    match a.checked_div(d) {
        Some(q) => q,
        None => 0,
    }
}

/// `a * b / d`, truncated toward zero, with the product taken in `i128`.
pub fn mul_div_trunc(a: i128, b: i128, d: i128) -> (r: i128)
    requires
        0 < d,
        -0x4000_0000_0000_0000 <= a <= 0x4000_0000_0000_0000,
        -0x4000_0000_0000_0000 <= b <= 0x4000_0000_0000_0000,
    ensures
        r == div_tz(a as int * b as int, d as int),
{
    proof {
        lemma_mul_bnd(a as int, b as int, 0x4000_0000_0000_0000, 0x4000_0000_0000_0000);
    }
    let p = a * b;
    div_trunc(p, d)
}

/// Integer square root: the greatest `r` with `r * r <= n`.
pub fn isqrt(n: u128) -> (r: u128)
    requires
        n < 0x400_0000_0000_0000_0000_0000_0000,
    ensures
        r * r <= n,
        n < (r + 1) * (r + 1),
        r < 0x20_0000_0000_0000,
{
    let mut lo: u128 = 0;
    let mut hi: u128 = 0x20_0000_0000_0000;
    proof {
        assert(0x20_0000_0000_0000 * 0x20_0000_0000_0000 == 0x400_0000_0000_0000_0000_0000_0000)
            by (nonlinear_arith);
    }
    while lo + 1 < hi
        invariant
            lo < hi <= 0x20_0000_0000_0000,
            lo * lo <= n,
            n < hi * hi,
        decreases hi - lo,
    {
        let mid = lo + (hi - lo) / 2;
        proof {
            assert(lo < mid < hi);
            lemma_mul_bnd(mid as int, mid as int, 0x20_0000_0000_0000, 0x20_0000_0000_0000);
            assert(0x20_0000_0000_0000 * 0x20_0000_0000_0000
                == 0x400_0000_0000_0000_0000_0000_0000) by (nonlinear_arith);
        }
        if mid * mid <= n {
            lo = mid;
        } else {
            hi = mid;
        }
    }
    lo
}

} // verus!

//! Displacements and directions in space.

use crate::utilities::fixed::{floor_div, isqrt, ONE};
use vstd::prelude::*;

verus! {

/// The largest component for which dot products are formed: with it the sum of
/// three products stays inside `i128`.
pub const DOT_MAX: i64 = 0x4000_0000_0000_0000;

/// A vector of three fixed-point components.
#[derive(Clone, Copy, Debug, PartialEq, Eq, Structural)]
pub struct Vec3 {
    pub x: i64,
    pub y: i64,
    pub z: i64,
}

impl Vec3 {
    /// Every component lies in `-m ..= m`.
    pub open spec fn within(self, m: int) -> bool {
        &&& -m <= self.x <= m
        &&& -m <= self.y <= m
        &&& -m <= self.z <= m
    }

    pub open spec fn is_zero(self) -> bool {
        self.x == 0 && self.y == 0 && self.z == 0
    }

    /// The exact dot product, in units of `1 / (ONE * ONE)`.
    pub open spec fn dot_spec(self, other: Vec3) -> int {
        self.x * other.x + self.y * other.y + self.z * other.z
    }

    /// The exact squared length, in units of `1 / (ONE * ONE)`.
    pub open spec fn length2_spec(self) -> int {
        self.dot_spec(self)
    }

    /// The length, rounded down to the grid.
    pub open spec fn length_spec(self) -> int {
        crate::utilities::fixed::floor_sqrt(self.length2_spec())
    }

    pub open spec fn neg_spec(self) -> Vec3 {
        Vec3 { x: (-self.x) as i64, y: (-self.y) as i64, z: (-self.z) as i64 }
    }

    /// The vector divided by its length, each component rounded down.
    pub open spec fn unit_spec(self) -> Vec3 {
        let len = self.length_spec();
        Vec3 {
            x: ((self.x * ONE) / len) as i64,
            y: ((self.y * ONE) / len) as i64,
            z: ((self.z * ONE) / len) as i64,
        }
    }

    /// The vector divided by the scalar `k`, each component rounded down.
    pub open spec fn over_spec(self, k: int) -> Vec3 {
        Vec3 {
            x: crate::utilities::fixed::floor_quot(self.x * ONE, k) as i64,
            y: crate::utilities::fixed::floor_quot(self.y * ONE, k) as i64,
            z: crate::utilities::fixed::floor_quot(self.z * ONE, k) as i64,
        }
    }

    pub fn new(x: i64, y: i64, z: i64) -> (v: Self)
        ensures
            v == (Vec3 { x, y, z }),
    {
        Vec3 { x, y, z }
    }

    /// Tells whether every component lies in `-m ..= m`.
    pub fn is_within(&self, m: i64) -> (b: bool)
        requires
            0 <= m,
        ensures
            b == self.within(m as int),
    {
        -m <= self.x && self.x <= m && -m <= self.y && self.y <= m && -m <= self.z && self.z <= m
    }

    pub fn dot(&self, other: &Vec3) -> (d: i128)
        requires
            self.within(DOT_MAX as int),
            other.within(DOT_MAX as int),
        ensures
            d == self.dot_spec(*other),
    {
        proof {
            lemma_dot_within(*self, *other, DOT_MAX as int, DOT_MAX as int);
        }
        let px: i128 = (self.x as i128) * (other.x as i128);
        let py: i128 = (self.y as i128) * (other.y as i128);
        let pz: i128 = (self.z as i128) * (other.z as i128);
        px + py + pz
    }

    pub fn length2(&self) -> (d: i128)
        requires
            self.within(DOT_MAX as int),
        ensures
            d == self.length2_spec(),
            d >= 0,
    {
        proof {
            lemma_length2_positive(*self);
        }
        self.dot(self)
    }

    pub fn neg(&self) -> (v: Vec3)
        requires
            self.within(i64::MAX as int),
        ensures
            v == self.neg_spec(),
            v.x == -self.x,
            v.y == -self.y,
            v.z == -self.z,
    {
        Vec3 { x: -self.x, y: -self.y, z: -self.z }
    }

    /// The direction of the vector: the vector divided by its length.
    pub fn unit(&self) -> (u: Vec3)
        requires
            self.within(DOT_MAX as int),
            !self.is_zero(),
        ensures
            u == self.unit_spec(),
            u.within(ONE as int),
    {
        let len2: i128 = self.length2();
        let len: i128 = isqrt(len2 as u128) as i128;
        proof {
            lemma_length_covers(*self);
        }
        let ux: i128 = floor_div((self.x as i128) * (ONE as i128), len);
        let uy: i128 = floor_div((self.y as i128) * (ONE as i128), len);
        let uz: i128 = floor_div((self.z as i128) * (ONE as i128), len);
        proof {
            lemma_ratio_within(self.x as int, len as int);
            lemma_ratio_within(self.y as int, len as int);
            lemma_ratio_within(self.z as int, len as int);
        }
        Vec3 { x: ux as i64, y: uy as i64, z: uz as i64 }
    }
}

/// A dot product of bounded vectors is bounded, and so is each of its terms.
pub proof fn lemma_dot_within(u: Vec3, v: Vec3, a: int, b: int)
    requires
        u.within(a),
        v.within(b),
    ensures
        -(a * b) <= u.x * v.x <= a * b,
        -(a * b) <= u.y * v.y <= a * b,
        -(a * b) <= u.z * v.z <= a * b,
        -3 * (a * b) <= u.dot_spec(v) <= 3 * (a * b),
{
    crate::utilities::fixed::lemma_mul_within(u.x as int, v.x as int, a, b);
    crate::utilities::fixed::lemma_mul_within(u.y as int, v.y as int, a, b);
    crate::utilities::fixed::lemma_mul_within(u.z as int, v.z as int, a, b);
}

/// A squared length is never negative, and is zero only for the zero vector.
pub proof fn lemma_length2_positive(v: Vec3)
    ensures
        v.length2_spec() >= 0,
        v.length2_spec() == 0 <==> v.is_zero(),
        v.x * v.x <= v.length2_spec(),
        v.y * v.y <= v.length2_spec(),
        v.z * v.z <= v.length2_spec(),
{
    assert(v.x * v.x >= 0 && (v.x * v.x == 0 <==> v.x == 0)) by (nonlinear_arith);
    assert(v.y * v.y >= 0 && (v.y * v.y == 0 <==> v.y == 0)) by (nonlinear_arith);
    assert(v.z * v.z >= 0 && (v.z * v.z == 0 <==> v.z == 0)) by (nonlinear_arith);
}

/// The rounded length of a vector that is not zero is at least one grid step,
/// and no component is longer than it.
pub proof fn lemma_length_covers(v: Vec3)
    requires
        !v.is_zero(),
    ensures
        v.length_spec() >= 1,
        v.within(v.length_spec()),
{
    lemma_length2_positive(v);
    let n = v.length2_spec();
    crate::utilities::fixed::lemma_floor_sqrt_is_root(n);
    let len = v.length_spec();
    assert(len >= 1) by (nonlinear_arith)
        requires
            0 <= len,
            n < (len + 1) * (len + 1),
            n >= 1,
    ;
    lemma_square_covers(v.x as int, n, len);
    lemma_square_covers(v.y as int, n, len);
    lemma_square_covers(v.z as int, n, len);
}

/// An integer whose square is at most `n` is at most the rounded root of `n`.
pub proof fn lemma_square_covers(x: int, n: int, root: int)
    by (nonlinear_arith)
    requires
        x * x <= n,
        0 <= root,
        n < (root + 1) * (root + 1),
    ensures
        -root <= x <= root,
{
}

/// A component divided by a length that covers it is at most one.
pub proof fn lemma_ratio_within(x: int, len: int)
    requires
        len >= 1,
        -len <= x <= len,
    ensures
        -(ONE as int) <= (x * ONE) / len <= ONE,
{
    assert(x * ONE <= len * ONE && -(len * ONE) <= x * ONE) by (nonlinear_arith)
        requires
            -len <= x <= len,
    ;
    vstd::arithmetic::div_mod::lemma_div_is_ordered(x * ONE, len * ONE, len);
    vstd::arithmetic::div_mod::lemma_div_is_ordered(-(len * ONE), x * ONE, len);
    vstd::arithmetic::div_mod::lemma_div_multiples_vanish(ONE as int, len);
    vstd::arithmetic::div_mod::lemma_div_multiples_vanish(-(ONE as int), len);
    assert(len * ONE == ONE * len) by (nonlinear_arith);
    assert(-(len * ONE) == (-(ONE as int)) * len) by (nonlinear_arith);
}

/// The dot product is symmetric, and negating one side negates it.
pub proof fn lemma_dot_negated(u: Vec3, v: Vec3)
    requires
        v.within(i64::MAX as int),
    ensures
        v.dot_spec(u) == u.dot_spec(v),
        v.neg_spec().dot_spec(u) == -u.dot_spec(v),
{
    assert(v.x * u.x == u.x * v.x && (-v.x) * u.x == -(u.x * v.x)) by (nonlinear_arith);
    assert(v.y * u.y == u.y * v.y && (-v.y) * u.y == -(u.y * v.y)) by (nonlinear_arith);
    assert(v.z * u.z == u.z * v.z && (-v.z) * u.z == -(u.z * v.z)) by (nonlinear_arith);
}

impl Default for Vec3 {
    /// The zero vector.
    fn default() -> (v: Self)
        ensures
            v == (Vec3 { x: 0, y: 0, z: 0 }),
    {
        Vec3 { x: 0, y: 0, z: 0 }
    }
}

} // verus!

//! The arithmetic of a line and a sphere: where the rounded roots of their
//! quadratic put a point.

use crate::utilities::fixed::ONE;
use crate::utilities::vec3::Vec3;
use vstd::prelude::*;

verus! {

pub open spec fn abs(x: int) -> int {
    if x < 0 {
        -x
    } else {
        x
    }
}

/// A sum of three terms times a factor, term by term.
pub proof fn lemma_distribute3(p: int, q: int, r: int, s: int)
    by (nonlinear_arith)
    ensures
        (p + q + r) * s == p * s + q * s + r * s,
        s * (p + q + r) == s * p + s * q + s * r,
{
}

/// The square of a sum of three terms.
pub proof fn lemma_square3(p: int, q: int, r: int)
    by (nonlinear_arith)
    ensures
        (p + q + r) * (p + q + r) == p * p + q * q + r * r + 2 * (p * q) + 2 * (p * r) + 2 * (q
            * r),
{
}

/// A product of two squares is the square of the product.
pub proof fn lemma_square_product(a: int, x: int)
    by (nonlinear_arith)
    ensures
        (a * a) * (x * x) == (a * x) * (a * x),
        (a * x) * (a * x) >= 0,
{
}

/// The two-dimensional case of Lagrange's identity.
pub proof fn lemma_cross_term(a: int, b: int, x: int, y: int)
    ensures
        (a * y) * (a * y) + (b * x) * (b * x) - 2 * ((a * x) * (b * y)) == (a * y - b * x) * (a * y
            - b * x),
        (a * y - b * x) * (a * y - b * x) >= 0,
{
    let p = a * y;
    let q = b * x;
    assert((p - q) * (p - q) == p * p + q * q - 2 * (p * q) && (p - q) * (p - q) >= 0)
        by (nonlinear_arith);
    assert(p * q == (a * x) * (b * y)) by (nonlinear_arith)
        requires
            p == a * y,
            q == b * x,
    ;
}

/// A vector of three integers: what the algebra of rounded points works on.
pub struct V3 {
    pub x: int,
    pub y: int,
    pub z: int,
}

impl V3 {
    /// The vector of the components of `v`.
    pub open spec fn of(v: Vec3) -> V3 {
        V3 { x: v.x as int, y: v.y as int, z: v.z as int }
    }

    pub open spec fn dot(self, other: V3) -> int {
        self.x * other.x + self.y * other.y + self.z * other.z
    }

    pub open spec fn norm2(self) -> int {
        self.dot(self)
    }

    /// The sum of the absolute values of the components.
    pub open spec fn norm1(self) -> int {
        abs(self.x) + abs(self.y) + abs(self.z)
    }

    pub open spec fn plus(self, other: V3) -> V3 {
        V3 { x: self.x + other.x, y: self.y + other.y, z: self.z + other.z }
    }

    pub open spec fn times(self, k: int) -> V3 {
        V3 { x: k * self.x, y: k * self.y, z: k * self.z }
    }

    /// The squared length of the cross product with `other`.
    pub open spec fn cross2(self, other: V3) -> int {
        (self.x * other.y - self.y * other.x) * (self.x * other.y - self.y * other.x) + (self.x
            * other.z - self.z * other.x) * (self.x * other.z - self.z * other.x) + (self.y
            * other.z - self.z * other.y) * (self.y * other.z - self.z * other.y)
    }
}

/// The square of the area that `u` and `v` span: the squared length of their
/// cross product.
pub open spec fn cross2_spec(u: Vec3, v: Vec3) -> int {
    V3::of(u).cross2(V3::of(v))
}

/// Lagrange's identity: the product of the squared lengths exceeds the square
/// of the dot product by the squared length of the cross product.
pub proof fn lemma_lagrange_int(u: V3, v: V3)
    ensures
        u.norm2() * v.norm2() - u.dot(v) * u.dot(v) == u.cross2(v),
        u.cross2(v) >= 0,
        u.dot(v) * u.dot(v) <= u.norm2() * v.norm2(),
{
    let (a, b, c) = (u.x, u.y, u.z);
    let (x, y, z) = (v.x, v.y, v.z);
    let vv = x * x + y * y + z * z;
    lemma_distribute3(a * a, b * b, c * c, vv);
    lemma_distribute3(x * x, y * y, z * z, a * a);
    lemma_distribute3(x * x, y * y, z * z, b * b);
    lemma_distribute3(x * x, y * y, z * z, c * c);
    lemma_square_product(a, x);
    lemma_square_product(a, y);
    lemma_square_product(a, z);
    lemma_square_product(b, x);
    lemma_square_product(b, y);
    lemma_square_product(b, z);
    lemma_square_product(c, x);
    lemma_square_product(c, y);
    lemma_square_product(c, z);
    lemma_square3(a * x, b * y, c * z);
    lemma_cross_term(a, b, x, y);
    lemma_cross_term(a, c, x, z);
    lemma_cross_term(b, c, y, z);
}

/// Lagrange's identity for vectors on the grid.
pub proof fn lemma_lagrange(u: Vec3, v: Vec3)
    ensures
        u.length2_spec() * v.length2_spec() - u.dot_spec(v) * u.dot_spec(v) == cross2_spec(u, v),
        cross2_spec(u, v) >= 0,
{
    lemma_lagrange_int(V3::of(u), V3::of(v));
}

/// The square of a dot product is at most the product of the squared lengths.
pub proof fn lemma_cauchy_schwarz(u: Vec3, v: Vec3)
    ensures
        u.dot_spec(v) * u.dot_spec(v) <= u.length2_spec() * v.length2_spec(),
{
    lemma_lagrange(u, v);
}

/// One component of the point that a root of the quadratic gives, scaled by
/// `a`, squared.
pub proof fn lemma_scaled_square(a: int, n: int, o: int, d: int)
    ensures
        (a * o + n * d) * (a * o + n * d) == (a * a) * (o * o) + (2 * a * n) * (o * d) + (n * n)
            * (d * d),
        (a * o + n * d) * (a * o + n * d) >= 0,
{
    let p = a * o;
    let q = n * d;
    assert((p + q) * (p + q) == p * p + 2 * (p * q) + q * q && (p + q) * (p + q) >= 0)
        by (nonlinear_arith);
    assert(p * p == (a * a) * (o * o)) by (nonlinear_arith)
        requires
            p == a * o,
    ;
    assert(q * q == (n * n) * (d * d)) by (nonlinear_arith)
        requires
            q == n * d,
    ;
    assert(2 * (p * q) == (2 * a * n) * (o * d)) by (nonlinear_arith)
        requires
            p == a * o,
            q == n * d,
    ;
}

/// An integer whose square is at most the square of a bound lies within the bound.
pub proof fn lemma_square_within(x: int, bound: int)
    by (nonlinear_arith)
    requires
        0 <= bound,
        x * x <= bound * bound,
    ensures
        -bound <= x <= bound,
{
}

/// With a root `m` of at most the discriminant, the point at the parameter
/// `(-h + m) / a` lies in the ball: scaled by `a`, no coordinate of its
/// offset from the centre exceeds `a` times the radius.
pub proof fn lemma_root_in_ball(oc: Vec3, d: Vec3, r: int, m: int)
    requires
        m * m <= oc.dot_spec(d) * oc.dot_spec(d) - d.length2_spec() * (oc.length2_spec() - r * r),
    ensures
        ({
            let a = d.length2_spec();
            let n = -oc.dot_spec(d) + m;
            &&& -(a * abs(r)) <= a * oc.x + n * d.x <= a * abs(r)
            &&& -(a * abs(r)) <= a * oc.y + n * d.y <= a * abs(r)
            &&& -(a * abs(r)) <= a * oc.z + n * d.z <= a * abs(r)
        }),
{
    let a = d.length2_spec();
    let h = oc.dot_spec(d);
    let n = -h + m;
    let g = h * h - a * (oc.length2_spec() - r * r) - m * m;
    let u = V3::of(oc).times(a).plus(V3::of(d).times(n));
    lemma_root_norm(V3::of(oc), V3::of(d), r, m);
    lemma_norm2_times(V3::of(d), 1);
    lemma_norm2_times(V3 { x: u.x, y: 0, z: 0 }, 1);
    lemma_norm2_times(V3 { x: 0, y: u.y, z: 0 }, 1);
    lemma_norm2_times(V3 { x: 0, y: 0, z: u.z }, 1);
    let bound = a * abs(r);
    assert(u.norm2() <= bound * bound && bound >= 0) by (nonlinear_arith)
        requires
            u.norm2() == a * (a * (r * r) - g),
            g >= 0,
            a >= 0,
            bound == a * abs(r),
            abs(r) >= 0,
            abs(r) == r || abs(r) == -r,
    {
        assert(abs(r) * abs(r) == r * r);
        assert(a * (a * (r * r) - g) <= a * (a * (r * r)));
        assert(a * (a * (r * r)) == (a * abs(r)) * (a * abs(r)));
    }
    lemma_square_within(u.x, bound);
    lemma_square_within(u.y, bound);
    lemma_square_within(u.z, bound);
}

/// Rounding the parameter to the grid, and then the step along the ray, moves
/// a coordinate by less than one grid step and one step of the direction.
pub proof fn lemma_rounded_step(a: int, n: int, o: int, d: int, bound: int)
    requires
        a > 0,
        0 <= bound,
        -(a * bound) <= a * o + n * d <= a * bound,
    ensures
        ({
            let t = (n * ONE) / a;
            let step = (t * d) / (ONE as int);
            -(ONE * bound + abs(d) + ONE) <= ONE * (o + step) <= ONE * bound + abs(d) + ONE
        }),
{
    let t = (n * ONE) / a;
    let step = (t * d) / (ONE as int);
    let u = a * o + n * d;
    let rest = ((n * ONE) % a) * d + a * ((t * d) % (ONE as int));
    lemma_step_remainders(a, n, o, d);
    let w = ONE * (o + step);
    let cap = ONE * bound + abs(d) + ONE;
    assert(-cap <= w <= cap) by (nonlinear_arith)
        requires
            a > 0,
            w == ONE * (o + step),
            (a * ONE) * (o + step) == ONE * u - rest,
            -(a * bound) <= u <= a * bound,
            -(a * (abs(d) + ONE)) <= rest <= a * (abs(d) + ONE),
            cap == ONE * bound + abs(d) + ONE,
    {
        assert(a * w == ONE * u - rest);
        assert(-(ONE * (a * bound)) <= ONE * u <= ONE * (a * bound));
        assert(a * cap == ONE * (a * bound) + a * (abs(d) + ONE));
        assert(-(a * cap) <= a * w <= a * cap);
    }
}

/// An offset that exceeds the radius by at most `k`, divided by the radius,
/// exceeds one by at most `k`.
pub proof fn lemma_quotient_within(v: int, r: int, k: int)
    requires
        r != 0,
        0 <= k,
        -(abs(r) + k) <= v <= abs(r) + k,
    ensures
        -(ONE * (k + 1)) <= crate::utilities::fixed::floor_quot(v * ONE, r) <= ONE * (k + 1),
{
    let den = abs(r);
    let num = if r > 0 {
        v
    } else {
        -v
    };
    let cap = ONE * (k + 1);
    assert(crate::utilities::fixed::floor_quot(v * ONE, r) == (num * ONE) / den) by {
        assert((-v) * ONE == -(v * ONE)) by (nonlinear_arith);
    }
    assert(-(cap * den) <= num * ONE <= cap * den) by (nonlinear_arith)
        requires
            den >= 1,
            0 <= k,
            -(den + k) <= num <= den + k,
            cap == ONE * (k + 1),
    {
        assert(den + k <= den * (k + 1));
        assert(cap * den == ONE * (den * (k + 1)));
    }
    vstd::arithmetic::div_mod::lemma_div_is_ordered(num * ONE, cap * den, den);
    vstd::arithmetic::div_mod::lemma_div_is_ordered(-(cap * den), num * ONE, den);
    vstd::arithmetic::div_mod::lemma_div_multiples_vanish(cap, den);
    vstd::arithmetic::div_mod::lemma_div_multiples_vanish(-cap, den);
    assert(cap * den == den * cap && -(cap * den) == den * (-cap)) by (nonlinear_arith);
}

/// A root whose square is below the square of a bound is below the bound.
pub proof fn lemma_root_below(root: int, n: int, bound: int)
    by (nonlinear_arith)
    requires
        0 <= root,
        0 <= bound,
        root * root <= n,
        n < bound * bound,
    ensures
        root < bound,
{
}

/// How far one coordinate of the rounded normal, taken along the direction,
/// lies from what exact arithmetic gives: by less than the coordinate of the
/// direction times one and the radius.
pub proof fn lemma_component_along(o: int, d: int, t: int, r: int)
    requires
        r > 0,
    ensures
        ({
            let step = (t * d) / (ONE as int);
            let out = ((o + step) * ONE) / r;
            let exact = ONE * (d * o) + t * (d * d);
            -((ONE + r) * abs(d)) <= r * (d * out) - exact <= (ONE + r) * abs(d)
        }),
{
    let step = (t * d) / (ONE as int);
    let f = (t * d) % (ONE as int);
    let off = o + step;
    let out = (off * ONE) / r;
    let g = (off * ONE) % r;
    vstd::arithmetic::div_mod::lemma_fundamental_div_mod(t * d, ONE as int);
    vstd::arithmetic::div_mod::lemma_mod_bound(t * d, ONE as int);
    vstd::arithmetic::div_mod::lemma_fundamental_div_mod(off * ONE, r);
    vstd::arithmetic::div_mod::lemma_mod_bound(off * ONE, r);
    let exact = ONE * (d * o) + t * (d * d);
    assert(r * (d * out) == exact - d * (f + g)) by (nonlinear_arith)
        requires
            off == o + step,
            t * d == ONE * step + f,
            off * ONE == r * out + g,
            exact == ONE * (d * o) + t * (d * d),
    {
        assert(r * (d * out) == d * (r * out));
        assert(d * (r * out) == d * (off * ONE) - d * g);
        assert(d * (off * ONE) == ONE * (d * o) + d * (ONE * step));
        assert(d * (ONE * step) == d * (t * d) - d * f);
        assert(d * (t * d) == t * (d * d));
    }
    assert(-((ONE + r) * abs(d)) <= d * (f + g) <= (ONE + r) * abs(d)) by (nonlinear_arith)
        requires
            0 <= f + g <= ONE + r,
    ;
}

/// The squared length of a sum.
pub proof fn lemma_norm2_sum(p: V3, q: V3)
    ensures
        p.plus(q).norm2() == p.norm2() + 2 * p.dot(q) + q.norm2(),
{
    assert((p.x + q.x) * (p.x + q.x) == p.x * p.x + 2 * (p.x * q.x) + q.x * q.x)
        by (nonlinear_arith);
    assert((p.y + q.y) * (p.y + q.y) == p.y * p.y + 2 * (p.y * q.y) + q.y * q.y)
        by (nonlinear_arith);
    assert((p.z + q.z) * (p.z + q.z) == p.z * p.z + 2 * (p.z * q.z) + q.z * q.z)
        by (nonlinear_arith);
}

/// The squared length of a multiple.
pub proof fn lemma_norm2_times(v: V3, k: int)
    ensures
        v.times(k).norm2() == (k * k) * v.norm2(),
        v.norm2() >= 0,
{
    assert((k * v.x) * (k * v.x) == (k * k) * (v.x * v.x) && v.x * v.x >= 0) by (nonlinear_arith);
    assert((k * v.y) * (k * v.y) == (k * k) * (v.y * v.y) && v.y * v.y >= 0) by (nonlinear_arith);
    assert((k * v.z) * (k * v.z) == (k * k) * (v.z * v.z) && v.z * v.z >= 0) by (nonlinear_arith);
    lemma_distribute3(v.x * v.x, v.y * v.y, v.z * v.z, k * k);
}

/// The squared length is at most the square of the sum of the absolute
/// values of the components.
pub proof fn lemma_norm2_within_norm1(v: V3, bound: int)
    requires
        v.norm1() <= bound,
    ensures
        v.norm2() <= bound * bound,
{
    let (a, b, c) = (abs(v.x), abs(v.y), abs(v.z));
    assert(a * a == v.x * v.x && b * b == v.y * v.y && c * c == v.z * v.z) by (nonlinear_arith)
        requires
            a == abs(v.x),
            b == abs(v.y),
            c == abs(v.z),
    ;
    lemma_square3(a, b, c);
    assert(a * b >= 0 && a * c >= 0 && b * c >= 0) by (nonlinear_arith)
        requires
            a >= 0,
            b >= 0,
            c >= 0,
    ;
    assert((a + b + c) * (a + b + c) <= bound * bound) by (nonlinear_arith)
        requires
            0 <= a + b + c <= bound,
    ;
}

/// The triangle inequality: the length of a sum is at most the sum of the
/// lengths.
pub proof fn lemma_triangle(p: V3, q: V3, w: int, b: int)
    requires
        0 <= w,
        0 <= b,
        p.norm2() <= w * w,
        q.norm2() <= b * b,
    ensures
        p.plus(q).norm2() <= (w + b) * (w + b),
{
    lemma_norm2_sum(p, q);
    lemma_lagrange_int(p, q);
    lemma_norm2_times(p, 1);
    lemma_norm2_times(q, 1);
    let c = p.dot(q);
    assert(p.norm2() * q.norm2() <= (w * b) * (w * b)) by (nonlinear_arith)
        requires
            0 <= p.norm2() <= w * w,
            0 <= q.norm2() <= b * b,
    {
        assert(p.norm2() * q.norm2() <= (w * w) * q.norm2());
        assert((w * w) * q.norm2() <= (w * w) * (b * b));
        assert((w * w) * (b * b) == (w * b) * (w * b));
    }
    assert(w * b >= 0) by (nonlinear_arith)
        requires
            0 <= w,
            0 <= b,
    ;
    lemma_square_within(c, w * b);
    assert((w + b) * (w + b) == w * w + 2 * (w * b) + b * b) by (nonlinear_arith);
}

/// The squared length of the offset, scaled by `a`, of the point that the
/// root `m` gives: it falls short of the scaled squared radius by `a` times
/// what the square of `m` falls short of the discriminant.
pub proof fn lemma_root_norm(oc: V3, d: V3, r: int, m: int)
    ensures
        ({
            let a = d.norm2();
            let h = oc.dot(d);
            let n = -h + m;
            let disc = h * h - a * (oc.norm2() - r * r);
            oc.times(a).plus(d.times(n)).norm2() == a * (a * (r * r) - (disc - m * m))
        }),
{
    let a = d.norm2();
    let h = oc.dot(d);
    let q = oc.norm2();
    let n = -h + m;
    let u = oc.times(a).plus(d.times(n));
    lemma_scaled_square(a, n, oc.x, d.x);
    lemma_scaled_square(a, n, oc.y, d.y);
    lemma_scaled_square(a, n, oc.z, d.z);
    lemma_distribute3(oc.x * oc.x, oc.y * oc.y, oc.z * oc.z, a * a);
    lemma_distribute3(oc.x * d.x, oc.y * d.y, oc.z * d.z, 2 * a * n);
    lemma_distribute3(d.x * d.x, d.y * d.y, d.z * d.z, n * n);
    let total = u.norm2();
    assert(total == (a * a) * q + (2 * a * n) * h + (n * n) * a);
    assert(total == a * (a * (r * r) - ((h * h - a * (q - r * r)) - m * m))) by (nonlinear_arith)
        requires
            total == (a * a) * q + (2 * a * n) * h + (n * n) * a,
            n == -h + m,
    {
        assert(n * n + 2 * n * h == m * m - h * h);
        assert(total == a * (a * q + 2 * n * h + n * n));
        assert(a * q + 2 * n * h + n * n == a * (r * r) - ((h * h - a * (q - r * r)) - m * m));
    }
}

/// What rounding adds to one coordinate of the point at a root: scaled by
/// `a` and by one, the coordinate is the exact one less the two remainders.
pub proof fn lemma_step_remainders(a: int, n: int, o: int, d: int)
    requires
        a > 0,
    ensures
        ({
            let t = (n * ONE) / a;
            let e = (n * ONE) % a;
            let step = (t * d) / (ONE as int);
            let f = (t * d) % (ONE as int);
            &&& (a * ONE) * (o + step) == ONE * (a * o + n * d) - (e * d + a * f)
            &&& -(a * (abs(d) + ONE)) <= e * d + a * f <= a * (abs(d) + ONE)
        }),
{
    let t = (n * ONE) / a;
    let e = (n * ONE) % a;
    let step = (t * d) / (ONE as int);
    let f = (t * d) % (ONE as int);
    vstd::arithmetic::div_mod::lemma_fundamental_div_mod(n * ONE, a);
    vstd::arithmetic::div_mod::lemma_mod_bound(n * ONE, a);
    vstd::arithmetic::div_mod::lemma_fundamental_div_mod(t * d, ONE as int);
    vstd::arithmetic::div_mod::lemma_mod_bound(t * d, ONE as int);
    assert((a * ONE) * (o + step) == ONE * (a * o + n * d) - (e * d + a * f)) by (nonlinear_arith)
        requires
            n * ONE == a * t + e,
            t * d == ONE * step + f,
    {
        assert((a * ONE) * (o + step) == ONE * (a * o) + a * (ONE * step));
        assert(a * (ONE * step) == a * (t * d) - a * f);
        assert(a * (t * d) == (a * t) * d);
        assert((a * t) * d == (n * ONE) * d - e * d);
        assert((n * ONE) * d == ONE * (n * d));
    }
    assert(-(a * abs(d)) <= e * d <= a * abs(d)) by (nonlinear_arith)
        requires
            0 <= e < a,
    ;
    assert(0 <= a * f <= a * ONE) by (nonlinear_arith)
        requires
            0 <= f < ONE,
            a > 0,
    ;
    assert(a * (abs(d) + ONE) == a * abs(d) + a * ONE) by (nonlinear_arith);
}

/// Dividing both sides of an inequality of squares by a common factor.
pub proof fn lemma_cancel_square(a: int, x: int, k: int)
    by (nonlinear_arith)
    requires
        a > 0,
    ensures
        (a * ONE) * (a * ONE) * x <= (a * k) * (a * k) ==> (ONE * ONE) * x <= k * k,
        (a * ONE) * (a * ONE) * x > (a * k) * (a * k) ==> (ONE * ONE) * x > k * k,
{
    assert((a * ONE) * (a * ONE) * x == (a * a) * ((ONE * ONE) * x));
    assert((a * k) * (a * k) == (a * a) * (k * k));
    assert(a * a > 0);
}

/// The point at a rounded root lies on the sphere up to rounding: its
/// distance from the centre differs from the radius by less than five grid
/// steps and one for each `ONE` in the sum of the components of the direction.
pub proof fn lemma_point_near_surface(oc: V3, d: V3, r: int, m: int)
    requires
        d.norm2() > 0,
        m * m <= oc.dot(d) * oc.dot(d) - d.norm2() * (oc.norm2() - r * r),
        oc.dot(d) * oc.dot(d) - d.norm2() * (oc.norm2() - r * r) < (abs(m) + 1) * (abs(m) + 1),
    ensures
        ({
            let a = d.norm2();
            let t = ((-oc.dot(d) + m) * ONE) / a;
            let w = V3 {
                x: oc.x + (t * d.x) / (ONE as int),
                y: oc.y + (t * d.y) / (ONE as int),
                z: oc.z + (t * d.z) / (ONE as int),
            };
            let slack = d.norm1() + 5 * ONE + 1;
            &&& (ONE * ONE) * w.norm2() <= (ONE * abs(r) + slack) * (ONE * abs(r) + slack)
            &&& ONE * abs(r) >= slack ==> (ONE * ONE) * w.norm2() > (ONE * abs(r) - slack) * (ONE
                * abs(r) - slack)
        }),
{
    let a = d.norm2();
    let h = oc.dot(d);
    let q = oc.norm2();
    let disc = h * h - a * (q - r * r);
    let n = -h + m;
    let t = (n * ONE) / a;
    let e = (n * ONE) % a;
    let w = V3 {
        x: oc.x + (t * d.x) / (ONE as int),
        y: oc.y + (t * d.y) / (ONE as int),
        z: oc.z + (t * d.z) / (ONE as int),
    };
    let ra = abs(r);
    let n1 = d.norm1();
    let slack = n1 + 5 * ONE + 1;
    assert(ra * ra == r * r) by (nonlinear_arith)
        requires
            ra == r || ra == -r,
    ;
    // the exact point, scaled
    let u = oc.times(a).plus(d.times(n));
    let g = disc - m * m;
    lemma_root_norm(oc, d, r, m);
    assert(u.norm2() == a * (a * (r * r) - g));
    assert(0 <= g <= 2 * abs(m)) by (nonlinear_arith)
        requires
            g == disc - m * m,
            m * m <= disc < (abs(m) + 1) * (abs(m) + 1),
    {
        assert((abs(m) + 1) * (abs(m) + 1) == m * m + 2 * abs(m) + 1);
    }
    let x = u.times(ONE as int);
    lemma_norm2_times(u, ONE as int);
    // what rounding adds
    let y = V3 {
        x: -(e * d.x + a * ((t * d.x) % (ONE as int))),
        y: -(e * d.y + a * ((t * d.y) % (ONE as int))),
        z: -(e * d.z + a * ((t * d.z) % (ONE as int))),
    };
    lemma_step_remainders(a, n, oc.x, d.x);
    lemma_step_remainders(a, n, oc.y, d.y);
    lemma_step_remainders(a, n, oc.z, d.z);
    let p = w.times(a * ONE);
    assert(p == x.plus(y));
    lemma_norm2_times(w, a * ONE);
    let b = a * (n1 + 3 * ONE);
    assert(y.norm1() <= b) by {
        lemma_distribute3(abs(d.x) + ONE, abs(d.y) + ONE, abs(d.z) + ONE, a);
    }
    lemma_norm2_within_norm1(y, b);
    assert(b >= 0) by (nonlinear_arith)
        requires
            b == a * (n1 + 3 * ONE),
            a > 0,
            n1 >= 0,
    ;
    // from above
    let top = ONE * (a * ra);
    assert(x.norm2() <= top * top && top >= 0) by (nonlinear_arith)
        requires
            x.norm2() == (ONE * ONE) * u.norm2(),
            u.norm2() == a * (a * (r * r) - g),
            g >= 0,
            a > 0,
            ra >= 0,
            ra * ra == r * r,
            top == ONE * (a * ra),
    {
        assert(a * (a * (r * r) - g) <= a * (a * (r * r)));
        assert(a * (a * (r * r)) == (a * ra) * (a * ra));
        assert((ONE * ONE) * ((a * ra) * (a * ra)) == top * top);
    }
    lemma_triangle(x, y, top, b);
    let k_top = ONE * ra + n1 + 3 * ONE;
    assert(top + b == a * k_top) by (nonlinear_arith)
        requires
            top == ONE * (a * ra),
            b == a * (n1 + 3 * ONE),
            k_top == ONE * ra + n1 + 3 * ONE,
    ;
    lemma_cancel_square(a, w.norm2(), k_top);
    assert(k_top * k_top <= (ONE * ra + slack) * (ONE * ra + slack)) by (nonlinear_arith)
        requires
            0 <= k_top <= ONE * ra + slack,
    ;
    // from below
    if ONE * ra >= slack {
        let k_low = ONE * ra - slack;
        // the root is at most `a` times the radius
        lemma_lagrange_int(oc, d);
        assert(m * m <= (a * ra) * (a * ra)) by (nonlinear_arith)
            requires
                m * m <= h * h - a * (q - r * r),
                q * a - h * h >= 0,
                a >= 1,
                ra * ra == r * r,
        {
            assert(h * h - a * (q - r * r) == a * (r * r) - (q * a - h * h));
            assert(a * (r * r) <= a * (a * (r * r)));
            assert(a * (a * (r * r)) == (a * ra) * (a * ra));
        }
        assert(a * ra >= 0) by (nonlinear_arith)
            requires
                a > 0,
                ra >= 0,
        ;
        lemma_square_within(m, a * ra);
        let low = ONE * (a * (ra - 2));
        assert(x.norm2() >= low * low && low >= 1) by (nonlinear_arith)
            requires
                x.norm2() == (ONE * ONE) * u.norm2(),
                u.norm2() == a * (a * (r * r) - g),
                0 <= g <= 2 * (a * ra),
                a >= 1,
                ra >= 5,
                ra * ra == r * r,
                low == ONE * (a * (ra - 2)),
        {
            assert(a * (ra - 2) >= 1);
            assert((a * (ra - 2)) * (a * (ra - 2)) == a * (a * (ra * ra) - 4 * (a * ra) + 4 * a));
            assert(a * (ra * ra) - g >= a * (ra * ra) - 4 * (a * ra) + 4 * a);
            assert(a * (a * (ra * ra) - g) >= a * (a * (ra * ra) - 4 * (a * ra) + 4 * a));
            assert((ONE * ONE) * ((a * (ra - 2)) * (a * (ra - 2))) == low * low);
        }
        let cap = low - b - 1;
        assert(cap == a * (k_low + 1) - 1 && cap >= a * k_low && a * k_low >= 0)
            by (nonlinear_arith)
            requires
                cap == low - b - 1,
                low == ONE * (a * (ra - 2)),
                b == a * (n1 + 3 * ONE),
                k_low == ONE * ra - (n1 + 5 * ONE + 1),
                k_low >= 0,
                a >= 1,
        ;
        if p.norm2() <= cap * cap {
            let back = y.times(-1);
            lemma_norm2_times(y, -1);
            assert(p.plus(back) == x);
            lemma_triangle(p, back, cap, b);
            assert((cap + b) * (cap + b) < low * low) by (nonlinear_arith)
                requires
                    cap + b == low - 1,
                    low >= 1,
            ;
        }
        assert(p.norm2() > (a * k_low) * (a * k_low)) by (nonlinear_arith)
            requires
                p.norm2() > cap * cap,
                cap >= a * k_low,
                a * k_low >= 0,
        ;
        lemma_cancel_square(a, w.norm2(), k_low);
    }
}

/// A vector within `slack` of the length `reach`, divided by the radius
/// with each component rounded down, is within `slack` and three radii of
/// the length `reach` when it is scaled by the radius again.
pub proof fn lemma_quotient_near_unit(w: V3, r: int, reach: int, slack: int)
    requires
        r != 0,
        0 <= slack,
        0 <= reach,
        (ONE * ONE) * w.norm2() <= (reach + slack) * (reach + slack),
        reach >= slack ==> (ONE * ONE) * w.norm2() > (reach - slack) * (reach - slack),
    ensures
        ({
            let out = V3 {
                x: crate::utilities::fixed::floor_quot(w.x * ONE, r),
                y: crate::utilities::fixed::floor_quot(w.y * ONE, r),
                z: crate::utilities::fixed::floor_quot(w.z * ONE, r),
            };
            let more = slack + 3 * abs(r);
            &&& (r * r) * out.norm2() <= (reach + more) * (reach + more)
            &&& reach >= more ==> (r * r) * out.norm2() > (reach - more) * (reach - more)
        }),
{
    let den = abs(r);
    let sign: int = if r > 0 {
        1
    } else {
        -1
    };
    let out = V3 {
        x: crate::utilities::fixed::floor_quot(w.x * ONE, r),
        y: crate::utilities::fixed::floor_quot(w.y * ONE, r),
        z: crate::utilities::fixed::floor_quot(w.z * ONE, r),
    };
    let num = w.times(sign * ONE);
    assert(out.x == num.x / den && out.y == num.y / den && out.z == num.z / den) by {
        assert((-w.x) * ONE == -(w.x * ONE) && (-w.y) * ONE == -(w.y * ONE) && (-w.z) * ONE == -(
        w.z * ONE)) by (nonlinear_arith);
        assert((sign * ONE) * w.x == sign * (w.x * ONE) && (sign * ONE) * w.y == sign * (w.y
            * ONE) && (sign * ONE) * w.z == sign * (w.z * ONE)) by (nonlinear_arith);
    }
    vstd::arithmetic::div_mod::lemma_fundamental_div_mod(num.x, den);
    vstd::arithmetic::div_mod::lemma_fundamental_div_mod(num.y, den);
    vstd::arithmetic::div_mod::lemma_fundamental_div_mod(num.z, den);
    vstd::arithmetic::div_mod::lemma_mod_bound(num.x, den);
    vstd::arithmetic::div_mod::lemma_mod_bound(num.y, den);
    vstd::arithmetic::div_mod::lemma_mod_bound(num.z, den);
    // the rounded vector, scaled by the radius, is the exact one less the remainders
    let scaled = out.times(den);
    let back = V3 { x: -(num.x % den), y: -(num.y % den), z: -(num.z % den) };
    assert(scaled == num.plus(back));
    lemma_norm2_times(out, den);
    lemma_norm2_times(w, sign * ONE);
    assert(den * den == r * r && (sign * ONE) * (sign * ONE) == ONE * ONE) by (nonlinear_arith)
        requires
            den == r || den == -r,
            sign == 1 || sign == -1,
    ;
    let edge = 3 * den;
    lemma_norm2_within_norm1(back, edge);
    let more = slack + edge;
    lemma_triangle(num, back, reach + slack, edge);
    if reach >= more {
        let cap = reach - more;
        if scaled.norm2() <= cap * cap {
            let forth = back.times(-1);
            lemma_norm2_times(back, -1);
            assert(scaled.plus(forth) == num);
            lemma_triangle(scaled, forth, cap, edge);
        }
    }
}

} // verus!

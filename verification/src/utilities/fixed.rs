//! Fixed-point scalars: an `i64` raw value `v` stands for the real number `v / ONE`.

use vstd::prelude::*;

verus! {

/// The raw value of the real number one.
pub const ONE: i64 = 65536;

/// The smallest ray parameter the integrator accepts, about a thousandth:
/// it keeps a scattered ray from hitting the surface it leaves.
pub const EPS: i64 = 65;

/// The upper end of an unbounded parameter window.
pub const INFINITY: i64 = 0x7fff_ffff_ffff_ffff;

/// `r` is the integer square root of `n`, rounded down.
pub open spec fn is_floor_sqrt(n: int, r: int) -> bool {
    0 <= r && r * r <= n < (r + 1) * (r + 1)
}

/// The integer square root of `n`, rounded down (`0` for negative `n`).
pub open spec fn floor_sqrt(n: int) -> int
    decreases n,
{
    if n <= 0 {
        0
    } else {
        let r = floor_sqrt(n - 1);
        if (r + 1) * (r + 1) <= n {
            r + 1
        } else {
            r
        }
    }
}

/// The quotient `x / d` rounded towards minus infinity, for either sign of `d`.
pub open spec fn floor_quot(x: int, d: int) -> int {
    if d > 0 {
        x / d
    } else {
        (-x) / (-d)
    }
}

/// `floor_sqrt(n)` squares to at most `n`, and the next integer squares to more.
pub proof fn lemma_floor_sqrt_is_root(n: int)
    requires
        0 <= n,
    ensures
        is_floor_sqrt(n, floor_sqrt(n)),
    decreases n,
{
    if n > 0 {
        lemma_floor_sqrt_is_root(n - 1);
        let r = floor_sqrt(n - 1);
        assert((r + 2) * (r + 2) > (r + 1) * (r + 1) + 1) by (nonlinear_arith)
            requires
                0 <= r,
        ;
    }
}

/// Only one integer is the rounded-down square root of `n`.
pub proof fn lemma_floor_sqrt_unique(n: int, r: int)
    requires
        is_floor_sqrt(n, r),
    ensures
        floor_sqrt(n) == r,
{
    assert(0 <= n) by (nonlinear_arith)
        requires
            r * r <= n,
    ;
    lemma_floor_sqrt_is_root(n);
    let s = floor_sqrt(n);
    assert(s == r) by (nonlinear_arith)
        requires
            0 <= r,
            0 <= s,
            r * r <= n < (r + 1) * (r + 1),
            s * s <= n < (s + 1) * (s + 1),
    ;
}

/// The product of two bounded integers is bounded by the product of the bounds.
pub proof fn lemma_mul_within(x: int, y: int, a: int, b: int)
    by (nonlinear_arith)
    requires
        -a <= x <= a,
        -b <= y <= b,
    ensures
        -(a * b) <= x * y <= a * b,
{
}

/// The integer square root of `n`, rounded down.
pub fn isqrt(n: u128) -> (r: u64)
    ensures
        r == floor_sqrt(n as int),
{
    let mut lo: u128 = 0;
    let mut hi: u128 = 0x1_0000_0000_0000_0000;
    while hi - lo > 1
        invariant
            lo < hi <= 0x1_0000_0000_0000_0000,
            lo * lo <= n < hi * hi,
        decreases hi - lo,
    {
        let mid: u128 = lo + (hi - lo) / 2;
        assert(mid * mid <= 0xffff_ffff_ffff_ffff * 0xffff_ffff_ffff_ffff) by (nonlinear_arith)
            requires
                0 <= mid <= 0xffff_ffff_ffff_ffff,
        ;
        if mid * mid <= n {
            lo = mid;
        } else {
            hi = mid;
        }
    }
    proof {
        lemma_floor_sqrt_unique(n as int, lo as int);
    }
    lo as u64
}

/// The quotient `x / d` rounded towards minus infinity.
pub fn floor_div(x: i128, d: i128) -> (q: i128)
    requires
        d != 0,
        i128::MIN < x,
        i128::MIN < d,
    ensures
        q == floor_quot(x as int, d as int),
{
    let (num, den): (i128, i128) = if d > 0 {
        (x, d)
    } else {
        (-x, -d)
    };
    if num >= 0 {
        num / den
    } else {
        let pos: i128 = -num;
        let k: i128 = pos / den;
        let s: i128 = pos % den;
        proof {
            vstd::arithmetic::div_mod::lemma_fundamental_div_mod(pos as int, den as int);
            vstd::arithmetic::div_mod::lemma_div_pos_is_pos(pos as int, den as int);
            vstd::arithmetic::div_mod::lemma_mod_bound(pos as int, den as int);
            if s == 0 {
                assert(num as int == (-k) * den + 0) by (nonlinear_arith)
                    requires
                        pos as int == den * k + 0,
                        num as int == -(pos as int),
                ;
                vstd::arithmetic::div_mod::lemma_fundamental_div_mod_converse(
                    num as int,
                    den as int,
                    -(k as int),
                    0,
                );
            } else {
                assert(num as int == (-k - 1) * den + (den - s)) by (nonlinear_arith)
                    requires
                        pos as int == den * k + s,
                        num as int == -(pos as int),
                ;
                vstd::arithmetic::div_mod::lemma_fundamental_div_mod_converse(
                    num as int,
                    den as int,
                    -(k as int) - 1,
                    (den - s) as int,
                );
            }
        }
        if s == 0 {
            -k
        } else {
            -k - 1
        }
    }
}

/// The exact product of two scalars, in units of `1 / (ONE * ONE)`.
pub fn product(a: i64, b: i64) -> (p: i128)
    ensures
        p == a * b,
        i128::MIN < p,
{
    proof {
        lemma_mul_within(
            a as int,
            b as int,
            0x8000_0000_0000_0000,
            0x8000_0000_0000_0000,
        );
    }
    (a as i128) * (b as i128)
}

/// One times a number, rounded down to the grid, is the number.
pub proof fn lemma_one_times(x: int)
    ensures
        (ONE * x) / (ONE as int) == x,
{
    vstd::arithmetic::div_mod::lemma_div_multiples_vanish(x, ONE as int);
}

/// The rounded square root is never negative.
pub proof fn lemma_floor_sqrt_not_negative(n: int)
    ensures
        floor_sqrt(n) >= 0,
{
    if n > 0 {
        lemma_floor_sqrt_is_root(n);
    }
}

} // verus!

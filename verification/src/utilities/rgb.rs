//! Colours.

use crate::utilities::fixed::ONE;
use vstd::prelude::*;

verus! {

/// A colour of three fixed-point channels, each between zero and one when the
/// colour is an intensity.
#[derive(Clone, Copy, Debug, PartialEq, Eq, Structural)]
pub struct RGB {
    pub r: i64,
    pub g: i64,
    pub b: i64,
}

impl RGB {
    /// Every channel lies between zero and one.
    pub open spec fn wf(self) -> bool {
        &&& 0 <= self.r <= ONE
        &&& 0 <= self.g <= ONE
        &&& 0 <= self.b <= ONE
    }

    pub open spec fn black() -> RGB {
        RGB { r: 0, g: 0, b: 0 }
    }

    /// The channel-wise product, each channel rounded down.
    pub open spec fn times_spec(self, other: RGB) -> RGB {
        RGB {
            r: ((self.r * other.r) / (ONE as int)) as i64,
            g: ((self.g * other.g) / (ONE as int)) as i64,
            b: ((self.b * other.b) / (ONE as int)) as i64,
        }
    }

    /// The blend `(1 - t) * self + t * other`, each product rounded down.
    pub open spec fn lerp_spec(self, other: RGB, t: int) -> RGB {
        RGB {
            r: (((ONE - t) * self.r) / (ONE as int) + (t * other.r) / (ONE as int)) as i64,
            g: (((ONE - t) * self.g) / (ONE as int) + (t * other.g) / (ONE as int)) as i64,
            b: (((ONE - t) * self.b) / (ONE as int) + (t * other.b) / (ONE as int)) as i64,
        }
    }

    pub fn new(r: i64, g: i64, b: i64) -> (c: Self)
        ensures
            c == (RGB { r, g, b }),
    {
        RGB { r, g, b }
    }

    /// Tells whether every channel lies between zero and one.
    pub fn is_wf(&self) -> (b: bool)
        ensures
            b == self.wf(),
    {
        0 <= self.r && self.r <= ONE && 0 <= self.g && self.g <= ONE && 0 <= self.b && self.b
            <= ONE
    }

    /// The channel-wise product: what is left of the light `other` after this
    /// colour has dimmed it.
    pub fn times(&self, other: &RGB) -> (c: RGB)
        requires
            self.wf(),
            other.wf(),
        ensures
            c == self.times_spec(*other),
            c.wf(),
    {
        RGB {
            r: unit_product(self.r, other.r),
            g: unit_product(self.g, other.g),
            b: unit_product(self.b, other.b),
        }
    }

    /// The blend `(1 - t) * self + t * other`.
    pub fn lerp(&self, other: &RGB, t: i64) -> (c: RGB)
        requires
            self.wf(),
            other.wf(),
            0 <= t <= ONE,
        ensures
            c == self.lerp_spec(*other, t as int),
            c.wf(),
    {
        proof {
            lemma_blend_within(self.r as int, other.r as int, t as int);
            lemma_blend_within(self.g as int, other.g as int, t as int);
            lemma_blend_within(self.b as int, other.b as int, t as int);
        }
        RGB {
            r: unit_product(ONE - t, self.r) + unit_product(t, other.r),
            g: unit_product(ONE - t, self.g) + unit_product(t, other.g),
            b: unit_product(ONE - t, self.b) + unit_product(t, other.b),
        }
    }
}

/// The product of two numbers between zero and one, rounded down.
pub fn unit_product(a: i64, b: i64) -> (p: i64)
    requires
        0 <= a <= ONE,
        0 <= b <= ONE,
    ensures
        p == (a * b) / (ONE as int),
        0 <= p <= a,
        p <= b,
{
    proof {
        lemma_unit_product_within(a as int, b as int);
    }
    (a * b) / ONE
}

/// The rounded product of two numbers between zero and one exceeds neither.
pub proof fn lemma_unit_product_within(a: int, b: int)
    requires
        0 <= a <= ONE,
        0 <= b <= ONE,
    ensures
        0 <= a * b <= ONE * ONE,
        0 <= (a * b) / (ONE as int) <= a,
        (a * b) / (ONE as int) <= b,
{
    assert(0 <= a * b <= a * ONE && a * b <= b * ONE && a * ONE <= ONE * ONE) by (nonlinear_arith)
        requires
            0 <= a <= ONE,
            0 <= b <= ONE,
    ;
    vstd::arithmetic::div_mod::lemma_div_is_ordered(0, a * b, ONE as int);
    vstd::arithmetic::div_mod::lemma_div_is_ordered(a * b, a * ONE, ONE as int);
    vstd::arithmetic::div_mod::lemma_div_is_ordered(a * b, b * ONE, ONE as int);
    vstd::arithmetic::div_mod::lemma_div_multiples_vanish(a, ONE as int);
    vstd::arithmetic::div_mod::lemma_div_multiples_vanish(b, ONE as int);
    assert(a * ONE == ONE * a && b * ONE == ONE * b) by (nonlinear_arith);
}

/// A blend of two numbers between zero and one lies between zero and one.
pub proof fn lemma_blend_within(a: int, b: int, t: int)
    requires
        0 <= a <= ONE,
        0 <= b <= ONE,
        0 <= t <= ONE,
    ensures
        0 <= ((ONE - t) * a) / (ONE as int) + (t * b) / (ONE as int) <= ONE,
{
    lemma_unit_product_within(ONE - t, a);
    lemma_unit_product_within(t, b);
}

impl Default for RGB {
    /// Black.
    fn default() -> (c: Self)
        ensures
            c == RGB::black(),
    {
        RGB { r: 0, g: 0, b: 0 }
    }
}

} // verus!

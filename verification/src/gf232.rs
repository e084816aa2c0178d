//! Elements of the field GF(2^32).
use vstd::prelude::*;
use crate::bits::{clmul, deg, lemma_deg_range, lemma_deg_shift};
use crate::division::lemma_division;
use crate::field::{euclid, gf_div, gf_inv, gf_mul, lemma_gf_inverse, IRR232};
use crate::polynomial::BinaryPolynomial;
use std::ops::{Add, Div, Mul, Sub};
use vstd::pervasive::runtime_assert;
use vstd::std_specs::ops::{AddSpecImpl, DivSpecImpl, MulSpecImpl, SubSpecImpl};

verus! {

/// An element of GF(2^32): a polynomial over GF(2) of degree below 32, taken modulo
/// `x^32 + x^7 + x^3 + x^2 + 1`. Bit `i` is the coefficient of `x^i`.
#[derive(Clone, Copy, PartialEq, Eq, Structural, Debug)]
pub struct GF232(pub u32);

/// A word of degree below 32 is its own lower half.
proof fn lemma_low_word(x: u64, a: u32)
    by (bit_vector)
    ensures
        x >> 32 == 0 ==> x as u32 == x,
        (a as u64) >> 32 == 0,
        0x1_0000_008Du64 >> 32 == 1,
{
}

impl GF232 {
    /// The inverse of this element, which is not zero, by the extended Euclidean
    /// algorithm on the field's modulus and the element. A caller that was not
    /// verified is stopped where the element is zero.
    pub fn inverse(&self) -> (result: GF232)
        requires
            self.0 != 0,
        ensures
            result.0 == gf_inv(self.0),
            gf_mul(self.0, result.0) == 1,
    {
        runtime_assert(self.0 != 0);
        let mut c = BinaryPolynomial(IRR232);
        let mut d = BinaryPolynomial(self.0 as u64);
        let mut n1 = BinaryPolynomial(0);
        let mut n = BinaryPolynomial(1);
        loop
            invariant_except_break
                d.0 != 0,
                euclid(c.0, d.0, n1.0, n.0) == euclid(IRR232, self.0 as u64, 0, 1),
            ensures
                n.0 == euclid(IRR232, self.0 as u64, 0, 1),
            decreases deg(d.0) + 1,
        {
            let q = c / d;
            let r = c % d;
            proof {
                lemma_division(c.0, d.0);
                lemma_deg_range(r.0);
            }
            if r == BinaryPolynomial(0) {
                break ;
            }
            c = d;
            d = r;
            let t = n1;
            n1 = n;
            n = t - q * n;
        }
        proof {
            lemma_gf_inverse(self.0);
            lemma_low_word(n.0, 0);
            lemma_deg_shift(n.0, 32);
        }
        GF232(n.0 as u32)
    }

    /// Adds `other` to this element.
    pub fn add_assign(&mut self, other: GF232)
        ensures
            final(self).0 == old(self).0 ^ other.0,
    {
        *self = *self + other;
    }

    /// Subtracts `other` from this element, which is the same as adding it.
    pub fn sub_assign(&mut self, other: GF232)
        ensures
            final(self).0 == old(self).0 ^ other.0,
    {
        *self = *self - other;
    }

    /// Multiplies this element by `other`.
    pub fn mul_assign(&mut self, other: GF232)
        ensures
            final(self).0 == gf_mul(old(self).0, other.0),
    {
        *self = *self * other;
    }

    /// Divides this element by `other`, which is not zero.
    pub fn div_assign(&mut self, other: GF232)
        requires
            other.0 != 0,
        ensures
            final(self).0 == gf_div(old(self).0, other.0),
    {
        *self = *self / other;
    }
}

impl AddSpecImpl<GF232> for GF232 {
    open spec fn obeys_add_spec() -> bool {
        true
    }

    open spec fn add_req(self, other: GF232) -> bool {
        true
    }

    open spec fn add_spec(self, other: GF232) -> GF232 {
        GF232(self.0 ^ other.0)
    }
}

impl Add<GF232> for GF232 {
    type Output = GF232;

    /// The sum in the field: the exclusive or of the two words.
    fn add(self, other: GF232) -> (result: GF232)
        ensures
            result.0 == self.0 ^ other.0,
    {
        GF232(self.0 ^ other.0)
    }
}

impl SubSpecImpl<GF232> for GF232 {
    open spec fn obeys_sub_spec() -> bool {
        true
    }

    open spec fn sub_req(self, other: GF232) -> bool {
        true
    }

    open spec fn sub_spec(self, other: GF232) -> GF232 {
        GF232(self.0 ^ other.0)
    }
}

impl Sub<GF232> for GF232 {
    type Output = GF232;

    /// The difference in the field, which is the sum.
    fn sub(self, other: GF232) -> (result: GF232)
        ensures
            result.0 == self.0 ^ other.0,
    {
        GF232(self.0 ^ other.0)
    }
}

impl MulSpecImpl<GF232> for GF232 {
    open spec fn obeys_mul_spec() -> bool {
        true
    }

    open spec fn mul_req(self, other: GF232) -> bool {
        true
    }

    open spec fn mul_spec(self, other: GF232) -> GF232 {
        GF232(gf_mul(self.0, other.0))
    }
}

impl Mul<GF232> for GF232 {
    type Output = GF232;

    /// The product in the field: the product of the two polynomials, reduced modulo
    /// the field's modulus.
    fn mul(self, other: GF232) -> (result: GF232)
        ensures
            result.0 == gf_mul(self.0, other.0),
    {
        let poly1 = BinaryPolynomial(self.0 as u64);
        let poly2 = BinaryPolynomial(other.0 as u64);
        let res = (poly1 * poly2) % BinaryPolynomial(IRR232);
        proof {
            lemma_low_word(0, 0);
            lemma_deg_shift(IRR232, 32);
            lemma_division(clmul(self.0 as u64, other.0 as u64), IRR232);
            lemma_deg_shift(res.0, 32);
            lemma_low_word(res.0, 0);
        }
        GF232(res.0 as u32)
    }
}

impl DivSpecImpl<GF232> for GF232 {
    open spec fn obeys_div_spec() -> bool {
        true
    }

    open spec fn div_req(self, other: GF232) -> bool {
        other.0 != 0
    }

    open spec fn div_spec(self, other: GF232) -> GF232 {
        GF232(gf_div(self.0, other.0))
    }
}

impl Div<GF232> for GF232 {
    type Output = GF232;

    /// The quotient in the field: the product with the inverse of `other`, which is
    /// not zero.
    fn div(self, other: GF232) -> (result: GF232)
        ensures
            result.0 == gf_div(self.0, other.0),
    {
        self * other.inverse()
    }
}

} // verus!

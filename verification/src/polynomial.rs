//! Polynomials over GF(2) of degree below 64, one bit for each coefficient.
use vstd::prelude::*;
use crate::bits::{
    clmul, deg, fits, lemma_deg_range, lemma_fits_facts, lemma_mul_mod_times_x,
    lemma_mul_mod_zero_left, lemma_mul_mod_zero_right, lemma_shift_facts, lemma_times_x_facts,
    lemma_xor_laws, mul_mod, pick, times_x,
};
use crate::division::{aligned, lemma_mul_monomial, lemma_step_lowers_degree, poly_div, poly_rem};
use std::ops::{Add, Div, Mul, Rem, Sub};
use vstd::pervasive::runtime_assert;
use vstd::std_specs::ops::{AddSpecImpl, DivSpecImpl, MulSpecImpl, RemSpecImpl, SubSpecImpl};

verus! {

/// A polynomial with coefficients 0 and 1. Bit `i` of the word is the coefficient of
/// `x^i`, so the sum of two polynomials is their exclusive or.
#[derive(Clone, Copy, PartialEq, Eq, Structural, Debug)]
pub struct BinaryPolynomial(pub u64);

impl BinaryPolynomial {
    /// The index of the highest set bit, or -1 for the zero polynomial.
    pub fn degree(&self) -> (result: i8)
        ensures
            result == deg(self.0),
            -1 <= result <= 63,
    {
        let mut result: i8 = -1;
        let mut x: u64 = self.0;
        proof {
            lemma_deg_range(self.0);
        }
        while x > 0
            invariant
                result + 1 + deg(x) == deg(self.0),
                -1 <= result,
                deg(self.0) <= 63,
            decreases x,
        {
            proof {
                lemma_shift_facts(x, 0, 0);
                lemma_deg_range(x / 2);
            }
            result += 1;
            x >>= 1;
        }
        result
    }

    /// Adds `other` to this polynomial.
    pub fn add_assign(&mut self, other: BinaryPolynomial)
        ensures
            final(self).0 == old(self).0 ^ other.0,
    {
        *self = *self + other;
    }

    /// Subtracts `other` from this polynomial, which is the same as adding it.
    pub fn sub_assign(&mut self, other: BinaryPolynomial)
        ensures
            final(self).0 == old(self).0 ^ other.0,
    {
        *self = *self - other;
    }

    /// Multiplies this polynomial by `other`, dropping terms of degree 64 and above.
    pub fn mul_assign(&mut self, other: BinaryPolynomial)
        ensures
            final(self).0 == clmul(old(self).0, other.0),
    {
        *self = *self * other;
    }

    /// Replaces this polynomial by its quotient on division by `other`.
    pub fn div_assign(&mut self, other: BinaryPolynomial)
        requires
            other.0 != 0,
        ensures
            final(self).0 == poly_div(old(self).0, other.0),
    {
        *self = *self / other;
    }

    /// Replaces this polynomial by its remainder on division by `other`.
    pub fn rem_assign(&mut self, other: BinaryPolynomial)
        requires
            other.0 != 0,
        ensures
            final(self).0 == poly_rem(old(self).0, other.0),
    {
        *self = *self % other;
    }
}

impl AddSpecImpl<BinaryPolynomial> for BinaryPolynomial {
    open spec fn obeys_add_spec() -> bool {
        true
    }

    open spec fn add_req(self, other: BinaryPolynomial) -> bool {
        true
    }

    open spec fn add_spec(self, other: BinaryPolynomial) -> BinaryPolynomial {
        BinaryPolynomial(self.0 ^ other.0)
    }
}

impl Add<BinaryPolynomial> for BinaryPolynomial {
    type Output = BinaryPolynomial;

    /// The sum: coefficients are added modulo 2.
    fn add(self, other: BinaryPolynomial) -> (result: BinaryPolynomial)
        ensures
            result.0 == self.0 ^ other.0,
    {
        BinaryPolynomial(self.0 ^ other.0)
    }
}

impl SubSpecImpl<BinaryPolynomial> for BinaryPolynomial {
    open spec fn obeys_sub_spec() -> bool {
        true
    }

    open spec fn sub_req(self, other: BinaryPolynomial) -> bool {
        true
    }

    open spec fn sub_spec(self, other: BinaryPolynomial) -> BinaryPolynomial {
        BinaryPolynomial(self.0 ^ other.0)
    }
}

impl Sub<BinaryPolynomial> for BinaryPolynomial {
    type Output = BinaryPolynomial;

    /// The difference, which modulo 2 is the sum.
    fn sub(self, other: BinaryPolynomial) -> (result: BinaryPolynomial)
        ensures
            result.0 == self.0 ^ other.0,
    {
        BinaryPolynomial(self.0 ^ other.0)
    }
}

impl MulSpecImpl<BinaryPolynomial> for BinaryPolynomial {
    open spec fn obeys_mul_spec() -> bool {
        true
    }

    open spec fn mul_req(self, other: BinaryPolynomial) -> bool {
        true
    }

    open spec fn mul_spec(self, other: BinaryPolynomial) -> BinaryPolynomial {
        BinaryPolynomial(clmul(self.0, other.0))
    }
}

impl Mul<BinaryPolynomial> for BinaryPolynomial {
    type Output = BinaryPolynomial;

    /// The product, with terms of degree 64 and above dropped: for each set bit `i` of
    /// `other`, this polynomial shifted left by `i` is added.
    fn mul(self, other: BinaryPolynomial) -> (result: BinaryPolynomial)
        ensures
            result.0 == clmul(self.0, other.0),
    {
        let mut x: u64 = other.0;
        let mut y: u64 = self.0;
        let mut result: u64 = 0;
        let ghost mut done: nat = 0;
        proof {
            lemma_xor_laws(clmul(self.0, other.0), 0, 0, 0);
        }
        while x > 0 && y > 0
            invariant
                done <= 64,
                fits(x, (64 - done) as nat),
                result ^ mul_mod(0, y, x, (64 - done) as nat) == clmul(self.0, other.0),
            decreases x,
        {
            proof {
                let left = (64 - done) as nat;
                lemma_fits_facts(x, 0, left as u64, 0);
                lemma_shift_facts(x, 0, left as u64);
                let t = mul_mod(0, y, x >> 1, (left - 1) as nat);
                lemma_mul_mod_times_x(0, y, x >> 1, (left - 1) as nat);
                lemma_times_x_facts(0, y, 0);
                lemma_xor_laws(result, pick(x, y), times_x(0, t), 0);
                lemma_xor_laws(result, 0, 0, 0);
                done = done + 1;
            }
            if x & 1 == 1 {
                result ^= y;
            }
            y <<= 1;
            x >>= 1;
        }
        proof {
            lemma_mul_mod_zero_left(0, x, (64 - done) as nat);
            lemma_mul_mod_zero_right(0, y, (64 - done) as nat);
            lemma_xor_laws(result, 0, 0, 0);
        }
        BinaryPolynomial(result)
    }
}

impl DivSpecImpl<BinaryPolynomial> for BinaryPolynomial {
    open spec fn obeys_div_spec() -> bool {
        true
    }

    open spec fn div_req(self, other: BinaryPolynomial) -> bool {
        other.0 != 0
    }

    open spec fn div_spec(self, other: BinaryPolynomial) -> BinaryPolynomial {
        BinaryPolynomial(poly_div(self.0, other.0))
    }
}

impl Div<BinaryPolynomial> for BinaryPolynomial {
    type Output = BinaryPolynomial;

    /// The quotient of long division by `other`, which is not zero; a caller that was
    /// not verified is stopped where it is.
    fn div(self, other: BinaryPolynomial) -> (result: BinaryPolynomial)
        ensures
            result.0 == poly_div(self.0, other.0),
    {
        runtime_assert(other.0 != 0);
        let mut result = BinaryPolynomial(0);
        let mut x = self;
        proof {
            lemma_xor_laws(poly_div(self.0, other.0), 0, 0, 0);
        }
        while x.degree() >= other.degree()
            invariant
                other.0 != 0,
                result.0 ^ poly_div(x.0, other.0) == poly_div(self.0, other.0),
            decreases deg(x.0) + 1,
        {
            proof {
                lemma_deg_range(other.0);
            }
            let shift: i8 = x.degree() - other.degree();
            let q = BinaryPolynomial(1u64 << (shift as u64));
            proof {
                lemma_step_lowers_degree(x.0, other.0);
                lemma_deg_range(x.0 ^ aligned(x.0, other.0));
                lemma_mul_monomial(other.0, shift as nat, 64);
                lemma_xor_laws(result.0, q.0, poly_div(x.0 ^ aligned(x.0, other.0), other.0), 0);
            }
            result.add_assign(q);
            x.sub_assign(other * q);
        }
        proof {
            lemma_xor_laws(result.0, 0, 0, 0);
        }
        result
    }
}

impl RemSpecImpl<BinaryPolynomial> for BinaryPolynomial {
    open spec fn obeys_rem_spec() -> bool {
        true
    }

    open spec fn rem_req(self, other: BinaryPolynomial) -> bool {
        other.0 != 0
    }

    open spec fn rem_spec(self, other: BinaryPolynomial) -> BinaryPolynomial {
        BinaryPolynomial(poly_rem(self.0, other.0))
    }
}

impl Rem<BinaryPolynomial> for BinaryPolynomial {
    type Output = BinaryPolynomial;

    /// The remainder of long division by `other`, which is not zero; a caller that was
    /// not verified is stopped where it is.
    fn rem(self, other: BinaryPolynomial) -> (result: BinaryPolynomial)
        ensures
            result.0 == poly_rem(self.0, other.0),
    {
        runtime_assert(other.0 != 0);
        let mut x = self;
        while x.degree() >= other.degree()
            invariant
                other.0 != 0,
                poly_rem(x.0, other.0) == poly_rem(self.0, other.0),
            decreases deg(x.0) + 1,
        {
            proof {
                lemma_deg_range(other.0);
            }
            let shift: i8 = x.degree() - other.degree();
            let q = BinaryPolynomial(1u64 << (shift as u64));
            proof {
                lemma_step_lowers_degree(x.0, other.0);
                lemma_deg_range(x.0 ^ aligned(x.0, other.0));
                lemma_mul_monomial(other.0, shift as nat, 64);
            }
            x.sub_assign(other * q);
        }
        x
    }
}

} // verus!

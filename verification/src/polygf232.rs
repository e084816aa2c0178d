//! Polynomials over GF(2^32), held as their coefficients.
use vstd::prelude::*;
use crate::coefficients::{
    canonical, coeff, divided, eval, gf_pow, lemma_coeff_beyond_span, lemma_quotient_canonical,
    lemma_reduce_step, lemma_span_lead, lemma_trim, lemma_trim_ext, longer, poly_degree, poly_sum,
    product, product_upto, quotient, quotient_digits, reduce_step, scaled, shifted_multiple, span,
    trim,
};
use crate::field::lemma_gf_add_laws;
use crate::gf232::GF232;
use vstd::pervasive::runtime_assert;
use vstd::std_specs::ops::{AddSpec, DivSpec, MulSpec};

verus! {

/// A polynomial over GF(2^32). The coefficient of `x^i` stands at index `i`; what the
/// functions of this type return is canonical: the last coefficient is not zero, and
/// the zero polynomial is empty.
#[derive(Debug, PartialEq, Eq)]
pub struct PolyGF232(Vec<GF232>);

impl View for PolyGF232 {
    type V = Seq<GF232>;

    closed spec fn view(&self) -> Seq<GF232> {
        self.0@
    }
}

impl Clone for PolyGF232 {
    fn clone(&self) -> (result: PolyGF232)
        ensures
            result@ == self@,
    {
        let mut copy: Vec<GF232> = Vec::new();
        let mut i: usize = 0;
        while i < self.0.len()
            invariant
                i <= self.0.len(),
                copy@ == self.0@.take(i as int),
            decreases self.0.len() - i,
        {
            copy.push(self.0[i]);
            i += 1;
            assert(copy@ =~= self.0@.take(i as int));
        }
        assert(self.0@.take(i as int) =~= self.0@);
        PolyGF232(copy)
    }
}

impl PolyGF232 {
    /// The polynomial with the coefficients `x`, lowest degree first, in canonical
    /// form.
    pub fn new(x: Vec<GF232>) -> (result: PolyGF232)
        ensures
            result@ == trim(x@),
            canonical(result@),
    {
        let mut result = PolyGF232(x);
        result.normalize();
        result
    }

    /// The coefficients of this polynomial, lowest degree first.
    pub fn coefficients(&self) -> (result: Vec<GF232>)
        ensures
            result@ == self@,
    {
        let copy = self.clone();
        copy.0
    }

    /// The value of this polynomial at `x`.
    pub fn apply(&self, x: GF232) -> (result: GF232)
        ensures
            result == eval(self@, x),
    {
        let mut powx = GF232(1);
        let mut result = GF232(0);
        let mut i: usize = 0;
        while i < self.0.len()
            invariant
                i <= self.0.len(),
                powx == gf_pow(x, i as nat),
                result == eval(self.0@.take(i as int), x),
            decreases self.0.len() - i,
        {
            proof {
                assert(self.0@.take(i + 1).drop_last() =~= self.0@.take(i as int));
            }
            result.add_assign(self.0[i] * powx);
            powx.mul_assign(x);
            i += 1;
        }
        proof {
            assert(self.0@.take(i as int) =~= self.0@);
        }
        result
    }

    /// One more than the degree: the number of coefficients up to the last one that is
    /// not zero.
    pub fn span(&self) -> (result: usize)
        ensures
            result == span(self@),
            result <= self@.len(),
    {
        let mut n: usize = self.0.len();
        proof {
            assert(self.0@.take(n as int) =~= self.0@);
        }
        while n > 0 && self.0[n - 1] == GF232(0)
            invariant
                n <= self.0.len(),
                span(self.0@) == span(self.0@.take(n as int)),
            decreases n,
        {
            proof {
                assert(self.0@.take(n as int).drop_last() =~= self.0@.take(n - 1));
            }
            n -= 1;
        }
        n
    }

    /// The degree of this polynomial, and -1 for the zero polynomial. The number of
    /// coefficients held has to fit in `isize`.
    pub fn degree(&self) -> (result: isize)
        requires
            self@.len() <= isize::MAX,
        ensures
            result == poly_degree(self@),
    {
        let n = self.span();
        n as isize - 1
    }

    /// The coefficient of `x^idx`, which is zero beyond the coefficients held.
    pub fn get_coeff(&self, idx: usize) -> (result: GF232)
        ensures
            result == coeff(self@, idx as int),
    {
        if idx >= self.0.len() {
            GF232(0)
        } else {
            self.0[idx]
        }
    }

    /// A reference to the coefficient of `x^idx`; zero coefficients are added first
    /// where fewer than `idx + 1` are held, so the polynomial may cease to be
    /// canonical.
    pub fn get_coeff_mut(&mut self, idx: usize) -> (result: &mut GF232)
        ensures
            *result == coeff(old(self)@, idx as int),
            final(self)@.len() == longer(old(self)@.len(), (idx + 1) as nat),
            forall|i: int|
                0 <= i < final(self)@.len() && i != idx ==> final(self)@[i] == coeff(old(self)@, i),
            final(self)@[idx as int] == *final(result),
    {
        let ghost before = self.0@;
        while self.0.len() <= idx
            invariant
                self.0@.len() >= before.len(),
                self.0@.len() <= longer(before.len(), (idx + 1) as nat),
                forall|i: int| 0 <= i < self.0@.len() ==> self.0@[i] == coeff(before, i),
            decreases idx + 1 - self.0.len(),
        {
            self.0.push(GF232(0));
        }
        &mut self.0[idx]
    }

    /// Brings this polynomial into canonical form: the zero coefficients at its end
    /// are dropped.
    pub fn normalize(&mut self)
        ensures
            final(self)@ == trim(old(self)@),
            canonical(final(self)@),
    {
        let n = self.span();
        self.0.truncate(n);
        proof {
            lemma_trim(old(self)@);
        }
    }

    /// The sum of this polynomial and the constant `other`.
    pub fn add_scalar(self, other: GF232) -> (result: PolyGF232)
        ensures
            result@ == poly_sum(self@, seq![other]),
            canonical(result@),
    {
        let mut constant: Vec<GF232> = Vec::new();
        constant.push(other);
        let poly = PolyGF232(constant);
        assert(poly@ =~= seq![other]);
        self.add(&poly)
    }

    /// The sum of this polynomial and `other`.
    pub fn add(self, other: &PolyGF232) -> (result: PolyGF232)
        ensures
            result@ == poly_sum(self@, other@),
            canonical(result@),
    {
        let mut this = self;
        let ghost p = this@;
        let ghost q = other@;
        let a = this.span();
        let b = other.span();
        let n = if a >= b {
            a
        } else {
            b
        };
        let mut i: usize = 0;
        while i < n
            invariant
                i <= n,
                q == other@,
                n <= longer(p.len(), q.len()),
                this@.len() <= longer(p.len(), q.len()),
                forall|j: int| 0 <= j < i ==> coeff(this@, j) == coeff(p, j).add_spec(coeff(q, j)),
                forall|j: int| i <= j ==> coeff(this@, j) == coeff(p, j),
            decreases n - i,
        {
            let sum = this.get_coeff(i) + other.get_coeff(i);
            *this.get_coeff_mut(i) = sum;
            i += 1;
        }
        proof {
            let s = Seq::new(longer(p.len(), q.len()), |i: int| coeff(p, i).add_spec(coeff(q, i)));
            assert forall|j: int| 0 <= j implies coeff(this@, j) == coeff(s, j) by {
                lemma_gf_add_laws(0, 0, 0, 0);
                if j >= n {
                    lemma_coeff_beyond_span(p, j);
                    lemma_coeff_beyond_span(q, j);
                    lemma_gf_add_laws(coeff(p, j).0, 0, 0, 0);
                }
            }
            lemma_trim_ext(this@, s);
        }
        this.normalize();
        this
    }

    /// The difference of this polynomial and `other`, which is their sum.
    pub fn sub(self, other: &PolyGF232) -> (result: PolyGF232)
        ensures
            result@ == poly_sum(self@, other@),
            canonical(result@),
    {
        let mut this = self;
        let ghost p = this@;
        let ghost q = other@;
        let a = this.span();
        let b = other.span();
        let n = if a >= b {
            a
        } else {
            b
        };
        let mut i: usize = 0;
        while i < n
            invariant
                i <= n,
                q == other@,
                n <= longer(p.len(), q.len()),
                this@.len() <= longer(p.len(), q.len()),
                forall|j: int| 0 <= j < i ==> coeff(this@, j) == coeff(p, j).add_spec(coeff(q, j)),
                forall|j: int| i <= j ==> coeff(this@, j) == coeff(p, j),
            decreases n - i,
        {
            let difference = this.get_coeff(i) - other.get_coeff(i);
            *this.get_coeff_mut(i) = difference;
            i += 1;
        }
        proof {
            let s = Seq::new(longer(p.len(), q.len()), |i: int| coeff(p, i).add_spec(coeff(q, i)));
            assert forall|j: int| 0 <= j implies coeff(this@, j) == coeff(s, j) by {
                lemma_gf_add_laws(0, 0, 0, 0);
                if j >= n {
                    lemma_coeff_beyond_span(p, j);
                    lemma_coeff_beyond_span(q, j);
                    lemma_gf_add_laws(coeff(p, j).0, 0, 0, 0);
                }
            }
            lemma_trim_ext(this@, s);
        }
        this.normalize();
        this
    }

    /// The product of this polynomial and the constant `other`.
    pub fn mul_scalar(self, other: GF232) -> (result: PolyGF232)
        ensures
            result@ == scaled(self@, other),
            canonical(result@),
    {
        let mut this = self;
        let ghost p = this@;
        let mut i: usize = 0;
        while i < this.0.len()
            invariant
                i <= this.0.len(),
                this.0@.len() == p.len(),
                forall|j: int| 0 <= j < i ==> this.0@[j] == p[j].mul_spec(other),
                forall|j: int| i <= j < p.len() ==> this.0@[j] == p[j],
            decreases this.0.len() - i,
        {
            this.0[i].mul_assign(other);
            i += 1;
        }
        assert(this@ =~= Seq::new(p.len(), |i: int| p[i].mul_spec(other)));
        this.normalize();
        this
    }

    /// The quotient of this polynomial by the constant `other`, which is not zero.
    pub fn div_scalar(self, other: GF232) -> (result: PolyGF232)
        requires
            other.0 != 0,
        ensures
            result@ == divided(self@, other),
            canonical(result@),
    {
        let mut this = self;
        let ghost p = this@;
        let mut i: usize = 0;
        while i < this.0.len()
            invariant
                i <= this.0.len(),
                other.0 != 0,
                this.0@.len() == p.len(),
                forall|j: int| 0 <= j < i ==> this.0@[j] == p[j].div_spec(other),
                forall|j: int| i <= j < p.len() ==> this.0@[j] == p[j],
            decreases this.0.len() - i,
        {
            this.0[i].div_assign(other);
            i += 1;
        }
        assert(this@ =~= Seq::new(p.len(), |i: int| p[i].div_spec(other)));
        this.normalize();
        this
    }

    /// This polynomial times `a * x^shift`, not brought into canonical form. The
    /// length of the result has to fit in `usize`.
    pub fn shifted_multiple(&self, a: GF232, shift: usize) -> (result: PolyGF232)
        requires
            shift + self@.len() <= usize::MAX,
        ensures
            result@ == shifted_multiple(self@, a, shift as nat),
    {
        let mut comp: Vec<GF232> = Vec::new();
        let mut i: usize = 0;
        while i < shift
            invariant
                i <= shift,
                comp@.len() == i,
                forall|j: int| 0 <= j < i ==> comp@[j] == GF232(0),
            decreases shift - i,
        {
            comp.push(GF232(0));
            i += 1;
        }
        let mut k: usize = 0;
        while k < self.0.len()
            invariant
                k <= self.0.len(),
                shift + self.0@.len() <= usize::MAX,
                comp@.len() == shift + k,
                forall|j: int| 0 <= j < shift ==> comp@[j] == GF232(0),
                forall|j: int| shift <= j < shift + k ==> comp@[j] == self.0@[j - shift].mul_spec(a),
            decreases self.0.len() - k,
        {
            comp.push(self.0[k] * a);
            k += 1;
        }
        assert(comp@ =~= shifted_multiple(self@, a, shift as nat));
        PolyGF232(comp)
    }

    /// The product of this polynomial and `other`: for each coefficient of this
    /// polynomial, `other` times that term is added. The lengths of the two together
    /// have to fit in `usize`.
    pub fn mul(self, other: &PolyGF232) -> (result: PolyGF232)
        requires
            self@.len() + other@.len() <= usize::MAX,
        ensures
            result@ == product(self@, other@),
            canonical(result@),
    {
        let mut result = PolyGF232(Vec::new());
        let mut i: usize = 0;
        while i < self.0.len()
            invariant
                i <= self.0.len(),
                self@.len() + other@.len() <= usize::MAX,
                result@ == product_upto(self@, other@, i as nat),
                canonical(result@),
            decreases self.0.len() - i,
        {
            let comp = other.shifted_multiple(self.0[i], i);
            result = result.add(&comp);
            i += 1;
        }
        result
    }

    /// The quotient of this polynomial by `other`, which is not zero. Division stops
    /// where the degrees are equal: the quotient of the leading coefficients is noted
    /// only while the degree of what is left is above that of `other`. The lengths of
    /// the two together have to fit in `usize`.
    pub fn div(self, other: &PolyGF232) -> (result: PolyGF232)
        requires
            span(other@) > 0,
            self@.len() + other@.len() <= usize::MAX,
        ensures
            result@ == quotient(self@, other@),
            canonical(result@),
    {
        let mut this = self;
        let ghost p = this@;
        let mut digits: Vec<GF232> = Vec::new();
        let d = other.span();
        runtime_assert(d > 0);
        let mut s = this.span();
        while s > d
            invariant
                d == span(other@),
                d > 0,
                s == span(this@),
                this@.len() + other@.len() <= usize::MAX,
                digits@ + quotient_digits(this@, other@) == quotient_digits(p, other@),
            decreases s,
        {
            proof {
                lemma_span_lead(this@);
                lemma_span_lead(other@);
                lemma_reduce_step(this@, other@);
            }
            let ghost before = this@;
            let ghost noted = digits@;
            let q = this.0[s - 1] / other.0[d - 1];
            digits.push(q);
            let multiple = other.shifted_multiple(q, s - d);
            this = this.sub(&multiple);
            s = this.span();
            proof {
                assert(this@ == reduce_step(before, other@));
                assert(digits@ + quotient_digits(this@, other@) =~= noted + quotient_digits(
                    before,
                    other@,
                ));
            }
        }
        proof {
            assert(digits@ =~= quotient_digits(p, other@));
            lemma_quotient_canonical(p, other@);
        }
        let mut result: Vec<GF232> = Vec::new();
        let mut i: usize = digits.len();
        while i > 0
            invariant
                i <= digits@.len(),
                result@.len() == digits@.len() - i,
                forall|j: int| 0 <= j < result@.len() ==> result@[j] == digits@[digits@.len() - 1 - j],
            decreases i,
        {
            i -= 1;
            result.push(digits[i]);
        }
        assert(result@ =~= digits@.reverse());
        PolyGF232(result)
    }
}

} // verus!

//! How the value of a polynomial over GF(2^32) at a point goes with the operations on
//! polynomials.
use vstd::prelude::*;
use crate::coefficients::{
    coeff, divided, eval, gf_pow, lemma_span_le_len, lemma_trim_ext, longer, poly_sum, product,
    product_upto, scaled, shifted_multiple, trim,
};
use crate::field::{
    gf_inv, lemma_gf_add_laws, lemma_gf_mul_assoc, lemma_gf_mul_commutes, lemma_gf_mul_distributes,
    lemma_gf_mul_one_zero,
};
use crate::gf232::GF232;
use vstd::std_specs::ops::{AddSpec, DivSpec, MulSpec};

verus! {

/// The laws of a commutative ring, for three field elements.
pub proof fn lemma_ring(a: GF232, b: GF232, c: GF232)
    ensures
        a.add_spec(b) == b.add_spec(a),
        a.add_spec(b).add_spec(c) == a.add_spec(b.add_spec(c)),
        a.mul_spec(b) == b.mul_spec(a),
        a.mul_spec(b).mul_spec(c) == a.mul_spec(b.mul_spec(c)),
        a.mul_spec(b.add_spec(c)) == a.mul_spec(b).add_spec(a.mul_spec(c)),
        a.add_spec(b).mul_spec(c) == a.mul_spec(c).add_spec(b.mul_spec(c)),
        a.add_spec(GF232(0)) == a,
        GF232(0).add_spec(a) == a,
        a.add_spec(a) == GF232(0),
        a.mul_spec(GF232(1)) == a,
        GF232(1).mul_spec(a) == a,
        a.mul_spec(GF232(0)) == GF232(0),
        GF232(0).mul_spec(a) == GF232(0),
        a.add_spec(b) == GF232(0) <==> a == b,
{
    lemma_gf_add_laws(a.0, b.0, c.0, 0);
    lemma_gf_mul_commutes(a.0, b.0);
    lemma_gf_mul_assoc(a.0, b.0, c.0);
    lemma_gf_mul_distributes(a.0, b.0, c.0);
    lemma_gf_mul_distributes(c.0, a.0, b.0);
    lemma_gf_mul_one_zero(a.0);
}

/// Sums of four terms may be regrouped.
pub proof fn lemma_add_four(a: GF232, b: GF232, c: GF232, d: GF232)
    ensures
        a.add_spec(b).add_spec(c.add_spec(d)) == a.add_spec(c).add_spec(b.add_spec(d)),
{
    lemma_gf_add_laws(a.0, b.0, c.0, d.0);
}

/// A power of `x` with a sum as exponent is the product of the powers.
pub proof fn lemma_pow_adds(x: GF232, i: nat, j: nat)
    ensures
        gf_pow(x, i + j) == gf_pow(x, i).mul_spec(gf_pow(x, j)),
    decreases j,
{
    if j == 0 {
        lemma_ring(gf_pow(x, i), x, x);
    } else {
        lemma_pow_adds(x, i, (j - 1) as nat);
        lemma_ring(gf_pow(x, i), gf_pow(x, (j - 1) as nat), x);
    }
}

/// The value of a polynomial with only zero coefficients is zero.
pub proof fn lemma_eval_zero(p: Seq<GF232>, x: GF232)
    requires
        forall|i: int| 0 <= i < p.len() ==> p[i] == GF232(0),
    ensures
        eval(p, x) == GF232(0),
    decreases p.len(),
{
    if p.len() > 0 {
        lemma_eval_zero(p.drop_last(), x);
        lemma_ring(gf_pow(x, (p.len() - 1) as nat), x, x);
        lemma_ring(GF232(0), x, x);
    }
}

/// Zero coefficients at the end of a polynomial do not change its value.
pub proof fn lemma_eval_trim(p: Seq<GF232>, x: GF232)
    ensures
        eval(trim(p), x) == eval(p, x),
    decreases p.len(),
{
    lemma_span_le_len(p);
    if p.len() == 0 {
        assert(trim(p) =~= p);
    } else if p.last().0 != 0 {
        assert(trim(p) =~= p);
    } else {
        lemma_eval_trim(p.drop_last(), x);
        lemma_span_le_len(p.drop_last());
        assert(trim(p) =~= trim(p.drop_last()));
        lemma_ring(gf_pow(x, (p.len() - 1) as nat), x, x);
        lemma_ring(eval(p.drop_last(), x), x, x);
    }
}

/// Two sequences with the same coefficients have the same value.
pub proof fn lemma_eval_ext(a: Seq<GF232>, b: Seq<GF232>, x: GF232)
    requires
        forall|i: int| 0 <= i ==> coeff(a, i) == coeff(b, i),
    ensures
        eval(a, x) == eval(b, x),
{
    lemma_trim_ext(a, b);
    lemma_eval_trim(a, x);
    lemma_eval_trim(b, x);
}

/// The value of the sum, coefficient by coefficient, of two sequences of one length.
proof fn lemma_eval_pointwise_sum(a: Seq<GF232>, b: Seq<GF232>, c: Seq<GF232>, x: GF232)
    requires
        a.len() == b.len(),
        a.len() == c.len(),
        forall|i: int| 0 <= i < c.len() ==> c[i] == a[i].add_spec(b[i]),
    ensures
        eval(c, x) == eval(a, x).add_spec(eval(b, x)),
    decreases c.len(),
{
    if c.len() == 0 {
        lemma_ring(GF232(0), x, x);
    } else {
        lemma_eval_pointwise_sum(a.drop_last(), b.drop_last(), c.drop_last(), x);
        let w = gf_pow(x, (c.len() - 1) as nat);
        lemma_ring(a.last(), b.last(), w);
        lemma_add_four(
            eval(a.drop_last(), x),
            eval(b.drop_last(), x),
            a.last().mul_spec(w),
            b.last().mul_spec(w),
        );
    }
}

/// The value of a sum of polynomials is the sum of their values.
pub proof fn lemma_eval_sum(p: Seq<GF232>, q: Seq<GF232>, x: GF232)
    ensures
        eval(poly_sum(p, q), x) == eval(p, x).add_spec(eval(q, x)),
{
    let n = longer(p.len(), q.len());
    let a = Seq::new(n, |i: int| coeff(p, i));
    let b = Seq::new(n, |i: int| coeff(q, i));
    let c = Seq::new(n, |i: int| coeff(p, i).add_spec(coeff(q, i)));
    lemma_eval_ext(a, p, x);
    lemma_eval_ext(b, q, x);
    lemma_eval_pointwise_sum(a, b, c, x);
    lemma_eval_trim(c, x);
}

/// The value of a sequence with each coefficient multiplied by `c`.
proof fn lemma_eval_pointwise_product(a: Seq<GF232>, c: GF232, b: Seq<GF232>, x: GF232)
    requires
        a.len() == b.len(),
        forall|i: int| 0 <= i < b.len() ==> b[i] == a[i].mul_spec(c),
    ensures
        eval(b, x) == eval(a, x).mul_spec(c),
    decreases b.len(),
{
    if b.len() == 0 {
        lemma_ring(c, x, x);
    } else {
        lemma_eval_pointwise_product(a.drop_last(), c, b.drop_last(), x);
        let w = gf_pow(x, (b.len() - 1) as nat);
        lemma_ring(a.last(), c, w);
        lemma_ring(a.last(), w, c);
        lemma_ring(c, w, w);
        lemma_ring(eval(a.drop_last(), x), a.last().mul_spec(w), c);
    }
}

/// The value of a polynomial times a constant is its value times the constant.
pub proof fn lemma_eval_scaled(p: Seq<GF232>, c: GF232, x: GF232)
    ensures
        eval(scaled(p, c), x) == eval(p, x).mul_spec(c),
{
    let b = Seq::new(p.len(), |i: int| p[i].mul_spec(c));
    lemma_eval_pointwise_product(p, c, b, x);
    lemma_eval_trim(b, x);
}

/// The value of a polynomial divided by a constant is its value divided by the
/// constant.
pub proof fn lemma_eval_divided(p: Seq<GF232>, c: GF232, x: GF232)
    ensures
        eval(divided(p, c), x) == eval(p, x).div_spec(c),
{
    let inverse = GF232(gf_inv(c.0));
    let b = Seq::new(p.len(), |i: int| p[i].div_spec(c));
    lemma_eval_pointwise_product(p, inverse, b, x);
    lemma_eval_trim(b, x);
}

/// The value of `q` times `a * x^shift`.
pub proof fn lemma_eval_shifted_multiple(q: Seq<GF232>, a: GF232, shift: nat, x: GF232)
    ensures
        eval(shifted_multiple(q, a, shift), x) == a.mul_spec(gf_pow(x, shift)).mul_spec(
            eval(q, x),
        ),
    decreases q.len(),
{
    let m = shifted_multiple(q, a, shift);
    let t = a.mul_spec(gf_pow(x, shift));
    if q.len() == 0 {
        lemma_eval_zero(m, x);
        lemma_ring(t, x, x);
    } else {
        let n = (q.len() - 1) as nat;
        lemma_eval_shifted_multiple(q.drop_last(), a, shift, x);
        assert(m.drop_last() =~= shifted_multiple(q.drop_last(), a, shift));
        assert(m.last() == q.last().mul_spec(a));
        lemma_pow_adds(x, shift, n);
        let w = gf_pow(x, n);
        let s = gf_pow(x, shift);
        // (q.last * a) * (s * w) == (a * s) * (q.last * w)
        lemma_ring(q.last(), a, s.mul_spec(w));
        lemma_ring(a, s, w);
        lemma_ring(q.last(), t, w);
        lemma_ring(q.last(), a.mul_spec(s.mul_spec(w)), w);
        lemma_ring(t, q.last(), w);
        assert(m.last().mul_spec(gf_pow(x, shift + n)) == t.mul_spec(q.last().mul_spec(w)));
        lemma_ring(t, eval(q.drop_last(), x), q.last().mul_spec(w));
    }
}

/// The value of the product with the lowest `n` terms of `p`.
proof fn lemma_eval_product_upto(p: Seq<GF232>, q: Seq<GF232>, n: nat, x: GF232)
    requires
        n <= p.len(),
    ensures
        eval(product_upto(p, q, n), x) == eval(p.take(n as int), x).mul_spec(eval(q, x)),
    decreases n,
{
    if n == 0 {
        lemma_ring(eval(q, x), x, x);
    } else {
        let k = (n - 1) as nat;
        lemma_eval_product_upto(p, q, k, x);
        let term = shifted_multiple(q, p[k as int], k);
        lemma_eval_sum(product_upto(p, q, k), term, x);
        lemma_eval_shifted_multiple(q, p[k as int], k, x);
        assert(p.take(n as int).drop_last() =~= p.take(k as int));
        lemma_ring(eval(p.take(k as int), x), p[k as int].mul_spec(gf_pow(x, k)), eval(q, x));
    }
}

/// The value of a product of polynomials is the product of their values.
pub proof fn lemma_eval_product(p: Seq<GF232>, q: Seq<GF232>, x: GF232)
    ensures
        eval(product(p, q), x) == eval(p, x).mul_spec(eval(q, x)),
{
    lemma_eval_product_upto(p, q, p.len(), x);
    assert(p.take(p.len() as int) =~= p);
}

/// A sum is at most as long as the longer of its terms.
pub proof fn lemma_sum_len(p: Seq<GF232>, q: Seq<GF232>)
    ensures
        poly_sum(p, q).len() <= longer(p.len(), q.len()),
{
    let c = Seq::new(longer(p.len(), q.len()), |i: int| coeff(p, i).add_spec(coeff(q, i)));
    lemma_span_le_len(c);
}

/// A multiple by a constant, and a quotient by one, is at most as long as the
/// polynomial.
pub proof fn lemma_scaled_len(p: Seq<GF232>, c: GF232)
    ensures
        scaled(p, c).len() <= p.len(),
        divided(p, c).len() <= p.len(),
{
    lemma_span_le_len(Seq::new(p.len(), |i: int| p[i].mul_spec(c)));
    lemma_span_le_len(Seq::new(p.len(), |i: int| p[i].div_spec(c)));
}

/// The length of the product with the lowest `n` terms of `p`.
proof fn lemma_product_upto_len(p: Seq<GF232>, q: Seq<GF232>, n: nat)
    requires
        n <= p.len(),
    ensures
        n == 0 ==> product_upto(p, q, n).len() == 0,
        n > 0 ==> product_upto(p, q, n).len() <= n - 1 + q.len(),
    decreases n,
{
    if n > 0 {
        lemma_product_upto_len(p, q, (n - 1) as nat);
        lemma_sum_len(
            product_upto(p, q, (n - 1) as nat),
            shifted_multiple(q, p[n - 1], (n - 1) as nat),
        );
    }
}

/// The degree of a product is at most the sum of the degrees of its factors.
pub proof fn lemma_product_len(p: Seq<GF232>, q: Seq<GF232>)
    ensures
        p.len() == 0 ==> product(p, q).len() == 0,
        p.len() > 0 ==> product(p, q).len() <= p.len() - 1 + q.len(),
{
    lemma_product_upto_len(p, q, p.len());
}

} // verus!

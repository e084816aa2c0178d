//! Polynomials over GF(2^32) as sequences of coefficients, lowest degree first.
use vstd::prelude::*;
use crate::field::{lemma_gf_add_laws, lemma_gf_div_cancel, lemma_gf_mul_one_zero};
use crate::gf232::GF232;
use vstd::std_specs::ops::{AddSpec, DivSpec, MulSpec};

verus! {

/// The coefficient of `x^i` in `p`, which is zero beyond the end of the sequence.
pub open spec fn coeff(p: Seq<GF232>, i: int) -> GF232 {
    if 0 <= i < p.len() {
        p[i]
    } else {
        GF232(0)
    }
}

/// One more than the degree of `p`: the number of coefficients up to the last one
/// that is not zero, and 0 for the zero polynomial.
pub open spec fn span(p: Seq<GF232>) -> nat
    decreases p.len(),
{
    if p.len() == 0 {
        0
    } else if p.last().0 != 0 {
        p.len()
    } else {
        span(p.drop_last())
    }
}

/// The degree of `p`, and -1 for the zero polynomial.
pub open spec fn poly_degree(p: Seq<GF232>) -> int {
    span(p) - 1
}

/// Whether the last coefficient of `p` is not zero, or `p` is empty.
pub open spec fn canonical(p: Seq<GF232>) -> bool {
    p.len() == 0 || p.last().0 != 0
}

/// `p` without the zero coefficients at its end.
pub open spec fn trim(p: Seq<GF232>) -> Seq<GF232> {
    p.take(span(p) as int)
}

/// `x` to the power `n` in the field.
pub open spec fn gf_pow(x: GF232, n: nat) -> GF232
    decreases n,
{
    if n == 0 {
        GF232(1)
    } else {
        gf_pow(x, (n - 1) as nat).mul_spec(x)
    }
}

/// The value of `p` at `x`: the sum of the coefficients, each times the power of `x`
/// that it belongs to.
pub open spec fn eval(p: Seq<GF232>, x: GF232) -> GF232
    decreases p.len(),
{
    if p.len() == 0 {
        GF232(0)
    } else {
        eval(p.drop_last(), x).add_spec(p.last().mul_spec(gf_pow(x, (p.len() - 1) as nat)))
    }
}

/// The larger of two lengths.
pub open spec fn longer(a: nat, b: nat) -> nat {
    if a >= b {
        a
    } else {
        b
    }
}

/// The sum of `p` and `q`, coefficient by coefficient, in canonical form. The
/// difference of `p` and `q` is the same polynomial.
pub open spec fn poly_sum(p: Seq<GF232>, q: Seq<GF232>) -> Seq<GF232> {
    trim(Seq::new(longer(p.len(), q.len()), |i: int| coeff(p, i).add_spec(coeff(q, i))))
}

/// `p` with each coefficient multiplied by `c`, in canonical form.
pub open spec fn scaled(p: Seq<GF232>, c: GF232) -> Seq<GF232> {
    trim(Seq::new(p.len(), |i: int| p[i].mul_spec(c)))
}

/// `p` with each coefficient divided by `c`, which is not zero, in canonical form.
pub open spec fn divided(p: Seq<GF232>, c: GF232) -> Seq<GF232> {
    trim(Seq::new(p.len(), |i: int| p[i].div_spec(c)))
}

/// `q` times `a * x^shift`: `shift` zero coefficients, then each coefficient of `q`
/// multiplied by `a`. The result need not be canonical.
pub open spec fn shifted_multiple(q: Seq<GF232>, a: GF232, shift: nat) -> Seq<GF232> {
    Seq::new(
        shift + q.len(),
        |j: int|
            if j < shift {
                GF232(0)
            } else {
                q[j - shift].mul_spec(a)
            },
    )
}

/// The sum of the products of `q` with the lowest `n` terms of `p`.
pub open spec fn product_upto(p: Seq<GF232>, q: Seq<GF232>, n: nat) -> Seq<GF232>
    decreases n,
{
    if n == 0 {
        Seq::empty()
    } else {
        poly_sum(
            product_upto(p, q, (n - 1) as nat),
            shifted_multiple(q, p[n - 1], (n - 1) as nat),
        )
    }
}

/// The product of `p` and `q`, in canonical form.
pub open spec fn product(p: Seq<GF232>, q: Seq<GF232>) -> Seq<GF232> {
    product_upto(p, q, p.len())
}

/// The span is at most the length.
pub proof fn lemma_span_le_len(p: Seq<GF232>)
    ensures
        span(p) <= p.len(),
    decreases p.len(),
{
    if p.len() > 0 && p.last().0 == 0 {
        lemma_span_le_len(p.drop_last());
    }
}

/// From the span on, every coefficient is zero.
pub proof fn lemma_coeff_beyond_span(p: Seq<GF232>, i: int)
    requires
        i >= span(p),
    ensures
        coeff(p, i).0 == 0,
    decreases p.len(),
{
    if p.len() > 0 && p.last().0 == 0 {
        lemma_coeff_beyond_span(p.drop_last(), i);
    }
}

/// The coefficient just below the span is not zero.
pub proof fn lemma_span_lead(p: Seq<GF232>)
    requires
        span(p) > 0,
    ensures
        span(p) <= p.len(),
        p[span(p) - 1].0 != 0,
    decreases p.len(),
{
    if p.len() > 0 && p.last().0 == 0 {
        lemma_span_lead(p.drop_last());
    }
}

/// Where every coefficient from `n` on is zero, the span is at most `n`.
pub proof fn lemma_span_bound(p: Seq<GF232>, n: nat)
    requires
        forall|i: int| n <= i < p.len() ==> p[i].0 == 0,
    ensures
        span(p) <= n,
    decreases p.len(),
{
    if p.len() > n {
        lemma_span_bound(p.drop_last(), n);
    } else {
        lemma_span_le_len(p);
    }
}

/// Two sequences with the same coefficients have the same span.
pub proof fn lemma_span_ext(a: Seq<GF232>, b: Seq<GF232>)
    requires
        forall|i: int| 0 <= i ==> coeff(a, i) == coeff(b, i),
    ensures
        span(a) == span(b),
{
    if span(a) > 0 {
        lemma_span_lead(a);
        assert(coeff(a, span(a) - 1) == coeff(b, span(a) - 1));
        if span(b) < span(a) {
            lemma_coeff_beyond_span(b, span(a) - 1);
        }
    }
    if span(b) > 0 {
        lemma_span_lead(b);
        assert(coeff(a, span(b) - 1) == coeff(b, span(b) - 1));
        if span(a) < span(b) {
            lemma_coeff_beyond_span(a, span(b) - 1);
        }
    }
}

/// Two sequences with the same coefficients have the same canonical form.
pub proof fn lemma_trim_ext(a: Seq<GF232>, b: Seq<GF232>)
    requires
        forall|i: int| 0 <= i ==> coeff(a, i) == coeff(b, i),
    ensures
        trim(a) == trim(b),
{
    lemma_span_ext(a, b);
    lemma_span_le_len(a);
    lemma_span_le_len(b);
    assert forall|i: int| 0 <= i < span(a) implies trim(a)[i] == trim(b)[i] by {
        assert(coeff(a, i) == coeff(b, i));
    }
    assert(trim(a) =~= trim(b));
}

/// The canonical form is canonical, has the coefficients of the sequence, and is as
/// long as the span.
pub proof fn lemma_trim(p: Seq<GF232>)
    ensures
        canonical(trim(p)),
        trim(p).len() == span(p),
        span(trim(p)) == span(p),
        forall|i: int| coeff(trim(p), i) == coeff(p, i),
        canonical(p) ==> trim(p) == p,
{
    lemma_span_le_len(p);
    if span(p) > 0 {
        lemma_span_lead(p);
    }
    assert forall|i: int| coeff(trim(p), i) == coeff(p, i) by {
        if i >= span(p) {
            lemma_coeff_beyond_span(p, i);
        }
    }
    if canonical(p) {
        assert(trim(p) =~= p);
    }
}

/// The leading coefficient of `p`, and zero for the zero polynomial.
pub open spec fn lead(p: Seq<GF232>) -> GF232 {
    coeff(p, span(p) - 1)
}

/// `p` minus the multiple of `d` that has the degree and the leading coefficient of
/// `p`; the degree of `d` is at most that of `p`, and `d` is not zero.
pub open spec fn reduce_step(p: Seq<GF232>, d: Seq<GF232>) -> Seq<GF232> {
    poly_sum(p, shifted_multiple(d, lead(p).div_spec(lead(d)), (span(p) - span(d)) as nat))
}

/// The coefficients of the quotient of `p` by `d`, highest degree first: as long as
/// the degree of `p` is above that of `d`, the quotient of the leading coefficients
/// is noted and the multiple of `d` that cancels the leading term is subtracted.
/// Division stops where the degrees are equal.
pub open spec fn quotient_digits(p: Seq<GF232>, d: Seq<GF232>) -> Seq<GF232>
    decreases span(p),
    when span(d) > 0
    via quotient_digits_decreases
{
    if span(p) > span(d) {
        seq![lead(p).div_spec(lead(d))] + quotient_digits(reduce_step(p, d), d)
    } else {
        Seq::empty()
    }
}

/// The quotient of `p` by `d`, which is not zero: the noted coefficients, lowest
/// degree first.
pub open spec fn quotient(p: Seq<GF232>, d: Seq<GF232>) -> Seq<GF232> {
    quotient_digits(p, d).reverse()
}

/// A step of the division lowers the degree.
pub proof fn lemma_reduce_step(p: Seq<GF232>, d: Seq<GF232>)
    requires
        span(d) > 0,
        span(p) >= span(d),
    ensures
        span(reduce_step(p, d)) < span(p),
        canonical(reduce_step(p, d)),
        reduce_step(p, d).len() < span(p),
{
    let q = lead(p).div_spec(lead(d));
    let shift = (span(p) - span(d)) as nat;
    let m = shifted_multiple(d, q, shift);
    let s = Seq::new(longer(p.len(), m.len()), |i: int| coeff(p, i).add_spec(coeff(m, i)));
    lemma_span_lead(p);
    lemma_span_lead(d);
    assert forall|i: int| span(p) - 1 <= i < s.len() implies s[i].0 == 0 by {
        lemma_gf_add_laws(0, 0, 0, 0);
        lemma_gf_mul_one_zero(q.0);
        if i == span(p) - 1 {
            lemma_gf_div_cancel(lead(p).0, lead(d).0);
            lemma_gf_add_laws(lead(p).0, 0, 0, 0);
            assert(coeff(m, i) == d[span(d) - 1].mul_spec(q));
        } else {
            lemma_coeff_beyond_span(p, i);
            lemma_coeff_beyond_span(d, i - shift);
        }
    }
    lemma_span_bound(s, (span(p) - 1) as nat);
    lemma_trim(s);
}

#[via_fn]
proof fn quotient_digits_decreases(p: Seq<GF232>, d: Seq<GF232>) {
    if span(p) > span(d) {
        lemma_reduce_step(p, d);
    }
}

/// The quotient is canonical.
pub proof fn lemma_quotient_canonical(p: Seq<GF232>, d: Seq<GF232>)
    requires
        span(d) > 0,
    ensures
        canonical(quotient(p, d)),
{
    if span(p) > span(d) {
        lemma_span_lead(p);
        lemma_span_lead(d);
        lemma_gf_div_cancel(lead(p).0, lead(d).0);
        let digits = quotient_digits(p, d);
        assert(digits[0] == lead(p).div_spec(lead(d)));
        assert(digits.reverse().last() == digits[0]);
    }
}

} // verus!

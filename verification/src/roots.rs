//! A polynomial over GF(2^32) of degree below `m` is determined by its values at `m`
//! points.
use vstd::prelude::*;
use crate::coefficients::{eval, gf_pow, poly_sum};
use crate::evaluation::{lemma_eval_sum, lemma_ring, lemma_sum_len};
use crate::field::lemma_gf_no_zero_divisors;
use crate::gf232::GF232;
use vstd::std_specs::ops::{AddSpec, MulSpec};

verus! {

/// Whether no two of the points are equal.
pub open spec fn distinct(points: Seq<GF232>) -> bool {
    forall|i: int, j: int| 0 <= i < j < points.len() ==> points[i] != points[j]
}

/// The quotient of `d` on division by `x - r`, by Horner's rule: its coefficient of
/// `x^i` is the value at `r` of `d` without its lowest `i + 1` coefficients.
pub open spec fn deflated(d: Seq<GF232>, r: GF232) -> Seq<GF232>
    decreases d.len(),
{
    if d.len() <= 1 {
        Seq::empty()
    } else {
        seq![eval(d.skip(1), r)] + deflated(d.skip(1), r)
    }
}

/// Horner's rule: the value of a polynomial is its lowest coefficient plus `x` times
/// the value of the polynomial without it.
pub proof fn lemma_eval_horner(p: Seq<GF232>, x: GF232)
    requires
        p.len() > 0,
    ensures
        eval(p, x) == p[0].add_spec(x.mul_spec(eval(p.skip(1), x))),
    decreases p.len(),
{
    if p.len() == 1 {
        assert(eval(p.drop_last(), x) == GF232(0));
        assert(eval(p.skip(1), x) == GF232(0));
        assert(gf_pow(x, 0) == GF232(1));
        assert(p.last() == p[0]);
        lemma_ring(p[0], x, x);
        lemma_ring(x, p[0], x);
    } else {
        let n = (p.len() - 1) as nat;
        let head = p.drop_last();
        let tail = p.skip(1);
        lemma_eval_horner(head, x);
        assert(head.skip(1) =~= tail.drop_last());
        assert(tail.last() == p.last());
        let w = gf_pow(x, (n - 1) as nat);
        let e = eval(head.skip(1), x);
        // x * (e + last * w) == x * e + last * (w * x)
        lemma_ring(x, e, p.last().mul_spec(w));
        lemma_ring(x, p.last(), w);
        lemma_ring(p.last(), x, w);
        lemma_ring(p.last(), w, x);
        lemma_ring(x, w, w);
        lemma_ring(p[0], x.mul_spec(e), p.last().mul_spec(gf_pow(x, n)));
        assert(eval(tail, x) == e.add_spec(p.last().mul_spec(w)));
        assert(gf_pow(x, n) == w.mul_spec(x));
        assert(x.mul_spec(p.last().mul_spec(w)) == p.last().mul_spec(gf_pow(x, n)));
    }
}

/// The length of the quotient by `x - r` is one less than that of the polynomial.
pub proof fn lemma_deflated_len(d: Seq<GF232>, r: GF232)
    ensures
        d.len() > 0 ==> deflated(d, r).len() == d.len() - 1,
        d.len() == 0 ==> deflated(d, r).len() == 0,
    decreases d.len(),
{
    if d.len() > 1 {
        lemma_deflated_len(d.skip(1), r);
    }
}

/// The value of `d` at `x` is its value at `r` plus `x - r` times the value of the
/// quotient by `x - r`.
pub proof fn lemma_factor(d: Seq<GF232>, r: GF232, x: GF232)
    ensures
        eval(d, x) == eval(d, r).add_spec(x.add_spec(r).mul_spec(eval(deflated(d, r), x))),
    decreases d.len(),
{
    let e = deflated(d, r);
    if d.len() == 0 {
        lemma_ring(x.add_spec(r), x, x);
        lemma_ring(GF232(0), x, x);
    } else if d.len() == 1 {
        lemma_eval_horner(d, x);
        lemma_eval_horner(d, r);
        assert(d.skip(1).len() == 0);
        lemma_ring(x, r, r);
        lemma_ring(r, x, x);
        lemma_ring(x.add_spec(r), x, x);
        lemma_ring(d[0], x, x);
    } else {
        let tail = d.skip(1);
        let e1 = deflated(tail, r);
        lemma_factor(tail, r, x);
        lemma_eval_horner(d, x);
        lemma_eval_horner(d, r);
        lemma_eval_horner(e, x);
        assert(e.skip(1) =~= e1);
        let tr = eval(tail, r);
        let ex = eval(e1, x);
        let s = x.add_spec(r);
        // eval(tail, x) == tr + s * ex, and eval(e, x) == tr + x * ex
        // x * eval(tail, x) + r * tr == s * (tr + x * ex)
        lemma_ring(x, tr, s.mul_spec(ex));
        lemma_ring(x, s, ex);
        lemma_ring(s, x, ex);
        lemma_ring(s, tr, x.mul_spec(ex));
        lemma_ring(x, r, tr);
        lemma_ring(x.mul_spec(tr), r.mul_spec(tr), s.mul_spec(x.mul_spec(ex)));
        lemma_ring(r.mul_spec(tr), x.mul_spec(tr), s.mul_spec(x.mul_spec(ex)));
        lemma_ring(r.mul_spec(tr), x.mul_spec(tr), x.mul_spec(tr));
        let a = x.mul_spec(tr);
        let b = r.mul_spec(tr);
        let c = s.mul_spec(x.mul_spec(ex));
        assert(x.mul_spec(eval(tail, x)) == a.add_spec(c));
        assert(s.mul_spec(eval(e, x)) == a.add_spec(b).add_spec(c));
        // d(x) == d0 + (a + c); d(r) == d0 + b; d(r) + s * e(x) == d0 + b + (a + b + c)
        lemma_ring(d[0], b, a.add_spec(b).add_spec(c));
        lemma_ring(b, a.add_spec(b), c);
        lemma_ring(b, a, b);
        lemma_ring(a, b, b);
        lemma_ring(b, b, a);
        lemma_ring(a, b, c);
        lemma_ring(GF232(0), a, c);
        assert(b.add_spec(a.add_spec(b)) == a);
        assert(b.add_spec(a.add_spec(b).add_spec(c)) == a.add_spec(c));
    }
}

/// A polynomial with more distinct zeros than its degree has the value zero
/// everywhere.
pub proof fn lemma_zeros(d: Seq<GF232>, zeros: Seq<GF232>)
    requires
        d.len() <= zeros.len(),
        distinct(zeros),
        forall|j: int| 0 <= j < zeros.len() ==> eval(d, zeros[j]) == GF232(0),
    ensures
        forall|x: GF232| eval(d, x) == GF232(0),
    decreases zeros.len(),
{
    if d.len() == 0 {
    } else {
        let r = zeros.last();
        let rest = zeros.drop_last();
        let e = deflated(d, r);
        lemma_deflated_len(d, r);
        assert forall|j: int| 0 <= j < rest.len() implies eval(e, rest[j]) == GF232(0) by {
            let x = rest[j];
            assert(x == zeros[j]);
            lemma_factor(d, r, x);
            lemma_ring(x, r, r);
            lemma_ring(x.add_spec(r).mul_spec(eval(e, x)), x, x);
            lemma_gf_no_zero_divisors(x.add_spec(r).0, eval(e, x).0);
        }
        lemma_zeros(e, rest);
        assert forall|x: GF232| eval(d, x) == GF232(0) by {
            lemma_factor(d, r, x);
            lemma_ring(x.add_spec(r), x, x);
            lemma_ring(GF232(0), x, x);
        }
    }
}

/// Two polynomials of degree below `m` with the same values at `m` distinct points
/// have the same value everywhere.
pub proof fn lemma_agree(p: Seq<GF232>, q: Seq<GF232>, points: Seq<GF232>)
    requires
        p.len() <= points.len(),
        q.len() <= points.len(),
        distinct(points),
        forall|j: int| 0 <= j < points.len() ==> eval(p, points[j]) == eval(q, points[j]),
    ensures
        forall|x: GF232| eval(p, x) == eval(q, x),
{
    let d = poly_sum(p, q);
    lemma_sum_len(p, q);
    assert forall|j: int| 0 <= j < points.len() implies eval(d, points[j]) == GF232(0) by {
        lemma_eval_sum(p, q, points[j]);
        lemma_ring(eval(p, points[j]), eval(q, points[j]), points[j]);
    }
    lemma_zeros(d, points);
    assert forall|x: GF232| eval(p, x) == eval(q, x) by {
        lemma_eval_sum(p, q, x);
        lemma_ring(eval(p, x), eval(q, x), x);
    }
}

} // verus!

//! Lagrange interpolation over GF(2^32): the polynomial of lowest degree through given
//! points.
use vstd::prelude::*;
use crate::coefficients::{
    divided, eval, gf_pow, lemma_span_le_len, lemma_trim, poly_sum, product, scaled, trim,
};
use crate::evaluation::{
    lemma_eval_divided, lemma_eval_product, lemma_eval_scaled, lemma_eval_sum, lemma_eval_trim,
    lemma_product_len, lemma_ring, lemma_scaled_len, lemma_sum_len,
};
use crate::field::{gf_inv, lemma_gf_div_cancel, lemma_gf_mul_one_zero};
use crate::gf232::GF232;
use crate::roots::{distinct, lemma_agree};
use vstd::std_specs::ops::AddSpec;

verus! {

/// The field element at which a point lies: the one whose 32 bits are the point's
/// index.
pub open spec fn node(point: (usize, GF232)) -> GF232 {
    GF232(point.0 as u32)
}

/// The field elements at which the points lie.
pub open spec fn nodes(points: Seq<(usize, GF232)>) -> Seq<GF232> {
    Seq::new(points.len(), |i: int| node(points[i]))
}

/// Whether every index fits in 32 bits and no two points lie at the same field
/// element.
pub open spec fn distinct_nodes(points: Seq<(usize, GF232)>) -> bool {
    &&& forall|i: int| 0 <= i < points.len() ==> points[i].0 <= u32::MAX
    &&& distinct(nodes(points))
}

/// The polynomial `x + l`.
pub open spec fn linear(l: GF232) -> Seq<GF232> {
    poly_sum(seq![GF232(0), GF232(1)], seq![l])
}

/// The product, over those of the first `n` points that differ from point `j`, of
/// `(x + x_l) / (x_j + x_l)`, where `x_l` is the node of point `l`.
pub open spec fn basis_upto(points: Seq<(usize, GF232)>, j: int, n: nat) -> Seq<GF232>
    decreases n,
{
    if n == 0 {
        trim(seq![GF232(1)])
    } else {
        let before = basis_upto(points, j, (n - 1) as nat);
        if points[n - 1] == points[j] {
            before
        } else {
            divided(
                product(before, linear(node(points[n - 1]))),
                node(points[j]).add_spec(node(points[n - 1])),
            )
        }
    }
}

/// The Lagrange basis polynomial of point `j`: it is 1 at the node of point `j` and 0
/// at the nodes of the other points.
pub open spec fn basis(points: Seq<(usize, GF232)>, j: int) -> Seq<GF232> {
    basis_upto(points, j, points.len())
}

/// The sum, over the first `m` points, of the point's value times its basis
/// polynomial.
pub open spec fn interpolation_upto(points: Seq<(usize, GF232)>, m: nat) -> Seq<GF232>
    decreases m,
{
    if m == 0 {
        Seq::empty()
    } else {
        poly_sum(
            interpolation_upto(points, (m - 1) as nat),
            scaled(basis(points, m - 1), points[m - 1].1),
        )
    }
}

/// The polynomial through the points, by Lagrange's formula.
pub open spec fn interpolation(points: Seq<(usize, GF232)>) -> Seq<GF232> {
    interpolation_upto(points, points.len())
}

/// The value of `x + l` at `x`.
pub proof fn lemma_eval_linear(l: GF232, x: GF232)
    ensures
        eval(linear(l), x) == x.add_spec(l),
        linear(l).len() <= 2,
{
    let p = seq![GF232(0), GF232(1)];
    let q = seq![l];
    lemma_eval_sum(p, q, x);
    lemma_sum_len(p, q);
    lemma_ring(l, x, x);
    lemma_ring(x, l, l);
    lemma_ring(GF232(0), x, l);
    assert(eval(q.drop_last(), x) == GF232(0));
    assert(gf_pow(x, 0) == GF232(1));
    assert(eval(q, x) == l);
    assert(p.drop_last() =~= seq![GF232(0)]);
    assert(eval(p.drop_last().drop_last(), x) == GF232(0));
    assert(eval(p.drop_last(), x) == GF232(0));
    assert(gf_pow(x, 1) == x);
    assert(eval(p, x) == x);
}

/// Two points are equal exactly when they are the same point, where no two lie at
/// the same node; and the sum of the nodes of two different points is not zero.
pub proof fn lemma_points_differ(points: Seq<(usize, GF232)>, i: int, j: int)
    requires
        distinct_nodes(points),
        0 <= i < points.len(),
        0 <= j < points.len(),
    ensures
        points[i] == points[j] <==> i == j,
        i != j ==> node(points[i]).add_spec(node(points[j])).0 != 0,
{
    let s = nodes(points);
    assert(s[i] == node(points[i]) && s[j] == node(points[j]));
    lemma_ring(node(points[i]), node(points[j]), GF232(0));
}

/// The basis polynomial of point `j` is zero at the node of another point, once the
/// factor of that point is in the product.
pub proof fn lemma_basis_zero(points: Seq<(usize, GF232)>, j: int, n: nat, i: int)
    requires
        distinct_nodes(points),
        0 <= j < points.len(),
        0 <= i < n <= points.len(),
        i != j,
    ensures
        eval(basis_upto(points, j, n), node(points[i])) == GF232(0),
    decreases n,
{
    let x = node(points[i]);
    let l = node(points[n - 1]);
    let before = basis_upto(points, j, (n - 1) as nat);
    let c = node(points[j]).add_spec(l);
    lemma_points_differ(points, n - 1, j);
    if i < n - 1 {
        lemma_basis_zero(points, j, (n - 1) as nat, i);
    }
    if n - 1 != j {
        lemma_eval_divided(product(before, linear(l)), c, x);
        lemma_eval_product(before, linear(l), x);
        lemma_eval_linear(l, x);
        lemma_ring(x, x, x);
        lemma_ring(eval(before, x), x, x);
        lemma_ring(x.add_spec(l), x, x);
        lemma_gf_mul_one_zero(gf_inv(c.0));
    }
}

/// The basis polynomial of point `j` is one at the node of point `j`.
pub proof fn lemma_basis_one(points: Seq<(usize, GF232)>, j: int, n: nat)
    requires
        distinct_nodes(points),
        0 <= j < points.len(),
        n <= points.len(),
    ensures
        eval(basis_upto(points, j, n), node(points[j])) == GF232(1),
    decreases n,
{
    let x = node(points[j]);
    if n == 0 {
        lemma_eval_trim(seq![GF232(1)], x);
        let q = seq![GF232(1)];
        assert(eval(q.drop_last(), x) == GF232(0));
        assert(gf_pow(x, 0) == GF232(1));
        lemma_ring(GF232(1), x, x);
    } else {
        let l = node(points[n - 1]);
        let before = basis_upto(points, j, (n - 1) as nat);
        let c = x.add_spec(l);
        lemma_basis_one(points, j, (n - 1) as nat);
        lemma_points_differ(points, j, n - 1);
        if n - 1 != j {
            lemma_eval_divided(product(before, linear(l)), c, x);
            lemma_eval_product(before, linear(l), x);
            lemma_eval_linear(l, x);
            lemma_ring(c, x, x);
            lemma_gf_div_cancel(c.0, c.0);
        }
    }
}

/// The length of the basis polynomial is at most one more than the number of its
/// factors.
pub proof fn lemma_basis_len(points: Seq<(usize, GF232)>, j: int, n: nat)
    requires
        distinct_nodes(points),
        0 <= j < points.len(),
        n <= points.len(),
    ensures
        basis_upto(points, j, n).len() <= if j < n {
            n
        } else {
            n + 1
        },
    decreases n,
{
    if n == 0 {
        lemma_trim(seq![GF232(1)]);
        lemma_span_le_len(seq![GF232(1)]);
    } else {
        let l = node(points[n - 1]);
        let before = basis_upto(points, j, (n - 1) as nat);
        let c = node(points[j]).add_spec(l);
        lemma_basis_len(points, j, (n - 1) as nat);
        lemma_points_differ(points, n - 1, j);
        if n - 1 != j {
            lemma_product_len(before, linear(l));
            lemma_eval_linear(l, l);
            lemma_scaled_len(product(before, linear(l)), c);
        }
    }
}

/// The value of the partial sum of Lagrange's formula at the node of a point.
pub proof fn lemma_interpolation_upto(points: Seq<(usize, GF232)>, m: nat, i: int)
    requires
        distinct_nodes(points),
        m <= points.len(),
        0 <= i < points.len(),
    ensures
        eval(interpolation_upto(points, m), node(points[i])) == if i < m {
            points[i].1
        } else {
            GF232(0)
        },
        interpolation_upto(points, m).len() <= points.len(),
    decreases m,
{
    let x = node(points[i]);
    if m > 0 {
        let before = interpolation_upto(points, (m - 1) as nat);
        let b = basis(points, m - 1);
        let y = points[m - 1].1;
        lemma_interpolation_upto(points, (m - 1) as nat, i);
        lemma_eval_sum(before, scaled(b, y), x);
        lemma_eval_scaled(b, y, x);
        lemma_sum_len(before, scaled(b, y));
        lemma_scaled_len(b, y);
        lemma_basis_len(points, m - 1, points.len());
        if i == m - 1 {
            lemma_basis_one(points, i, points.len());
        } else {
            lemma_basis_zero(points, m - 1, points.len(), i);
        }
        lemma_ring(y, x, x);
        lemma_ring(eval(before, x), x, x);
    }
}

/// The polynomial that Lagrange's formula gives has as many coefficients as there are
/// points, at most, and at the node of each point it has the point's value.
pub proof fn lemma_interpolation(points: Seq<(usize, GF232)>)
    requires
        distinct_nodes(points),
    ensures
        interpolation(points).len() <= points.len(),
        forall|i: int|
            0 <= i < points.len() ==> eval(interpolation(points), #[trigger] node(points[i]))
                == points[i].1,
{
    assert forall|i: int| 0 <= i < points.len() implies eval(
        interpolation(points),
        #[trigger] node(points[i]),
    ) == points[i].1 by {
        lemma_interpolation_upto(points, points.len(), i);
    }
    if points.len() > 0 {
        lemma_interpolation_upto(points, points.len(), 0);
    }
}

/// A polynomial with as many coefficients as there are points, at most, that has at
/// the node of each point the point's value, has everywhere the value of the polynomial
/// that Lagrange's formula gives.
pub proof fn lemma_interpolation_unique(points: Seq<(usize, GF232)>, p: Seq<GF232>)
    requires
        distinct_nodes(points),
        p.len() <= points.len(),
        forall|i: int| 0 <= i < points.len() ==> eval(p, node(points[i])) == points[i].1,
    ensures
        forall|x: GF232| eval(p, x) == eval(interpolation(points), x),
{
    lemma_interpolation(points);
    let s = nodes(points);
    assert forall|j: int| 0 <= j < s.len() implies eval(p, s[j]) == eval(
        interpolation(points),
        s[j],
    ) by {
        assert(s[j] == node(points[j]));
    }
    lemma_agree(p, interpolation(points), s);
}

} // verus!

//! Division with remainder of polynomials over GF(2), on bit patterns.
use vstd::prelude::*;
use crate::bits::{
    clmul, deg, fits, lemma_clmul_deg_exact, lemma_clmul_distributes, lemma_clmul_zero_one,
    lemma_deg_range, lemma_deg_shift, lemma_fits_deg, lemma_mul_mod_add_left,
    lemma_mul_mod_commutes, lemma_mul_mod_one_right, lemma_mul_mod_zero_left, lemma_shift_facts,
    lemma_times_x_facts, lemma_xor_deg, lemma_xor_laws, mul_mod,
};

verus! {

/// The multiple of `d` that has the degree of `x`; `d` is not zero and its degree is
/// at most that of `x`.
pub open spec fn aligned(x: u64, d: u64) -> u64 {
    d << ((deg(x) - deg(d)) as u64)
}

/// The power of `x` by which `aligned` multiplies `d`.
pub open spec fn lead_term(x: u64, d: u64) -> u64 {
    1u64 << ((deg(x) - deg(d)) as u64)
}

/// The remainder of `x` on division by `d`, which is not zero: as long as the degree
/// of `x` is at least that of `d`, the multiple of `d` with the degree of `x` is
/// subtracted.
pub open spec fn poly_rem(x: u64, d: u64) -> u64
    decreases deg(x) + 1,
    when d != 0
    via poly_rem_decreases
{
    if deg(x) < deg(d) {
        x
    } else {
        poly_rem(x ^ aligned(x, d), d)
    }
}

/// The quotient of `x` on division by `d`, which is not zero: the sum of the powers of
/// `x` by which `d` is multiplied on the way to the remainder.
pub open spec fn poly_div(x: u64, d: u64) -> u64
    decreases deg(x) + 1,
    when d != 0
    via poly_div_decreases
{
    if deg(x) < deg(d) {
        0
    } else {
        lead_term(x, d) ^ poly_div(x ^ aligned(x, d), d)
    }
}

/// What the highest bit of a sum is, and that of a shifted word.
proof fn lemma_top_bits(x: u64, y: u64, d: u64, n: u64, k: u64)
    by (bit_vector)
    ensures
        k <= n < 64 && x >> n == 1 && d >> k == 1 ==> (x ^ (d << ((n - k) as u64))) >> n == 0,
        k <= n < 64 && d >> k == 1 ==> (d << ((n - k) as u64)) >> n == 1,
        n < 64 && x >> n == 1 && y >> n == 0 ==> (x ^ y) >> n == 1,
        n < 64 && x >> n == 1 && y >> n == 1 ==> (x ^ y) >> n == 0,
        n < 63 ==> (1u64 << n) >> ((n + 1) as u64) == 0,
        (1u64 << 63) >> 63 == 1,
{
}

/// Subtracting the aligned multiple of the divisor lowers the degree.
pub proof fn lemma_step_lowers_degree(x: u64, d: u64)
    requires
        d != 0,
        deg(x) >= deg(d),
    ensures
        deg(x ^ aligned(x, d)) < deg(x),
        deg(aligned(x, d)) == deg(x),
        fits(lead_term(x, d), (deg(x) - deg(d) + 1) as nat),
{
    lemma_deg_range(x);
    lemma_deg_range(d);
    let n = deg(x);
    let k = deg(d);
    lemma_deg_shift(x, n);
    lemma_deg_shift(d, k);
    lemma_top_bits(x, 0, d, n as u64, k as u64);
    lemma_deg_shift(x ^ aligned(x, d), n);
    lemma_deg_shift(aligned(x, d), n);
    lemma_top_bits(0, 0, 0, (n - k) as u64, 0);
}

#[via_fn]
proof fn poly_rem_decreases(x: u64, d: u64) {
    lemma_deg_range(x);
    if deg(x) >= deg(d) {
        lemma_step_lowers_degree(x, d);
        lemma_deg_range(x ^ aligned(x, d));
    }
}

#[via_fn]
proof fn poly_div_decreases(x: u64, d: u64) {
    lemma_deg_range(x);
    if deg(x) >= deg(d) {
        lemma_step_lowers_degree(x, d);
        lemma_deg_range(x ^ aligned(x, d));
    }
}

/// The product of `a` and a power of `x` is `a` shifted.
pub proof fn lemma_mul_monomial(a: u64, s: nat, steps: nat)
    requires
        s < steps <= 64,
    ensures
        mul_mod(0, a, 1u64 << (s as u64), steps) == a << (s as u64),
    decreases steps,
{
    let b = 1u64 << (s as u64);
    if s == 0 {
        assert(1u64 << 0 == 1) by (bit_vector);
        lemma_shift_facts(a, 0, 0);
        lemma_mul_mod_one_right(0, a, steps);
    } else {
        let s1 = (s - 1) as nat;
        let steps1 = (steps - 1) as nat;
        lemma_mul_monomial(a, s1, steps1);
        let sh = s as u64;
        assert(1 <= sh < 64 ==> (1u64 << sh) & 1 == 0 && (1u64 << sh) >> 1 == 1u64 << ((sh - 1) as u64)
            && (a << ((sh - 1) as u64)) << 1 == a << sh) by (bit_vector);
        lemma_times_x_facts(0, a << (s1 as u64), 0);
        lemma_xor_laws(a << sh, 0, 0, 0);
    }
}

/// Quotient and remainder give the dividend back, the remainder has a lower degree
/// than the divisor, and the quotient has the difference of the degrees of dividend and
/// divisor.
pub proof fn lemma_division(x: u64, d: u64)
    requires
        d != 0,
    ensures
        clmul(poly_div(x, d), d) ^ poly_rem(x, d) == x,
        deg(poly_rem(x, d)) < deg(d),
        deg(x) < deg(d) ==> poly_div(x, d) == 0 && poly_rem(x, d) == x,
        deg(x) >= deg(d) ==> deg(poly_div(x, d)) == deg(x) - deg(d),
    decreases deg(x) + 1,
{
    lemma_deg_range(x);
    lemma_deg_range(d);
    if deg(x) < deg(d) {
        lemma_mul_mod_zero_left(0, d, 64);
        lemma_xor_laws(x, 0, 0, 0);
    } else {
        let y = x ^ aligned(x, d);
        let s = (deg(x) - deg(d)) as nat;
        let t = lead_term(x, d);
        lemma_step_lowers_degree(x, d);
        lemma_deg_range(y);
        lemma_division(y, d);
        let q = poly_div(y, d);
        let r = poly_rem(y, d);
        lemma_mul_mod_add_left(0, t, q, d, 64);
        lemma_mul_monomial(d, s, 64);
        lemma_fits_deg(t, 64);
        lemma_fits_deg(d, 64);
        lemma_mul_mod_commutes(0, t, d, 64);
        assert(clmul(t, d) == aligned(x, d));
        lemma_xor_laws(aligned(x, d), clmul(q, d), r, 0);
        lemma_xor_laws(x, aligned(x, d), 0, 0);
        assert(clmul(t ^ q, d) ^ r == aligned(x, d) ^ y);
        lemma_xor_laws(aligned(x, d), y, 0, 0);
        assert(aligned(x, d) ^ y == x);
        // the degree of the quotient
        lemma_deg_shift(t, s as int);
        assert(t >> (s as u64) == 1) by {
            let sh = s as u64;
            assert(sh < 64 ==> (1u64 << sh) >> sh == 1) by (bit_vector);
        }
        lemma_deg_shift(q, s as int);
        lemma_deg_range(q);
        lemma_top_bits(t, q, 0, s as u64, 0);
        lemma_deg_shift(t ^ q, s as int);
    }
}


/// Quotient and remainder are the only polynomials that give the dividend back with a
/// remainder of lower degree than the divisor, where the product with the quotient is
/// not cut off.
pub proof fn lemma_division_unique(x: u64, d: u64, q: u64, r: u64)
    requires
        d != 0,
        clmul(q, d) ^ r == x,
        deg(r) < deg(d),
        deg(q) + deg(d) <= 63,
    ensures
        q == poly_div(x, d),
        r == poly_rem(x, d),
{
    let q1 = poly_div(x, d);
    let r1 = poly_rem(x, d);
    let e = q ^ q1;
    lemma_division(x, d);
    lemma_deg_range(x);
    lemma_deg_range(d);
    lemma_deg_range(q);
    lemma_deg_range(q1);
    lemma_deg_range(e);
    lemma_clmul_distributes(q, q1, d);
    // the product of `e` and `d` is the difference of the remainders
    lemma_xor_laws(clmul(q, d), r, x, 0);
    lemma_xor_laws(clmul(q1, d), r1, x, 0);
    lemma_xor_laws(x, r, x, r1);
    lemma_xor_laws(x, x, r, r1);
    lemma_xor_laws(r ^ r1, 0, 0, 0);
    assert(clmul(e, d) == r ^ r1);
    lemma_xor_deg(r, r1, deg(d) - 1);
    if e != 0 {
        lemma_xor_deg(q, q1, 63 - deg(d));
        lemma_clmul_deg_exact(e, d);
    }
    lemma_xor_laws(q, q1, 0, 0);
    lemma_xor_laws(r, r1, 0, 0);
    lemma_clmul_zero_one(d);
}

} // verus!

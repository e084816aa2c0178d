//! The field GF(2^32): polynomials over GF(2) modulo `x^32 + x^7 + x^3 + x^2 + 1`.
use vstd::prelude::*;
use crate::bits::{
    clmul, deg, fits, lemma_clmul_assoc, lemma_clmul_commutes, lemma_clmul_deg,
    lemma_clmul_distributes, lemma_clmul_zero_one, lemma_deg_range, lemma_deg_shift, lemma_fits_deg,
    lemma_fits_facts, lemma_mul_mod_add_right, lemma_mul_mod_commutes, lemma_mul_mod_exchange,
    lemma_mul_mod_fits, lemma_mul_mod_more_steps, lemma_mul_mod_one_right, lemma_mul_mod_zero_left,
    lemma_mul_mod_zero_right, lemma_pick_facts, lemma_shift_facts, lemma_times_x_facts,
    lemma_xor_deg, lemma_xor_laws, mul_mod, pick, times_x,
};
use crate::division::{aligned, lemma_division, lemma_step_lowers_degree, poly_div, poly_rem};

verus! {

/// The modulus of the field: `x^32 + x^7 + x^3 + x^2 + 1`, which has no factor of
/// lower degree but 1.
pub const IRR232: u64 = 0x1_0000_008D;

/// The product of two field elements: the product of the polynomials, reduced modulo
/// the field's modulus.
pub open spec fn gf_mul(a: u32, b: u32) -> u32 {
    poly_rem(clmul(a as u64, b as u64), IRR232) as u32
}

/// Facts about the highest bits of words, for the reduction modulo a polynomial of
/// degree 32.
proof fn lemma_reduction_bits(x: u64, y: u64, m: u64, n: u64)
    by (bit_vector)
    ensures
        n < 64 && x >> n == 1 && y >> n == 0 ==> (x ^ y) >> n == 1,
        n < 63 && x >> n == 1 ==> (x << 1) >> ((n + 1) as u64) == 1,
        x >> 31 == 1 && m >> 32 == 1 ==> times_x(m, x) == (x << 1) ^ m && ((x << 1) ^ m) >> 32
            == 0 && m << 0 == m,
        32 <= n < 63 ==> (x << 1) ^ (m << ((n + 1 - 32) as u64)) == (x ^ (m << ((n - 32) as u64)))
            << 1,
        x >> 32 == 0 ==> x as u32 == x,
        0x1_0000_008Du64 >> 32 == 1,
{
}

/// The remainder of a sum is the sum of the remainders.
pub proof fn lemma_rem_add(x: u64, y: u64, d: u64)
    requires
        d != 0,
    ensures
        poly_rem(x ^ y, d) == poly_rem(x, d) ^ poly_rem(y, d),
    decreases deg(x) + deg(y) + 2,
{
    lemma_deg_range(x);
    lemma_deg_range(y);
    lemma_deg_range(d);
    lemma_deg_range(x ^ y);
    let n = deg(x);
    let l = deg(y);
    let k = deg(d);
    if n < k && l < k {
        lemma_fits_deg(x, k as nat);
        lemma_fits_deg(y, k as nat);
        lemma_fits_facts(x, y, k as u64, 0);
        lemma_fits_deg(x ^ y, k as nat);
    } else if n > l {
        let a = aligned(x, d);
        lemma_deg_shift(x, n);
        lemma_deg_shift(y, n);
        lemma_reduction_bits(x, y, 0, n as u64);
        lemma_deg_shift(x ^ y, n);
        lemma_step_lowers_degree(x, d);
        lemma_deg_range(x ^ a);
        lemma_rem_add(x ^ a, y, d);
        lemma_xor_laws(x, y, a, 0);
        lemma_xor_laws(a, 0, 0, 0);
        lemma_xor_laws(y, 0, 0, 0);
        assert((x ^ y) ^ a == (x ^ a) ^ y);
    } else if l > n {
        let a = aligned(y, d);
        lemma_deg_shift(y, l);
        lemma_deg_shift(x, l);
        lemma_reduction_bits(y, x, 0, l as u64);
        lemma_xor_laws(x, y, 0, 0);
        lemma_deg_shift(x ^ y, l);
        lemma_step_lowers_degree(y, d);
        lemma_deg_range(y ^ a);
        lemma_rem_add(x, y ^ a, d);
        lemma_xor_laws(x, y, a, 0);
        assert((x ^ y) ^ a == x ^ (y ^ a));
    } else {
        let a = aligned(x, d);
        lemma_step_lowers_degree(x, d);
        lemma_step_lowers_degree(y, d);
        lemma_deg_range(x ^ a);
        lemma_deg_range(y ^ a);
        lemma_rem_add(x ^ a, y ^ a, d);
        lemma_xor_laws(x, a, y, a);
        lemma_xor_laws(a, 0, 0, 0);
        lemma_xor_laws(x ^ y, 0, 0, 0);
        assert((x ^ a) ^ (y ^ a) == x ^ y);
    }
}

/// Modulo a polynomial of degree 32, the remainder of `x` times a polynomial is the
/// remainder of that polynomial multiplied by `x` and reduced once.
pub proof fn lemma_rem_times_x(x: u64, m: u64)
    requires
        deg(m) == 32,
        x >> 63 == 0,
    ensures
        poly_rem(x << 1, m) == times_x(m, poly_rem(x, m)),
    decreases deg(x) + 1,
{
    lemma_deg_range(x);
    lemma_deg_range(m);
    lemma_deg_shift(m, 32);
    lemma_deg_shift(x, 63);
    let n = deg(x);
    if n < 31 {
        lemma_deg_shift(x, 31);
        lemma_times_x_facts(m, x, 0);
        lemma_fits_facts(x, 0, 31, 0);
        lemma_deg_shift(x << 1, 32);
    } else if n == 31 {
        lemma_deg_shift(x, 31);
        lemma_reduction_bits(x, 0, m, 31);
        lemma_deg_shift(x << 1, 32);
        lemma_deg_shift((x << 1) ^ m, 32);
        assert(aligned(x << 1, m) == m);
        assert(poly_rem((x << 1) ^ m, m) == (x << 1) ^ m);
        assert(poly_rem(x << 1, m) == poly_rem((x << 1) ^ m, m));
    } else {
        let a = aligned(x, m);
        let y = x ^ a;
        lemma_deg_shift(x, n);
        lemma_reduction_bits(x, 0, m, n as u64);
        lemma_deg_shift(x << 1, n + 1);
        lemma_step_lowers_degree(x, m);
        lemma_deg_range(y);
        lemma_deg_shift(y, 63);
        lemma_rem_times_x(y, m);
        assert((x << 1) ^ aligned(x << 1, m) == y << 1);
        assert(poly_rem(x << 1, m) == poly_rem(y << 1, m));
        assert(poly_rem(x, m) == poly_rem(y, m));
    }
}

/// The remainder of a product modulo a polynomial of degree 32 is the product modulo
/// that polynomial, where the degrees of the factors add up to at most 63.
pub proof fn lemma_rem_mul(a: u64, i: nat, b: u64, steps: nat, m: u64)
    requires
        deg(m) == 32,
        fits(a, i),
        fits(b, steps),
        i + steps <= 65,
    ensures
        poly_rem(mul_mod(0, a, b, steps), m) == mul_mod(m, poly_rem(a, m), b, steps),
    decreases steps,
{
    lemma_deg_range(m);
    lemma_deg_range(0);
    if steps > 0 {
        let s1 = (steps - 1) as nat;
        let t = mul_mod(0, a, b >> 1, s1);
        lemma_fits_facts(b, 0, steps as u64, 0);
        lemma_shift_facts(b, 0, steps as u64);
        lemma_rem_mul(a, i, b >> 1, s1, m);
        assert(t >> 63 == 0) by {
            if s1 == 0 {
                lemma_shift_facts(0, 0, 63);
            } else {
                lemma_mul_mod_fits(a, i, b >> 1, s1);
                lemma_fits_facts(t, 0, (i + s1 - 1) as u64, 63);
            }
        }
        lemma_times_x_facts(0, t, 0);
        lemma_rem_times_x(t, m);
        lemma_rem_add(pick(b, a), t << 1, m);
        lemma_pick_facts(m, b, 0, a, 0);
    }
}

/// The product of two field elements is their product in the ring of polynomials
/// modulo the field's modulus, and has degree below 32.
pub proof fn lemma_gf_mul_ring(a: u32, b: u32)
    ensures
        gf_mul(a, b) == mul_mod(IRR232, a as u64, b as u64, 32),
        fits(mul_mod(IRR232, a as u64, b as u64, 32), 32),
{
    let m = IRR232;
    lemma_reduction_bits(0, 0, 0, 0);
    lemma_deg_shift(m, 32);
    assert(fits(a as u64, 32) && fits(b as u64, 32)) by {
        let x = a as u64;
        let y = b as u64;
        assert(x <= 0xffff_ffff && y <= 0xffff_ffff ==> x >> 32 == 0 && y >> 32 == 0)
            by (bit_vector);
    }
    lemma_mul_mod_more_steps(0, a as u64, b as u64, 32, 32);
    lemma_rem_mul(a as u64, 32, b as u64, 32, m);
    lemma_fits_deg(a as u64, 32);
    assert(poly_rem(a as u64, m) == a as u64);
    let p = clmul(a as u64, b as u64);
    lemma_division(p, m);
    lemma_fits_deg(poly_rem(p, m), 32);
    lemma_reduction_bits(poly_rem(p, m), 0, 0, 0);
}

/// The inverse of a field element that is not zero: the element whose product with it
/// is one.
pub open spec fn gf_inv(a: u32) -> u32 {
    choose|b: u32| gf_mul(a, b) == 1
}

/// The quotient of two field elements, the second of which is not zero.
pub open spec fn gf_div(a: u32, b: u32) -> u32 {
    gf_mul(a, gf_inv(b))
}

/// The product in the field does not depend on the order of its factors.
pub proof fn lemma_gf_mul_commutes(a: u32, b: u32)
    ensures
        gf_mul(a, b) == gf_mul(b, a),
{
    lemma_gf_mul_ring(a, b);
    lemma_gf_mul_ring(b, a);
    lemma_gf_mul_ring(a, 1);
    lemma_gf_mul_ring(b, 1);
    lemma_mul_mod_one_right(IRR232, a as u64, 32);
    lemma_mul_mod_one_right(IRR232, b as u64, 32);
    lemma_mul_mod_commutes(IRR232, a as u64, b as u64, 32);
}

/// The product of three field elements does not depend on how they are grouped.
pub proof fn lemma_gf_mul_assoc(a: u32, b: u32, c: u32)
    ensures
        gf_mul(gf_mul(a, b), c) == gf_mul(a, gf_mul(b, c)),
{
    let m = IRR232;
    lemma_gf_mul_ring(a, b);
    lemma_gf_mul_ring(gf_mul(a, b), c);
    lemma_gf_mul_ring(b, c);
    lemma_gf_mul_ring(a, gf_mul(b, c));
    lemma_gf_mul_commutes(a, gf_mul(b, c));
    lemma_gf_mul_ring(gf_mul(b, c), a);
    lemma_mul_mod_exchange(m, b as u64, a as u64, 32, c as u64, 32);
    lemma_gf_mul_commutes(b, a);
    lemma_gf_mul_ring(b, a);
    lemma_gf_mul_ring(gf_mul(b, a), c);
}

/// The product in the field distributes over the sum.
pub proof fn lemma_gf_mul_distributes(a: u32, b: u32, c: u32)
    ensures
        gf_mul(a, b ^ c) == gf_mul(a, b) ^ gf_mul(a, c),
        gf_mul(b ^ c, a) == gf_mul(b, a) ^ gf_mul(c, a),
{
    lemma_gf_mul_ring(a, b);
    lemma_gf_mul_ring(a, c);
    lemma_gf_mul_ring(a, b ^ c);
    lemma_mul_mod_add_right(IRR232, a as u64, b as u64, c as u64, 32);
    lemma_gf_mul_commutes(a, b);
    lemma_gf_mul_commutes(a, c);
    lemma_gf_mul_commutes(a, b ^ c);
    let x = gf_mul(a, b);
    let y = gf_mul(a, c);
    assert((x ^ y) as u64 == (x as u64) ^ (y as u64)) by (bit_vector);
    assert((b ^ c) as u64 == (b as u64) ^ (c as u64)) by (bit_vector);
}

/// One is the unit of the product in the field, and a product with zero is zero.
pub proof fn lemma_gf_mul_one_zero(a: u32)
    ensures
        gf_mul(a, 1) == a,
        gf_mul(1, a) == a,
        gf_mul(a, 0) == 0,
        gf_mul(0, a) == 0,
{
    lemma_gf_mul_ring(a, 1);
    lemma_gf_mul_ring(a, 0);
    lemma_mul_mod_one_right(IRR232, a as u64, 32);
    lemma_mul_mod_zero_right(IRR232, a as u64, 32);
    lemma_gf_mul_commutes(a, 1);
    lemma_gf_mul_commutes(a, 0);
}

/// A field element has at most one inverse.
pub proof fn lemma_gf_inverse_unique(a: u32, b: u32)
    requires
        gf_mul(a, b) == 1,
    ensures
        b == gf_inv(a),
{
    let c = gf_inv(a);
    assert(gf_mul(a, c) == 1);
    lemma_gf_mul_one_zero(b);
    lemma_gf_mul_one_zero(c);
    lemma_gf_mul_assoc(b, a, c);
    lemma_gf_mul_commutes(b, a);
}

/// No product of a polynomial of degree at most 16 and one of degree at most 31 is
/// the field's modulus.
proof fn lemma_no_factor(g: u64, h: u64)
    by (bit_vector)
    requires
        g < 0x2_0000,
        h < 0x1_0000_0000,
    ensures
        mul_mod(0, h, g, 17) != 0x1_0000_008Du64,
{
}

/// The field's modulus is irreducible: where it is the product of two polynomials,
/// the one of degree below 32 is 1.
pub proof fn lemma_irreducible(g: u64, h: u64)
    requires
        clmul(g, h) == IRR232,
        deg(g) <= 31,
        deg(g) + deg(h) <= 32,
    ensures
        g == 1,
{
    lemma_clmul_zero_one(g);
    lemma_clmul_zero_one(h);
    lemma_clmul_commutes(g, h);
    lemma_deg_range(g);
    lemma_deg_range(h);
    lemma_deg_shift(g, 0);
    lemma_shift_facts(g, 0, 0);
    if deg(g) >= 1 {
        lemma_fits_deg(g, 32);
        lemma_fits_deg(h, 32);
        assert(g >> 32 == 0 ==> g < 0x1_0000_0000) by (bit_vector);
        assert(h >> 32 == 0 ==> h < 0x1_0000_0000) by (bit_vector);
        if deg(g) <= 16 {
            lemma_fits_deg(g, 17);
            assert(g >> 17 == 0 ==> g < 0x2_0000) by (bit_vector);
            lemma_mul_mod_more_steps(0, h, g, 17, 47);
            lemma_no_factor(g, h);
        } else {
            lemma_fits_deg(h, 17);
            assert(h >> 17 == 0 ==> h < 0x2_0000) by (bit_vector);
            lemma_mul_mod_more_steps(0, g, h, 17, 47);
            lemma_no_factor(h, g);
        }
    }
}

/// The last cofactor of the extended Euclidean algorithm, run on a pair of remainders
/// `c`, `d` and the pair `n1`, `n` of cofactors of the element to invert that go with
/// them.
pub open spec fn euclid(c: u64, d: u64, n1: u64, n: u64) -> u64
    decreases deg(d) + 1,
    when d != 0
    via euclid_decreases
{
    let q = poly_div(c, d);
    let r = poly_rem(c, d);
    if r == 0 {
        n
    } else {
        euclid(d, r, n, n1 ^ clmul(q, n))
    }
}

#[via_fn]
proof fn euclid_decreases(c: u64, d: u64, n1: u64, n: u64) {
    lemma_division(c, d);
    lemma_deg_range(poly_rem(c, d));
}

/// Whether `p` is zero or the degrees of `p` and `c` add up to at most 32.
pub open spec fn small(p: u64, c: u64) -> bool {
    p == 0 || deg(p) + deg(c) <= 32
}

/// What holds of the algorithm's state for the element `a`: `c` and `d` are
/// combinations of `a` and the modulus with cofactors `n1`, `m1` and `n`, `m`, the
/// modulus is a combination of `c` and `d` with cofactors `u` and `v`, and all
/// cofactors are of low degree.
pub open spec fn euclid_state(
    a: u64,
    c: u64,
    d: u64,
    n1: u64,
    n: u64,
    m1: u64,
    m: u64,
    u: u64,
    v: u64,
) -> bool {
    &&& d != 0
    &&& deg(d) < deg(c) <= 32
    &&& clmul(a, n1) ^ clmul(IRR232, m1) == c
    &&& clmul(a, n) ^ clmul(IRR232, m) == d
    &&& clmul(u, c) ^ clmul(v, d) == IRR232
    &&& small(n1, c) && small(n, c)
    &&& small(m1, c) && small(m, c)
    &&& small(u, c) && small(v, c)
}

/// A cofactor of the next step of the algorithm, multiplied out.
proof fn lemma_combination_step(a: u64, x1: u64, x: u64, q: u64)
    ensures
        clmul(a, x1 ^ clmul(q, x)) == clmul(a, x1) ^ clmul(q, clmul(a, x)),
{
    lemma_clmul_distributes(a, x1, clmul(q, x));
    lemma_clmul_assoc(a, q, x);
    lemma_clmul_commutes(a, q);
    lemma_clmul_assoc(q, a, x);
}

/// The cofactors of the next step of the algorithm are of low degree.
proof fn lemma_small_step(p1: u64, p: u64, q: u64, c: u64, d: u64)
    requires
        small(p1, c),
        small(p, c),
        d != 0,
        deg(d) < deg(c) <= 32,
        deg(q) == deg(c) - deg(d),
    ensures
        small(p1 ^ clmul(q, p), d),
        small(p, d),
        deg(p1 ^ clmul(q, p)) <= 32 - deg(d),
{
    lemma_deg_range(p1);
    lemma_deg_range(p);
    lemma_deg_range(q);
    lemma_deg_range(d);
    lemma_deg_range(c);
    lemma_clmul_zero_one(q);
    if p != 0 {
        lemma_clmul_deg(q, p);
    }
    lemma_deg_range(clmul(q, p));
    lemma_xor_deg(p1, clmul(q, p), 32 - deg(d));
}

/// From a state of the algorithm, its last cofactor is the inverse of `a` in the
/// field.
pub proof fn lemma_euclid(
    a: u64,
    c: u64,
    d: u64,
    n1: u64,
    n: u64,
    m1: u64,
    m: u64,
    u: u64,
    v: u64,
)
    requires
        euclid_state(a, c, d, n1, n, m1, m, u, v),
    ensures
        fits(euclid(c, d, n1, n), 32),
        poly_rem(clmul(a, euclid(c, d, n1, n)), IRR232) == 1,
    decreases deg(d) + 1,
{
    let f = IRR232;
    let q = poly_div(c, d);
    let r = poly_rem(c, d);
    lemma_division(c, d);
    lemma_deg_range(r);
    lemma_deg_range(d);
    lemma_deg_range(c);
    lemma_xor_laws(clmul(q, d), r, c, 0);
    lemma_xor_laws(r, clmul(q, d), c, 0);
    assert(r == c ^ clmul(q, d));
    let n2 = n1 ^ clmul(q, n);
    let m2 = m1 ^ clmul(q, m);
    let u2 = v ^ clmul(q, u);
    lemma_small_step(n1, n, q, c, d);
    lemma_small_step(m1, m, q, c, d);
    lemma_small_step(v, u, q, c, d);
    // the modulus as a combination of `d` and `r`
    assert(clmul(u2, d) ^ clmul(u, r) == f) by {
        lemma_clmul_distributes(v, clmul(q, u), d);
        lemma_clmul_commutes(q, u);
        lemma_clmul_assoc(u, q, d);
        lemma_clmul_distributes(u, clmul(q, d), r);
        lemma_xor_laws(clmul(q, d), r, 0, 0);
        let x = clmul(u, clmul(q, d));
        lemma_xor_laws(clmul(v, d), x, clmul(u, r), 0);
        lemma_xor_laws(clmul(v, d), x, 0, 0);
        lemma_xor_laws(x, clmul(v, d), clmul(u, r), 0);
        lemma_xor_laws(x, clmul(u, r), clmul(v, d), 0);
        lemma_xor_laws(clmul(u, r), clmul(v, d), 0, 0);
        assert(clmul(u, c) == x ^ clmul(u, r));
    }
    if r == 0 {
        lemma_clmul_zero_one(u);
        lemma_xor_laws(clmul(u2, d), 0, 0, 0);
        lemma_clmul_commutes(u2, d);
        lemma_deg_range(u2);
        lemma_irreducible(d, u2);
        // `a * n` is one more than a multiple of the modulus
        lemma_fits_deg(n, 32);
        lemma_fits_deg(m, 32);
        lemma_deg_range(n);
        lemma_deg_range(m);
        lemma_xor_laws(clmul(a, n), clmul(f, m), 1, 0);
        lemma_xor_laws(1, clmul(f, m), 0, 0);
        lemma_rem_add(1, clmul(f, m), f);
        lemma_reduction_bits(0, 0, 0, 0);
        lemma_deg_shift(f, 32);
        lemma_deg_shift(1, 0);
        lemma_shift_facts(1, 0, 0);
        assert(poly_rem(1, f) == 1);
        lemma_fits_deg(f, 33);
        lemma_mul_mod_more_steps(0, f, m, 32, 32);
        lemma_rem_mul(f, 33, m, 32, f);
        assert(poly_rem(f, f) == 0) by {
            lemma_shift_facts(f, 0, 0);
            lemma_xor_laws(f, 0, 0, 0);
            assert(aligned(f, f) == f);
            lemma_deg_range(0);
            assert(poly_rem(0, f) == 0);
            assert(poly_rem(f, f) == poly_rem(f ^ f, f));
        }
        lemma_mul_mod_zero_left(f, m, 32);
        lemma_xor_laws(1, 0, 0, 0);
    } else {
        assert(clmul(a, n2) ^ clmul(f, m2) == r) by {
            lemma_combination_step(a, n1, n, q);
            lemma_combination_step(f, m1, m, q);
            lemma_clmul_distributes(q, clmul(a, n), clmul(f, m));
            lemma_xor_laws(clmul(a, n1), clmul(q, clmul(a, n)), clmul(f, m1), clmul(q, clmul(f, m)));
        }
        lemma_euclid(a, d, r, n, n2, m, m2, u2, u);
    }
}

/// Every field element but zero has an inverse: its product with the inverse is one.
pub proof fn lemma_gf_inverse(a: u32)
    requires
        a != 0,
    ensures
        gf_mul(a, gf_inv(a)) == 1,
        gf_mul(gf_inv(a), a) == 1,
        gf_inv(a) == euclid(IRR232, a as u64, 0, 1),
{
    let f = IRR232;
    let x = a as u64;
    lemma_reduction_bits(0, 0, 0, 0);
    lemma_deg_shift(f, 32);
    lemma_deg_range(x);
    assert(x <= 0xffff_ffff ==> x >> 32 == 0) by (bit_vector);
    lemma_deg_shift(x, 32);
    lemma_clmul_zero_one(x);
    lemma_clmul_zero_one(f);
    lemma_xor_laws(x, f, 0, 0);
    lemma_xor_laws(f, 0, 0, 0);
    lemma_deg_shift(1, 0);
    lemma_shift_facts(1, 0, 0);
    lemma_euclid(x, f, x, 0, 1, 1, 0, 1, 0);
    let n = euclid(f, x, 0, 1);
    lemma_reduction_bits(n, 0, 0, 0);
    let b = n as u32;
    assert(gf_mul(a, b) == 1);
    lemma_gf_mul_commutes(a, gf_inv(a));
    lemma_gf_inverse_unique(a, b);
}

/// The product of two field elements that are not zero is not zero.
pub proof fn lemma_gf_no_zero_divisors(a: u32, b: u32)
    requires
        gf_mul(a, b) == 0,
    ensures
        a == 0 || b == 0,
{
    if a != 0 {
        lemma_gf_inverse(a);
        lemma_gf_mul_assoc(gf_inv(a), a, b);
        lemma_gf_mul_one_zero(b);
        lemma_gf_mul_one_zero(gf_inv(a));
    }
}

/// The laws of the sum in the field.
pub proof fn lemma_gf_add_laws(a: u32, b: u32, c: u32, d: u32)
    by (bit_vector)
    ensures
        a ^ b == b ^ a,
        (a ^ b) ^ c == a ^ (b ^ c),
        (a ^ b) ^ (c ^ d) == (a ^ c) ^ (b ^ d),
        (a ^ b) ^ b == a,
        a ^ 0 == a,
        0 ^ a == a,
        a ^ a == 0,
        a ^ b == 0 <==> a == b,
{
}

/// Dividing by a field element and multiplying by it again gives the element back,
/// and the quotient of two elements that are not zero is not zero.
pub proof fn lemma_gf_div_cancel(a: u32, b: u32)
    requires
        b != 0,
    ensures
        gf_mul(gf_div(a, b), b) == a,
        gf_mul(b, gf_div(a, b)) == a,
        a != 0 ==> gf_div(a, b) != 0,
        gf_div(b, b) == 1,
{
    lemma_gf_inverse(b);
    lemma_gf_mul_assoc(a, gf_inv(b), b);
    lemma_gf_mul_one_zero(a);
    lemma_gf_mul_commutes(b, gf_div(a, b));
    lemma_gf_mul_one_zero(b);
}

} // verus!

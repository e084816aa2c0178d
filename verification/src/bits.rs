//! Facts about bit patterns read as polynomials over GF(2): bit `i` of a word is the
//! coefficient of `x^i`, and exclusive or is the sum.
use vstd::prelude::*;

verus! {

/// The degree of the polynomial `x`: the index of its highest set bit, and -1 for zero.
pub open spec fn deg(x: u64) -> int
    decreases x,
{
    if x == 0 {
        -1
    } else {
        1 + deg(x / 2)
    }
}

/// Whether `x` has no bit set at index `n` or above.
pub open spec fn fits(x: u64, n: nat) -> bool {
    n >= 64 || x >> (n as u64) == 0
}

/// Facts about shifts of 64-bit words, by one place and by `n` places.
pub proof fn lemma_shift_facts(x: u64, y: u64, n: u64)
    by (bit_vector)
    ensures
        x >> 1 == x / 2,
        x >> 0 == x,
        x << 0 == x,
        0u64 >> n == 0,
        1 <= n < 64 ==> (x >> 1) >> ((n - 1) as u64) == x >> n,
        (x >> 1) >> 63 == 0,
        n < 63 && x >> 63 == 0 ==> (x << 1) >> ((n + 1) as u64) == x >> n,
        n < 64 ==> (x ^ y) >> n == (x >> n) ^ (y >> n),
        n < 63 && x >> n == 0 ==> x >> ((n + 1) as u64) == 0,
        x >> 63 <= 1,
{
}

/// A word without a bit at index `n` or above has a degree below `n`.
proof fn lemma_deg_below(x: u64, n: nat)
    requires
        n <= 64,
        fits(x, n),
    ensures
        deg(x) < n,
    decreases n,
{
    lemma_shift_facts(x, 0, n as u64);
    if x != 0 {
        lemma_deg_below(x / 2, (n - 1) as nat);
    }
}

/// The degree is at least -1, and -1 only for zero.
proof fn lemma_deg_least(x: u64)
    ensures
        -1 <= deg(x),
        deg(x) == -1 <==> x == 0,
    decreases x,
{
    if x != 0 {
        lemma_deg_least(x / 2);
    }
}

/// The degree is below 64, and at least 0 for a word that is not zero.
pub proof fn lemma_deg_range(x: u64)
    ensures
        -1 <= deg(x) <= 63,
        deg(x) == -1 <==> x == 0,
{
    lemma_deg_least(x);
    lemma_deg_below(x, 64);
}

/// The degree of `x` is `n` exactly when shifting `x` right by `n` leaves 1, and is
/// below `n` exactly when it leaves 0.
pub proof fn lemma_deg_shift(x: u64, n: int)
    requires
        0 <= n < 64,
    ensures
        deg(x) == n <==> x >> (n as u64) == 1,
        deg(x) < n <==> x >> (n as u64) == 0,
    decreases n,
{
    lemma_deg_range(x);
    lemma_shift_facts(x, 0, n as u64);
    if n == 0 {
        if x != 0 {
            lemma_deg_range(x / 2);
        }
    } else if x == 0 {
    } else {
        lemma_deg_shift(x / 2, n - 1);
    }
}

/// `fits(x, n)` says that the degree of `x` is below `n`.
pub proof fn lemma_fits_deg(x: u64, n: nat)
    ensures
        fits(x, n) <==> deg(x) < n,
{
    lemma_deg_range(x);
    if n < 64 {
        lemma_deg_shift(x, n as int);
    }
}

/// The laws of the sum of polynomials over GF(2): exclusive or is commutative and
/// associative, zero is its unit, and every word is its own negative.
pub proof fn lemma_xor_laws(a: u64, b: u64, c: u64, d: u64)
    by (bit_vector)
    ensures
        a ^ b == b ^ a,
        (a ^ b) ^ c == a ^ (b ^ c),
        (a ^ b) ^ (c ^ d) == (a ^ c) ^ (b ^ d),
        (a ^ b) ^ b == a,
        a ^ b == c <==> a == c ^ b,
        a ^ 0 == a,
        0 ^ a == a,
        a ^ a == 0,
        a ^ b == 0 <==> a == b,
{
}

/// How shifts and sums go with the bound that `fits` states.
pub proof fn lemma_fits_facts(x: u64, y: u64, n: u64, k: u64)
    by (bit_vector)
    ensures
        x >> 0 == 0 ==> x == 0,
        n <= k < 64 && x >> n == 0 ==> x >> k == 0,
        n < 64 && x >> n == 0 && y >> n == 0 ==> (x ^ y) >> n == 0,
        n < 63 && x >> n == 0 ==> (x << 1) >> ((n + 1) as u64) == 0,
        1 <= n < 64 && x >> n == 0 ==> (x >> 1) >> ((n - 1) as u64) == 0,
        n < 64 && x >> n == 0 ==> (x << 1) >> 1 == x,
{
}

/// `a` where bit 0 of `b` is set, and zero where it is not: the term that the lowest
/// coefficient of `b` adds to a product with `a`.
pub open spec fn pick(b: u64, a: u64) -> u64 {
    if b & 1 == 1 {
        a
    } else {
        0
    }
}

/// The product of `y` and `x` modulo `m`, where `m` is zero or has degree 32. With
/// `m` zero the product is cut off at 64 bits; otherwise `y` is taken to have degree
/// below 32, and `m` is subtracted once where the product reaches degree 32.
pub open spec fn times_x(m: u64, y: u64) -> u64 {
    let z = y << 1;
    if m != 0 && z & 0x1_0000_0000 != 0 {
        z ^ m
    } else {
        z
    }
}

/// The product of `a` and the lowest `steps` coefficients of `b`, modulo `m`:
/// the sum of `a * x^i` over the set bits `i` of `b`, by Horner's rule.
pub open spec fn mul_mod(m: u64, a: u64, b: u64, steps: nat) -> u64
    decreases steps,
{
    if steps == 0 {
        0
    } else {
        pick(b, a) ^ times_x(m, mul_mod(m, a, b >> 1, (steps - 1) as nat))
    }
}

/// The product of two polynomials, cut off at 64 bits.
pub open spec fn clmul(a: u64, b: u64) -> u64 {
    mul_mod(0, a, b, 64)
}

/// `pick` is additive in both arguments and goes with `times_x`; a word is its
/// lowest bit and the rest.
pub proof fn lemma_pick_facts(m: u64, b: u64, c: u64, u: u64, v: u64)
    by (bit_vector)
    ensures
        pick(b, 0) == 0,
        pick(0, u) == 0,
        pick(1, u) == u,
        pick(b ^ c, u) == pick(b, u) ^ pick(c, u),
        pick(b, u ^ v) == pick(b, u) ^ pick(b, v),
        pick(b, times_x(m, u)) == times_x(m, pick(b, u)),
        pick(pick(b, 1), u) == pick(b, u),
        pick(b, 1) ^ ((b >> 1) << 1) == b,
        (b ^ c) >> 1 == (b >> 1) ^ (c >> 1),
        1u64 >> 1 == 0,
{
}

/// `times_x` is additive; it is a shift where nothing is cut off or reduced, and it
/// keeps the degree below 32 for a modulus of degree 32.
pub proof fn lemma_times_x_facts(m: u64, u: u64, v: u64)
    by (bit_vector)
    ensures
        times_x(m, u ^ v) == times_x(m, u) ^ times_x(m, v),
        times_x(m, 0) == 0,
        m == 0 || u >> 31 == 0 ==> times_x(m, u) == u << 1,
        m >> 32 == 1 && u >> 32 == 0 ==> times_x(m, u) >> 32 == 0,
{
}

/// A product with zero on the left is zero.
pub proof fn lemma_mul_mod_zero_left(m: u64, b: u64, steps: nat)
    ensures
        mul_mod(m, 0, b, steps) == 0,
    decreases steps,
{
    if steps > 0 {
        lemma_mul_mod_zero_left(m, b >> 1, (steps - 1) as nat);
        lemma_pick_facts(m, b, 0, 0, 0);
        lemma_times_x_facts(m, 0, 0);
        lemma_xor_laws(0, 0, 0, 0);
    }
}

/// A product with zero on the right is zero.
pub proof fn lemma_mul_mod_zero_right(m: u64, a: u64, steps: nat)
    ensures
        mul_mod(m, a, 0, steps) == 0,
    decreases steps,
{
    if steps > 0 {
        lemma_mul_mod_zero_right(m, a, (steps - 1) as nat);
        lemma_pick_facts(m, 0, 0, a, 0);
        lemma_shift_facts(0, 0, 1);
        lemma_times_x_facts(m, 0, 0);
        lemma_xor_laws(0, 0, 0, 0);
    }
}

/// The product is additive in its left factor.
pub proof fn lemma_mul_mod_add_left(m: u64, a1: u64, a2: u64, b: u64, steps: nat)
    ensures
        mul_mod(m, a1 ^ a2, b, steps) == mul_mod(m, a1, b, steps) ^ mul_mod(m, a2, b, steps),
    decreases steps,
{
    if steps == 0 {
        lemma_xor_laws(0, 0, 0, 0);
    } else {
        let t1 = mul_mod(m, a1, b >> 1, (steps - 1) as nat);
        let t2 = mul_mod(m, a2, b >> 1, (steps - 1) as nat);
        lemma_mul_mod_add_left(m, a1, a2, b >> 1, (steps - 1) as nat);
        lemma_pick_facts(m, b, 0, a1, a2);
        lemma_times_x_facts(m, t1, t2);
        lemma_xor_laws(pick(b, a1), pick(b, a2), times_x(m, t1), times_x(m, t2));
    }
}

/// The product is additive in its right factor.
pub proof fn lemma_mul_mod_add_right(m: u64, a: u64, b1: u64, b2: u64, steps: nat)
    ensures
        mul_mod(m, a, b1 ^ b2, steps) == mul_mod(m, a, b1, steps) ^ mul_mod(m, a, b2, steps),
    decreases steps,
{
    if steps == 0 {
        lemma_xor_laws(0, 0, 0, 0);
    } else {
        let t1 = mul_mod(m, a, b1 >> 1, (steps - 1) as nat);
        let t2 = mul_mod(m, a, b2 >> 1, (steps - 1) as nat);
        lemma_mul_mod_add_right(m, a, b1 >> 1, b2 >> 1, (steps - 1) as nat);
        lemma_pick_facts(m, b1, b2, a, 0);
        lemma_times_x_facts(m, t1, t2);
        lemma_xor_laws(pick(b1, a), pick(b2, a), times_x(m, t1), times_x(m, t2));
    }
}

/// Multiplying the left factor by `x` multiplies the product by `x`.
pub proof fn lemma_mul_mod_times_x(m: u64, a: u64, b: u64, steps: nat)
    ensures
        mul_mod(m, times_x(m, a), b, steps) == times_x(m, mul_mod(m, a, b, steps)),
    decreases steps,
{
    if steps == 0 {
        lemma_times_x_facts(m, 0, 0);
    } else {
        let t = mul_mod(m, a, b >> 1, (steps - 1) as nat);
        lemma_mul_mod_times_x(m, a, b >> 1, (steps - 1) as nat);
        lemma_pick_facts(m, b, 0, a, 0);
        lemma_times_x_facts(m, pick(b, a), times_x(m, t));
    }
}

/// Two multiplications may be done in either order.
pub proof fn lemma_mul_mod_exchange(m: u64, v: u64, b: u64, s: nat, c: u64, t: nat)
    ensures
        mul_mod(m, mul_mod(m, v, c, t), b, s) == mul_mod(m, mul_mod(m, v, b, s), c, t),
    decreases s,
{
    if s == 0 {
        lemma_mul_mod_zero_left(m, c, t);
    } else {
        let s1 = (s - 1) as nat;
        let w = mul_mod(m, v, b >> 1, s1);
        let vc = mul_mod(m, v, c, t);
        lemma_mul_mod_exchange(m, v, b >> 1, s1, c, t);
        assert(mul_mod(m, vc, b, s) == pick(b, vc) ^ times_x(m, mul_mod(m, w, c, t)));
        lemma_mul_mod_add_left(m, pick(b, v), times_x(m, w), c, t);
        lemma_mul_mod_times_x(m, w, c, t);
        lemma_mul_mod_zero_left(m, c, t);
        assert(pick(b, vc) == mul_mod(m, pick(b, v), c, t));
    }
}

/// Whether `a` is an element of the ring in which `steps` coefficients are multiplied
/// modulo `m`.
pub open spec fn in_ring(m: u64, a: u64, steps: nat) -> bool {
    fits(a, steps) && steps <= 64 && (m == 0 || steps <= 32)
}

/// One is a unit on the left, for a right factor that `steps` coefficients hold.
pub proof fn lemma_mul_mod_one_left(m: u64, a: u64, steps: nat)
    requires
        in_ring(m, a, steps),
    ensures
        mul_mod(m, 1, a, steps) == a,
    decreases steps,
{
    lemma_fits_facts(a, 0, steps as u64, 0);
    lemma_shift_facts(a, 0, steps as u64);
    if steps > 0 {
        let s1 = (steps - 1) as nat;
        lemma_mul_mod_one_left(m, a >> 1, s1);
        lemma_times_x_facts(m, a >> 1, 0);
        lemma_fits_facts(a >> 1, 0, s1 as u64, 31);
        lemma_fits_facts(a >> 1, 0, 31, 31);
        lemma_pick_facts(m, a, 0, 0, 0);
    }
}

/// One is a unit on the right.
pub proof fn lemma_mul_mod_one_right(m: u64, a: u64, steps: nat)
    requires
        steps >= 1,
    ensures
        mul_mod(m, a, 1, steps) == a,
{
    lemma_pick_facts(m, 0, 0, a, 0);
    lemma_mul_mod_zero_right(m, a, (steps - 1) as nat);
    lemma_times_x_facts(m, 0, 0);
    lemma_xor_laws(a, 0, 0, 0);
}

/// The product does not depend on the order of its factors.
pub proof fn lemma_mul_mod_commutes(m: u64, a: u64, b: u64, steps: nat)
    requires
        in_ring(m, a, steps),
        in_ring(m, b, steps),
    ensures
        mul_mod(m, a, b, steps) == mul_mod(m, b, a, steps),
{
    lemma_mul_mod_one_left(m, a, steps);
    lemma_mul_mod_one_left(m, b, steps);
    lemma_mul_mod_exchange(m, 1, b, steps, a, steps);
}

/// Coefficients of the right factor beyond its degree add nothing to the product.
pub proof fn lemma_mul_mod_more_steps(m: u64, a: u64, b: u64, steps: nat, more: nat)
    requires
        fits(b, steps),
    ensures
        mul_mod(m, a, b, steps + more) == mul_mod(m, a, b, steps),
    decreases steps,
{
    lemma_fits_facts(b, 0, steps as u64, 0);
    lemma_shift_facts(b, 0, steps as u64);
    if steps == 0 {
        lemma_mul_mod_zero_right(m, a, more);
    } else {
        lemma_mul_mod_more_steps(m, a, b >> 1, (steps - 1) as nat, more);
    }
}

/// The degree of a product is at most the sum of the degrees of its factors.
pub proof fn lemma_mul_mod_fits(a: u64, i: nat, b: u64, steps: nat)
    requires
        fits(a, i),
        steps >= 1,
    ensures
        fits(mul_mod(0, a, b, steps), (i + steps - 1) as nat),
    decreases steps,
{
    let n = (i + steps - 1) as nat;
    if n < 64 {
        let s1 = (steps - 1) as nat;
        let t = mul_mod(0, a, b >> 1, s1);
        lemma_times_x_facts(0, t, 0);
        if s1 == 0 {
            lemma_fits_facts(0, 0, 0, 0);
            lemma_shift_facts(0, 0, n as u64);
        } else {
            lemma_mul_mod_fits(a, i, b >> 1, s1);
            lemma_fits_facts(t, 0, (n - 1) as u64, 0);
        }
        lemma_fits_facts(a, 0, i as u64, n as u64);
        lemma_shift_facts(0, 0, n as u64);
        lemma_fits_facts(pick(b, a), times_x(0, t), n as u64, 0);
    }
}

/// The product of polynomials does not depend on the order of its factors.
pub proof fn lemma_clmul_commutes(a: u64, b: u64)
    ensures
        clmul(a, b) == clmul(b, a),
{
    lemma_mul_mod_commutes(0, a, b, 64);
}

/// The product of three polynomials does not depend on how they are grouped.
pub proof fn lemma_clmul_assoc(a: u64, b: u64, c: u64)
    ensures
        clmul(clmul(a, b), c) == clmul(a, clmul(b, c)),
{
    lemma_clmul_commutes(a, clmul(b, c));
    lemma_mul_mod_exchange(0, b, a, 64, c, 64);
    lemma_clmul_commutes(b, a);
}

/// The product distributes over the sum, on either side.
pub proof fn lemma_clmul_distributes(a: u64, b: u64, c: u64)
    ensures
        clmul(a, b ^ c) == clmul(a, b) ^ clmul(a, c),
        clmul(a ^ b, c) == clmul(a, c) ^ clmul(b, c),
{
    lemma_mul_mod_add_right(0, a, b, c, 64);
    lemma_mul_mod_add_left(0, a, b, c, 64);
}

/// A product with zero is zero, and one with one is the other factor.
pub proof fn lemma_clmul_zero_one(a: u64)
    ensures
        clmul(a, 0) == 0,
        clmul(0, a) == 0,
        clmul(a, 1) == a,
        clmul(1, a) == a,
{
    lemma_mul_mod_zero_right(0, a, 64);
    lemma_mul_mod_zero_left(0, a, 64);
    lemma_mul_mod_one_right(0, a, 64);
    lemma_mul_mod_one_left(0, a, 64);
}

/// The degree of a product of polynomials that are not zero is at most the sum of
/// their degrees.
pub proof fn lemma_clmul_deg(a: u64, b: u64)
    requires
        a != 0,
        b != 0,
    ensures
        deg(clmul(a, b)) <= deg(a) + deg(b),
{
    lemma_deg_range(a);
    lemma_deg_range(b);
    lemma_deg_range(clmul(a, b));
    let i = (deg(a) + 1) as nat;
    let s = (deg(b) + 1) as nat;
    lemma_fits_deg(a, i);
    lemma_fits_deg(b, s);
    lemma_mul_mod_fits(a, i, b, s);
    lemma_mul_mod_more_steps(0, a, b, s, (64 - s) as nat);
    lemma_fits_deg(clmul(a, b), (i + s - 1) as nat);
}

/// The degree of a sum is at most the larger of the degrees of its terms.
pub proof fn lemma_xor_deg(a: u64, b: u64, n: int)
    requires
        deg(a) <= n,
        deg(b) <= n,
    ensures
        deg(a ^ b) <= n,
{
    lemma_deg_range(a);
    lemma_deg_range(b);
    lemma_deg_range(a ^ b);
    if n < 63 {
        let k = (n + 1) as nat;
        lemma_fits_deg(a, k);
        lemma_fits_deg(b, k);
        lemma_fits_facts(a, b, k as u64, 0);
        lemma_fits_deg(a ^ b, k);
    }
}


/// What the highest bit of a shifted word is, and that of a sum with a word of lower
/// degree.
pub proof fn lemma_lead_facts(x: u64, y: u64, n: u64)
    by (bit_vector)
    ensures
        n < 63 && x >> n == 1 ==> (x << 1) >> ((n + 1) as u64) == 1,
        n < 64 && x >> n == 1 && y >> n == 0 ==> (x ^ y) >> n == 1 && (y ^ x) >> n == 1,
        n < 64 && x >> n == 1 && y >> n == 1 ==> (x ^ y) >> n == 0,
{
}

proof fn lemma_mul_mod_deg(a: u64, b: u64, steps: nat)
    requires
        a != 0,
        b != 0,
        deg(b) + 1 == steps,
        deg(a) + deg(b) <= 63,
    ensures
        deg(mul_mod(0, a, b, steps)) == deg(a) + deg(b),
    decreases steps,
{
    lemma_deg_range(a);
    lemma_deg_range(b);
    lemma_shift_facts(b, 0, 0);
    if steps == 1 {
        lemma_deg_shift(b, 0);
        lemma_mul_mod_one_right(0, a, 1);
    } else {
        let n = deg(a) + deg(b);
        let t = mul_mod(0, a, b >> 1, (steps - 1) as nat);
        lemma_deg_range(b / 2);
        lemma_mul_mod_deg(a, b >> 1, (steps - 1) as nat);
        lemma_times_x_facts(0, t, 0);
        lemma_deg_shift(t, n - 1);
        lemma_lead_facts(t, 0, (n - 1) as u64);
        lemma_deg_shift(pick(b, a), n);
        lemma_deg_range(pick(b, a));
        lemma_lead_facts(t << 1, pick(b, a), n as u64);
        lemma_deg_shift(pick(b, a) ^ (t << 1), n);
    }
}

/// The degree of a product that is not cut off is the sum of the degrees of its
/// factors.
pub proof fn lemma_clmul_deg_exact(a: u64, b: u64)
    requires
        a != 0,
        b != 0,
        deg(a) + deg(b) <= 63,
    ensures
        deg(clmul(a, b)) == deg(a) + deg(b),
{
    lemma_deg_range(b);
    let s = (deg(b) + 1) as nat;
    lemma_fits_deg(b, s);
    lemma_mul_mod_deg(a, b, s);
    lemma_mul_mod_more_steps(0, a, b, s, (64 - s) as nat);
}

} // verus!

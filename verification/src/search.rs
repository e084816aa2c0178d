//! The search by trial division for polynomials over GF(2) that have no divisor among
//! given ones, by which a modulus for the field can be found.
use vstd::prelude::*;
use crate::bits::{deg, lemma_deg_range};
use crate::division::poly_rem;
use crate::polynomial::BinaryPolynomial;

verus! {

/// The number of terms of the polynomial `i`: the number of its set bits.
pub open spec fn weight(i: u64) -> nat
    decreases i,
{
    if i == 0 {
        0
    } else {
        (i % 2) as nat + weight(i / 2)
    }
}

/// The lowest bit of a word is its remainder modulo 2, and the shift by one place
/// divides by 2.
proof fn lemma_low_bit(i: u64)
    by (bit_vector)
    ensures
        i & 1 == i % 2,
        i >> 1 == i / 2,
{
}

/// A polynomial has at most one term more than its degree.
pub proof fn lemma_weight_bound(i: u64)
    ensures
        weight(i) <= deg(i) + 1,
        weight(i) <= 64,
    decreases i,
{
    lemma_deg_range(i);
    if i != 0 {
        lemma_weight_bound(i / 2);
    }
}

/// The number of set bits of `i`.
pub fn count_ones(i: u64) -> (result: u8)
    ensures
        result == weight(i),
{
    let mut i = i;
    let ghost whole = i;
    let mut result: u8 = 0;
    proof {
        lemma_weight_bound(whole);
    }
    while i > 0
        invariant
            result + weight(i) == weight(whole),
            weight(whole) <= 64,
        decreases i,
    {
        proof {
            lemma_low_bit(i);
        }
        if i & 1 == 1 {
            result += 1;
        }
        i >>= 1;
    }
    result
}

/// Whether `i` has a constant term and an odd number of terms; a polynomial without
/// the one is divisible by `x`, and one without the other by `x + 1`.
pub open spec fn candidate(i: u64) -> bool {
    i % 2 == 1 && weight(i) % 2 == 1
}

/// The number of divisors at the front of the list whose degree is at most
/// `max_degree`: those that are tried.
pub open spec fn tried(divisors: Seq<BinaryPolynomial>, max_degree: int) -> nat
    decreases divisors.len(),
{
    if divisors.len() == 0 {
        0
    } else {
        let before = tried(divisors.drop_last(), max_degree);
        if before == divisors.len() - 1 && deg(divisors.last().0) <= max_degree {
            divisors.len()
        } else {
            before
        }
    }
}

/// Whether one of the divisors that are tried divides `x`.
pub open spec fn has_divisor(x: u64, divisors: Seq<BinaryPolynomial>, max_degree: int) -> bool {
    exists|j: int|
        0 <= j < tried(divisors, max_degree) && poly_rem(x, (#[trigger] divisors[j]).0) == 0
}

/// Whether none of the divisors is zero.
pub open spec fn nonzero(divisors: Seq<BinaryPolynomial>) -> bool {
    forall|j: int| 0 <= j < divisors.len() ==> (#[trigger] divisors[j]).0 != 0
}

/// Divisors after one whose degree is above the limit are not tried.
proof fn lemma_tried_stops(divisors: Seq<BinaryPolynomial>, max_degree: int, i: nat, n: nat)
    requires
        i < n <= divisors.len(),
        tried(divisors.take(i as int), max_degree) == i,
        deg(divisors[i as int].0) > max_degree,
    ensures
        tried(divisors.take(n as int), max_degree) == i,
    decreases n,
{
    assert(divisors.take(n as int).drop_last() =~= divisors.take(n - 1));
    if n > i + 1 {
        lemma_tried_stops(divisors, max_degree, i, (n - 1) as nat);
    }
}

/// Whether `x` is divisible by one of the divisors, which are tried in order up to
/// the first whose degree is above `max_degree`.
pub fn divisible_by_any(x: BinaryPolynomial, divisors: &Vec<BinaryPolynomial>, max_degree: i8) -> (result:
    bool)
    requires
        nonzero(divisors@),
    ensures
        result == has_divisor(x.0, divisors@, max_degree as int),
{
    let mut j: usize = 0;
    while j < divisors.len()
        invariant
            j <= divisors@.len(),
            nonzero(divisors@),
            tried(divisors@.take(j as int), max_degree as int) == j,
            forall|t: int| 0 <= t < j ==> poly_rem(x.0, (#[trigger] divisors@[t]).0) != 0,
        decreases divisors@.len() - j,
    {
        let y = divisors[j];
        proof {
            assert(divisors@.take(j + 1).drop_last() =~= divisors@.take(j as int));
        }
        if y.degree() > max_degree {
            proof {
                lemma_tried_stops(divisors@, max_degree as int, j as nat, divisors@.len());
                assert(divisors@.take(divisors@.len() as int) =~= divisors@);
            }
            return false;
        }
        if x % y == BinaryPolynomial(0) {
            proof {
                lemma_tried_reaches(divisors@, max_degree as int, (j + 1) as nat, divisors@.len());
                assert(divisors@.take(divisors@.len() as int) =~= divisors@);
            }
            return true;
        }
        j += 1;
    }
    proof {
        assert(divisors@.take(j as int) =~= divisors@);
    }
    false
}

/// The divisors tried within a front part of the list are tried within the list.
proof fn lemma_tried_reaches(divisors: Seq<BinaryPolynomial>, max_degree: int, i: nat, n: nat)
    requires
        i <= n <= divisors.len(),
        tried(divisors.take(i as int), max_degree) == i,
    ensures
        tried(divisors.take(n as int), max_degree) >= i,
    decreases n,
{
    if n > i {
        assert(divisors.take(n as int).drop_last() =~= divisors.take(n - 1));
        lemma_tried_reaches(divisors, max_degree, i, (n - 1) as nat);
    }
}

/// The polynomials below `n` that the sieve keeps: `x`, `x + 1`, `x^2 + x + 1`, and
/// each candidate from `x^3` on that none of those kept before it divides, of those
/// whose degree is at most half its own, rounded up.
pub open spec fn sieve(n: nat) -> Seq<BinaryPolynomial>
    decreases n,
{
    if n <= 8 {
        seq![BinaryPolynomial(0b10), BinaryPolynomial(0b11), BinaryPolynomial(0b111)]
    } else {
        let before = sieve((n - 1) as nat);
        let i = (n - 1) as u64;
        if candidate(i) && !has_divisor(i, before, (deg(i) + 1) / 2) {
            before.push(BinaryPolynomial(i))
        } else {
            before
        }
    }
}

/// The sieve keeps no zero polynomial.
pub proof fn lemma_sieve_nonzero(n: nat)
    ensures
        nonzero(sieve(n)),
    decreases n,
{
    if n > 8 {
        lemma_sieve_nonzero((n - 1) as nat);
    }
}

/// The polynomials below `limit` that the sieve keeps, in order.
pub fn irreducibles_below(limit: u64) -> (result: Vec<BinaryPolynomial>)
    requires
        limit >= 8,
    ensures
        result@ == sieve(limit as nat),
        nonzero(result@),
{
    let mut irreducibles: Vec<BinaryPolynomial> = Vec::new();
    irreducibles.push(BinaryPolynomial(0b10));
    irreducibles.push(BinaryPolynomial(0b11));
    irreducibles.push(BinaryPolynomial(0b111));
    assert(irreducibles@ =~= sieve(8));
    let mut i: u64 = 8;
    while i < limit
        invariant
            8 <= i <= limit,
            irreducibles@ == sieve(i as nat),
        decreases limit - i,
    {
        proof {
            lemma_sieve_nonzero(i as nat);
            lemma_deg_range(i);
        }
        if i % 2 != 0 && count_ones(i) % 2 != 0 {
            let x = BinaryPolynomial(i);
            if !divisible_by_any(x, &irreducibles, (x.degree() + 1) / 2) {
                irreducibles.push(x);
            }
        }
        i += 1;
    }
    proof {
        lemma_sieve_nonzero(limit as nat);
    }
    irreducibles
}

/// Whether `i` is a candidate that none of the divisors divides.
pub open spec fn survives(i: u64, divisors: Seq<BinaryPolynomial>) -> bool {
    candidate(i) && !has_divisor(i, divisors, 63)
}

/// The first polynomial from `from` on and below `to` that is a candidate and that
/// none of the divisors divides, or `None` where there is none.
pub fn first_survivor(from: u64, to: u64, divisors: &Vec<BinaryPolynomial>) -> (result: Option<
    BinaryPolynomial,
>)
    requires
        from <= to,
        nonzero(divisors@),
    ensures
        match result {
            Some(found) => from <= found.0 < to && survives(found.0, divisors@) && forall|i: u64|
                from <= i < found.0 ==> !survives(i, divisors@),
            None => forall|i: u64| from <= i < to ==> !survives(i, divisors@),
        },
{
    let mut i: u64 = from;
    while i < to
        invariant
            from <= i <= to,
            nonzero(divisors@),
            forall|t: u64| from <= t < i ==> !survives(t, divisors@),
        decreases to - i,
    {
        if i % 2 != 0 && count_ones(i) % 2 != 0 {
            if !divisible_by_any(BinaryPolynomial(i), divisors, 63) {
                return Some(BinaryPolynomial(i));
            }
        }
        i += 1;
    }
    None
}

} // verus!

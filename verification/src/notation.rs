//! Polynomials over GF(2) written out: `x^3 + x + 1`.
use vstd::prelude::*;
use crate::polynomial::BinaryPolynomial;
use vstd::string::StringExecFns;

verus! {

/// The character of a decimal digit.
pub open spec fn digit_char(d: nat) -> char {
    if d == 0 {
        '0'
    } else if d == 1 {
        '1'
    } else if d == 2 {
        '2'
    } else if d == 3 {
        '3'
    } else if d == 4 {
        '4'
    } else if d == 5 {
        '5'
    } else if d == 6 {
        '6'
    } else if d == 7 {
        '7'
    } else if d == 8 {
        '8'
    } else {
        '9'
    }
}

/// The decimal digits of `n`.
pub open spec fn decimal(n: nat) -> Seq<char>
    decreases n,
{
    if n < 10 {
        seq![digit_char(n)]
    } else {
        decimal(n / 10).push(digit_char(n % 10))
    }
}

/// The term of degree `d`: `1`, `x`, or `x^d`.
pub open spec fn term(d: nat) -> Seq<char> {
    if d > 1 {
        seq!['x', '^'] + decimal(d)
    } else if d == 1 {
        seq!['x']
    } else {
        seq!['1']
    }
}

/// Whether the coefficient of `x^n` in `x` is 1.
pub open spec fn has_term(x: u64, n: nat) -> bool {
    n < 64 && (x >> (n as u64)) & 1 == 1
}

/// The degrees of the terms of `x` of degree `n` and above, highest first.
pub open spec fn exponents_above(x: u64, n: nat) -> Seq<nat>
    decreases 64 - n,
{
    if n >= 64 {
        Seq::empty()
    } else if has_term(x, n) {
        exponents_above(x, n + 1).push(n)
    } else {
        exponents_above(x, n + 1)
    }
}

/// The terms of the given degrees, with ` + ` between them.
pub open spec fn joined(exponents: Seq<nat>) -> Seq<char>
    decreases exponents.len(),
{
    if exponents.len() == 0 {
        Seq::empty()
    } else if exponents.len() == 1 {
        term(exponents[0])
    } else {
        joined(exponents.drop_last()) + seq![' ', '+', ' '] + term(exponents.last())
    }
}

/// The polynomial `x` written out: its terms, highest degree first, with ` + `
/// between them, and `0` for the zero polynomial.
pub open spec fn rendered(x: u64) -> Seq<char> {
    if exponents_above(x, 0).len() == 0 {
        seq!['0']
    } else {
        joined(exponents_above(x, 0))
    }
}

/// The highest bit of `x` shifted left by `p` is bit `63 - p` of `x`.
proof fn lemma_top_bit(x: u64, p: u64)
    by (bit_vector)
    ensures
        p < 64 ==> (((x << p) & (1u64 << 63) > 0) <==> ((x >> ((63 - p) as u64)) & 1 == 1)),
        p < 63 ==> (x << p) << 1 == x << ((p + 1) as u64),
        (x << 63) << 1 == 0,
        x << 0 == x,
{
}

/// Where `x` shifted left by `p` is zero, the bits of `x` below `64 - p` are clear.
proof fn lemma_low_bits_clear(x: u64, p: u64, n: u64)
    by (bit_vector)
    requires
        p < 64,
        x << p == 0,
        n < 64 - p,
    ensures
        (x >> n) & 1 == 0,
{
}

/// Where `x` shifted left by `p` is zero, `x` has no term of degree below `64 - p`.
proof fn lemma_no_lower_terms(x: u64, p: nat, n: nat)
    requires
        p < 64,
        x << (p as u64) == 0,
        n <= 64 - p,
    ensures
        exponents_above(x, n) == exponents_above(x, (64 - p) as nat),
    decreases 64 - p - n,
{
    if n < 64 - p {
        lemma_low_bits_clear(x, p as u64, n as u64);
        lemma_no_lower_terms(x, p, n + 1);
    }
}

/// The string of one decimal digit.
fn digit_str(d: u8) -> (result: &'static str)
    requires
        d < 10,
    ensures
        result@ == seq![digit_char(d as nat)],
{
    proof {
        reveal_strlit("0");
        reveal_strlit("1");
        reveal_strlit("2");
        reveal_strlit("3");
        reveal_strlit("4");
        reveal_strlit("5");
        reveal_strlit("6");
        reveal_strlit("7");
        reveal_strlit("8");
        reveal_strlit("9");
    }
    let result = if d == 0 {
        "0"
    } else if d == 1 {
        "1"
    } else if d == 2 {
        "2"
    } else if d == 3 {
        "3"
    } else if d == 4 {
        "4"
    } else if d == 5 {
        "5"
    } else if d == 6 {
        "6"
    } else if d == 7 {
        "7"
    } else if d == 8 {
        "8"
    } else {
        "9"
    };
    assert(result@ =~= seq![digit_char(d as nat)]);
    result
}

/// The term of the given degree as a string.
fn term_string(degree: u8) -> (result: String)
    ensures
        result@ == term(degree as nat),
{
    if degree > 1 {
        let mut result = String::from_str("x^");
        proof {
            reveal_strlit("x^");
            assert("x^"@ =~= seq!['x', '^']);
            reveal_with_fuel(decimal, 3);
        }
        if degree >= 100 {
            result.append(digit_str(degree / 100));
        }
        if degree >= 10 {
            result.append(digit_str((degree / 10) % 10));
        }
        result.append(digit_str(degree % 10));
        assert(result@ =~= term(degree as nat));
        result
    } else if degree == 1 {
        proof {
            reveal_strlit("x");
            assert("x"@ =~= seq!['x']);
        }
        String::from_str("x")
    } else {
        proof {
            reveal_strlit("1");
            assert("1"@ =~= seq!['1']);
        }
        String::from_str("1")
    }
}

impl BinaryPolynomial {
    /// The polynomial written out: `x^2 + 1` for the bits `101`, and `0` for the zero
    /// polynomial.
    pub fn to_string(&self) -> (result: String)
        ensures
            result@ == rendered(self.0),
    {
        let mut components: Vec<String> = Vec::new();
        let mut degree: u8 = 63;
        let mut x: u64 = self.0;
        let ghost mut seen: nat = 0;
        proof {
            lemma_top_bit(self.0, 0);
        }
        while x > 0
            invariant
                seen <= 64,
                seen < 64 ==> degree == 63 - seen && x == self.0 << (seen as u64),
                seen == 64 ==> x == 0,
                components@.len() == exponents_above(self.0, (64 - seen) as nat).len(),
                forall|i: int|
                    0 <= i < components@.len() ==> (#[trigger] components@[i])@ == term(
                        exponents_above(self.0, (64 - seen) as nat)[i],
                    ),
            decreases 64 - seen,
        {
            proof {
                lemma_top_bit(self.0, seen as u64);
            }
            if x & (1u64 << 63) > 0 {
                if degree > 1 {
                    components.push(term_string(degree));
                } else if degree == 1 {
                    components.push(term_string(1));
                } else {
                    components.push(term_string(0));
                }
            }
            if degree > 0 {
                degree -= 1;
            }
            x <<= 1;
            proof {
                seen = seen + 1;
            }
        }
        proof {
            if seen < 64 {
                lemma_no_lower_terms(self.0, seen, 0);
            }
        }
        let ghost exponents = exponents_above(self.0, 0);
        if components.is_empty() {
            proof {
                reveal_strlit("0");
                assert("0"@ =~= seq!['0']);
            }
            String::from_str("0")
        } else {
            let mut result = String::new();
            let mut i: usize = 0;
            while i < components.len()
                invariant
                    i <= components@.len(),
                    components@.len() == exponents.len(),
                    forall|j: int|
                        0 <= j < components@.len() ==> (#[trigger] components@[j])@ == term(
                            exponents[j],
                        ),
                    result@ == joined(exponents.take(i as int)),
                decreases components@.len() - i,
            {
                proof {
                    reveal_strlit(" + ");
                    assert(" + "@ =~= seq![' ', '+', ' ']);
                    assert(exponents.take(i + 1).drop_last() =~= exponents.take(i as int));
                }
                if i > 0 {
                    result.append(" + ");
                }
                result.append(components[i].as_str());
                i += 1;
                proof {
                    assert(result@ =~= joined(exponents.take(i as int)));
                }
            }
            proof {
                assert(exponents.take(i as int) =~= exponents);
            }
            result
        }
    }
}

} // verus!

use rs_erasure::polynomial::BinaryPolynomial;
use rs_erasure::search::{count_ones, divisible_by_any, first_survivor, irreducibles_below};

#[test]
fn test_count_ones() {
    assert_eq!(count_ones(0), 0);
    assert_eq!(count_ones(1), 1);
    assert_eq!(count_ones(0b1011), 3);
    assert_eq!(count_ones(0x1_0000_008D), 5);
    assert_eq!(count_ones(u64::MAX), 64);
}

#[test]
fn test_small_sieve() {
    assert_eq!(
        irreducibles_below(8),
        vec![BinaryPolynomial(0b10), BinaryPolynomial(0b11), BinaryPolynomial(0b111)]
    );
    assert_eq!(
        irreducibles_below(32),
        vec![
            BinaryPolynomial(0b10),
            BinaryPolynomial(0b11),
            BinaryPolynomial(0b111),
            BinaryPolynomial(0b1011),
            BinaryPolynomial(0b1101),
            BinaryPolynomial(0b10011),
            BinaryPolynomial(0b11001),
            BinaryPolynomial(0b11111),
        ]
    );
}

#[test]
fn test_divisible_by_any() {
    let divisors = vec![BinaryPolynomial(0b10), BinaryPolynomial(0b11), BinaryPolynomial(0b111)];
    // x^4 + x^2 + 1 is the square of x^2 + x + 1
    assert!(divisible_by_any(BinaryPolynomial(0b10101), &divisors, 2));
    // but x^2 + x + 1 is not tried where only degree 1 is
    assert!(!divisible_by_any(BinaryPolynomial(0b10101), &divisors, 1));
    assert!(!divisible_by_any(BinaryPolynomial(0b10011), &divisors, 2));
    assert!(divisible_by_any(BinaryPolynomial(0b110), &divisors, 63));
    assert!(!divisible_by_any(BinaryPolynomial(0b110), &vec![], 63));
}

#[test]
fn test_first_survivor() {
    let divisors = irreducibles_below(16);
    assert_eq!(first_survivor(16, 32, &divisors), Some(BinaryPolynomial(0b10011)));
    assert_eq!(first_survivor(20, 25, &divisors), None);
    assert_eq!(first_survivor(20, 26, &divisors), Some(BinaryPolynomial(0b11001)));
    assert_eq!(first_survivor(5, 5, &divisors), None);
}

#[test]
fn test_field_modulus_is_found() {
    let irreducibles = irreducibles_below(1 << 16);
    assert_eq!(
        first_survivor(1 << 32, 1 << 33, &irreducibles),
        Some(BinaryPolynomial(0x1_0000_008D))
    );
}

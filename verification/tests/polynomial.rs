use rs_erasure::polynomial::BinaryPolynomial;

#[test]
fn test_add() {
    let _1 = BinaryPolynomial(0b1);
    let _x = BinaryPolynomial(0b10);
    assert_eq!(_1 + _1, BinaryPolynomial(0b0));
    assert_eq!(_1 + _x, BinaryPolynomial(0b11));
    assert_eq!(_x + _x, BinaryPolynomial(0b0));
}

#[test]
fn test_mul() {
    let _1 = BinaryPolynomial(0b1);
    let _x = BinaryPolynomial(0b10);
    let _x2 = BinaryPolynomial(0b100);
    assert_eq!(_1 * _x, _x);
    assert_eq!(_x * _x, _x2);
    assert_eq!((_x + _1) * _x, _x2 + _x);
}

#[test]
fn test_div_rem() {
    let _x2_x_1 = BinaryPolynomial(0b111);
    let _x4 = BinaryPolynomial(0b10000);
    assert_eq!(_x4 / _x2_x_1, BinaryPolynomial(0b110));
    assert_eq!(_x4 % _x2_x_1, BinaryPolynomial(0b10));
    assert_eq!(_x2_x_1 / _x4, BinaryPolynomial(0b0));
    assert_eq!(_x2_x_1 % _x4, _x2_x_1);
}

#[test]
fn test_debug() {
    let _1 = BinaryPolynomial(0b1);
    let _x = BinaryPolynomial(0b10);
    let _x2 = BinaryPolynomial(0b100);
    assert_eq!(_1.to_string(), "1");
    assert_eq!(_x.to_string(), "x");
    assert_eq!(_x2.to_string(), "x^2");
    assert_eq!((_x + _1).to_string(), "x + 1");
    assert_eq!((_x2 + _1).to_string(), "x^2 + 1");
    assert_eq!((_x2 * _x).to_string(), "x^3");
    assert_eq!(BinaryPolynomial(0).to_string(), "0");
}

#[test]
fn test_sub_is_add() {
    let a = BinaryPolynomial(0b1101);
    let b = BinaryPolynomial(0b0111);
    assert_eq!(a - b, BinaryPolynomial(0b1010));
    assert_eq!(a - b, a + b);
}

#[test]
fn test_degree() {
    assert_eq!(BinaryPolynomial(0).degree(), -1);
    assert_eq!(BinaryPolynomial(1).degree(), 0);
    assert_eq!(BinaryPolynomial(0b10000).degree(), 4);
    assert_eq!(BinaryPolynomial(0x1_0000_008D).degree(), 32);
    assert_eq!(BinaryPolynomial(u64::MAX).degree(), 63);
}

#[test]
fn test_mul_drops_high_terms() {
    let top = BinaryPolynomial(1 << 63);
    let _x = BinaryPolynomial(0b10);
    assert_eq!(top * _x, BinaryPolynomial(0));
    assert_eq!(BinaryPolynomial(0xFFFF_FFFF) * BinaryPolynomial(0), BinaryPolynomial(0));
    let a = BinaryPolynomial(0x8000_0000);
    assert_eq!(a * a, BinaryPolynomial(1 << 62));
}

#[test]
fn test_division_identity() {
    let mut a: u64 = 0x0123_4567_89AB_CDEF;
    let mut b: u64 = 0x1D;
    for _ in 0..200 {
        let x = BinaryPolynomial(a);
        let d = BinaryPolynomial(b);
        let q = x / d;
        let r = x % d;
        assert_eq!(q * d + r, x);
        assert!(r.degree() < d.degree());
        a = a.wrapping_mul(6364136223846793005).wrapping_add(1442695040888963407);
        b = (b.wrapping_mul(2862933555777941757).wrapping_add(3037000493) >> 20) | 1;
    }
}

#[test]
fn test_assign_forms() {
    let mut a = BinaryPolynomial(0b10000);
    a.add_assign(BinaryPolynomial(0b1));
    assert_eq!(a, BinaryPolynomial(0b10001));
    a.sub_assign(BinaryPolynomial(0b1));
    assert_eq!(a, BinaryPolynomial(0b10000));
    let mut q = a;
    q.div_assign(BinaryPolynomial(0b111));
    assert_eq!(q, BinaryPolynomial(0b110));
    let mut r = a;
    r.rem_assign(BinaryPolynomial(0b111));
    assert_eq!(r, BinaryPolynomial(0b10));
    let mut m = BinaryPolynomial(0b11);
    m.mul_assign(BinaryPolynomial(0b11));
    assert_eq!(m, BinaryPolynomial(0b101));
}

#[test]
fn test_to_string_two_digit_degrees() {
    assert_eq!(BinaryPolynomial(0x1_0000_008D).to_string(), "x^32 + x^7 + x^3 + x^2 + 1");
    assert_eq!(BinaryPolynomial(1 << 63).to_string(), "x^63");
    assert_eq!(BinaryPolynomial((1 << 10) | 0b10).to_string(), "x^10 + x");
}

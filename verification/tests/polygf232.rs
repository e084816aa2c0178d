use rs_erasure::gf232::GF232;
use rs_erasure::polygf232::PolyGF232;

fn poly(coefficients: &[u32]) -> PolyGF232 {
    PolyGF232::new(coefficients.iter().map(|c| GF232(*c)).collect())
}

#[test]
fn test_new_drops_zeros_at_the_end() {
    assert_eq!(poly(&[1, 2, 0, 0]).coefficients(), vec![GF232(1), GF232(2)]);
    assert_eq!(poly(&[0, 0, 0]).coefficients(), vec![]);
    assert_eq!(poly(&[]).coefficients(), vec![]);
    assert_eq!(poly(&[0, 0, 5]).coefficients(), vec![GF232(0), GF232(0), GF232(5)]);
    assert_eq!(poly(&[1, 2, 0]), poly(&[1, 2]));
}

#[test]
fn test_degree_and_span() {
    assert_eq!(poly(&[]).degree(), -1);
    assert_eq!(poly(&[7]).degree(), 0);
    assert_eq!(poly(&[0, 0, 1, 0]).degree(), 2);
    assert_eq!(poly(&[0, 0, 1, 0]).span(), 3);
    assert_eq!(poly(&[]).span(), 0);
}

#[test]
fn test_get_coeff() {
    let p = poly(&[4, 5, 6]);
    assert_eq!(p.get_coeff(0), GF232(4));
    assert_eq!(p.get_coeff(2), GF232(6));
    assert_eq!(p.get_coeff(3), GF232(0));
    assert_eq!(p.get_coeff(1000), GF232(0));
}

#[test]
fn test_get_coeff_mut_fills_with_zeros() {
    let mut p = poly(&[4, 5]);
    *p.get_coeff_mut(1) = GF232(9);
    assert_eq!(p.coefficients(), vec![GF232(4), GF232(9)]);
    *p.get_coeff_mut(4) = GF232(1);
    assert_eq!(
        p.coefficients(),
        vec![GF232(4), GF232(9), GF232(0), GF232(0), GF232(1)]
    );
    assert_eq!(*p.get_coeff_mut(6), GF232(0));
    assert_eq!(p.coefficients().len(), 7);
    p.normalize();
    assert_eq!(p.coefficients().len(), 5);
}

#[test]
fn test_apply() {
    // 3 + 2x + x^2 at x = 2: 3 + 4 + 4 = 3
    let p = poly(&[3, 2, 1]);
    assert_eq!(p.apply(GF232(2)), GF232(3));
    assert_eq!(p.apply(GF232(0)), GF232(3));
    assert_eq!(p.apply(GF232(1)), GF232(0));
    assert_eq!(poly(&[]).apply(GF232(77)), GF232(0));
    assert_eq!(poly(&[5]).apply(GF232(77)), GF232(5));
}

#[test]
fn test_add_and_sub() {
    assert_eq!(poly(&[1, 2, 3]).add(&poly(&[4, 5])), poly(&[5, 7, 3]));
    assert_eq!(poly(&[1, 2, 3]).sub(&poly(&[4, 5])), poly(&[5, 7, 3]));
    assert_eq!(poly(&[1, 2]).add(&poly(&[4, 5, 6])), poly(&[5, 7, 6]));
    // the leading terms cancel
    assert_eq!(poly(&[1, 2, 3]).add(&poly(&[4, 5, 3])), poly(&[5, 7]));
    assert_eq!(poly(&[1, 2, 3]).add(&poly(&[1, 2, 3])), poly(&[]));
    assert_eq!(poly(&[]).add(&poly(&[1])), poly(&[1]));
}

#[test]
fn test_add_scalar() {
    assert_eq!(poly(&[0, 1]).add_scalar(GF232(5)), poly(&[5, 1]));
    assert_eq!(poly(&[5]).add_scalar(GF232(5)), poly(&[]));
    assert_eq!(poly(&[]).add_scalar(GF232(0)), poly(&[]));
}

#[test]
fn test_mul_scalar_and_div_scalar() {
    assert_eq!(poly(&[1, 2, 3]).mul_scalar(GF232(2)), poly(&[2, 4, 6]));
    assert_eq!(poly(&[1, 2, 3]).mul_scalar(GF232(0)), poly(&[]));
    assert_eq!(poly(&[1, 2, 3]).mul_scalar(GF232(1)), poly(&[1, 2, 3]));
    assert_eq!(poly(&[2, 4, 6]).div_scalar(GF232(2)), poly(&[1, 2, 3]));
    let p = poly(&[0xDEAD_BEEF, 17, 0x8000_0000]);
    let c = GF232(0x1234_5678);
    assert_eq!(p.clone().mul_scalar(c).div_scalar(c), p);
}

#[test]
fn test_poly_mul() {
    // (x + 1)(x + 1) = x^2 + 1
    assert_eq!(poly(&[1, 1]).mul(&poly(&[1, 1])), poly(&[1, 0, 1]));
    // (x + 2)(x + 3) = x^2 + x + 6
    assert_eq!(poly(&[2, 1]).mul(&poly(&[3, 1])), poly(&[6, 1, 1]));
    assert_eq!(poly(&[2, 1]).mul(&poly(&[])), poly(&[]));
    assert_eq!(poly(&[]).mul(&poly(&[3, 1])), poly(&[]));
    assert_eq!(poly(&[0, 0, 1]).mul(&poly(&[5, 7])), poly(&[0, 0, 5, 7]));
}

#[test]
fn test_mul_goes_with_apply() {
    let p = poly(&[0x1111, 0x2222_0000, 3]);
    let q = poly(&[0xFFFF_FFFF, 5]);
    let x = GF232(0x0BAD_CAFE);
    assert_eq!(p.clone().mul(&q).apply(x), p.apply(x) * q.apply(x));
    assert_eq!(p.clone().add(&q).apply(x), p.apply(x) + q.apply(x));
}

#[test]
fn test_shifted_multiple() {
    assert_eq!(
        poly(&[1, 2]).shifted_multiple(GF232(3), 2).coefficients(),
        vec![GF232(0), GF232(0), GF232(3), GF232(6)]
    );
    assert_eq!(
        poly(&[1, 2]).shifted_multiple(GF232(0), 1).coefficients(),
        vec![GF232(0), GF232(0), GF232(0)]
    );
}

#[test]
fn test_poly_div() {
    // x^2 by x + 1: x is noted for the leading term, and x is left, of the degree
    // of the divisor, where division stops
    assert_eq!(poly(&[0, 0, 1]).div(&poly(&[1, 1])), poly(&[1]));
    // x^3 by x + 1: x^2, then x
    assert_eq!(poly(&[0, 0, 0, 1]).div(&poly(&[1, 1])), poly(&[1, 1]));
    // the degree is not above that of the divisor
    assert_eq!(poly(&[1, 1]).div(&poly(&[1, 1])), poly(&[]));
    assert_eq!(poly(&[1]).div(&poly(&[1, 1])), poly(&[]));
    assert_eq!(poly(&[]).div(&poly(&[3])), poly(&[]));
    // by a constant: the coefficients above the constant term, highest first
    assert_eq!(poly(&[4, 6, 2]).div(&poly(&[2])), poly(&[3, 1]));
}

#[test]
fn test_clone() {
    let p = poly(&[1, 2, 3]);
    assert_eq!(p.clone(), p);
}

use rs_erasure::gf232::GF232;

#[test]
fn test_inverse() {
    for i in 1..10000 {
        let x = GF232(i);
        assert_eq!(
            x * x.inverse(),
            GF232(1),
            "x = {:?}, x-1 = {:?}",
            x,
            x.inverse()
        );
    }
}

#[test]
fn test_inverse_of_wide_elements() {
    let mut a: u32 = 0x9E37_79B9;
    for _ in 0..2000 {
        let x = GF232(a | 1);
        assert_eq!(x * x.inverse(), GF232(1));
        assert_eq!(x.inverse() * x, GF232(1));
        a = a.wrapping_mul(1664525).wrapping_add(1013904223);
    }
    assert_eq!(GF232(1).inverse(), GF232(1));
    assert_eq!(GF232(0xFFFF_FFFF) * GF232(0xFFFF_FFFF).inverse(), GF232(1));
}

#[test]
fn test_mul_small() {
    assert_eq!(GF232(2) * GF232(3), GF232(6));
    assert_eq!(GF232(0x8000_0000) * GF232(2), GF232(0x0000_008D));
    assert_eq!(GF232(0) * GF232(0x1234), GF232(0));
    assert_eq!(GF232(1) * GF232(0x1234), GF232(0x1234));
}

#[test]
fn test_add_sub() {
    assert_eq!(GF232(0b1100) + GF232(0b1010), GF232(0b0110));
    assert_eq!(GF232(0b1100) - GF232(0b1010), GF232(0b0110));
    assert_eq!(GF232(7) + GF232(7), GF232(0));
}

#[test]
fn test_div() {
    let a = GF232(0xDEAD_BEEF);
    let b = GF232(0x0BAD_F00D);
    assert_eq!((a / b) * b, a);
    assert_eq!(a / a, GF232(1));
    assert_eq!(a / GF232(1), a);
    assert_eq!(GF232(6) / GF232(3), GF232(2));
}

#[test]
fn test_field_laws_on_samples() {
    let a = GF232(0x1234_5678);
    let b = GF232(0x9ABC_DEF0);
    let c = GF232(0x0F1E_2D3C);
    assert_eq!(a * b, b * a);
    assert_eq!((a * b) * c, a * (b * c));
    assert_eq!(a * (b + c), a * b + a * c);
}

#[test]
fn test_gf_assign_forms() {
    let mut a = GF232(2);
    a.mul_assign(GF232(3));
    assert_eq!(a, GF232(6));
    a.add_assign(GF232(1));
    assert_eq!(a, GF232(7));
    a.sub_assign(GF232(1));
    assert_eq!(a, GF232(6));
    a.div_assign(GF232(3));
    assert_eq!(a, GF232(2));
}

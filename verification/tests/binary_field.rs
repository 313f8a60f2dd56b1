use algebra::binary::BinaryField;
use algebra::binary::BinaryRing;
use algebra::binary::Newable;
use algebra::error::Error;
use algebra::euclidian_domain::EuclidianDomain;

#[test]
fn test_builtin_moduli() {
    assert_eq!(BinaryField::<u8>::new().mod_substractor, 0b11011u8);
    assert_eq!(BinaryField::<u16>::new().mod_substractor, 0b101011u16);
    assert_eq!(BinaryField::<u32>::new().mod_substractor, 0b10001101u32);
    assert_eq!(BinaryField::<u64>::new().mod_substractor, 0b11011u64);
    assert_eq!(BinaryField::<u128>::new().mod_substractor, 0b10000111u128);
    assert_eq!(BinaryField::<u8>::default(), BinaryField::<u8>::new());
}

#[test]
fn test_field_add_is_xor() {
    let field = BinaryField::<u8>::new();
    assert_eq!(field.add(&0x0f, &0xf0), 0xff);
    assert_eq!(field.add(&0xaa, &0xaa), 0x00);
    assert_eq!(field.neg(&0x5a), 0x5a);
    assert_eq!(field.zero(), 0);
    assert_eq!(field.one(), 1);
}

#[test]
fn test_field_mul_concrete() {
    // x * x == x^2, and a full reduction step: x^7 * x == the modulus tail
    let field = BinaryField::<u8>::new();
    assert_eq!(field.mul(&0x02, &0x02), 0x04);
    assert_eq!(field.mul(&0x80, &0x02), 0x1b);
    assert_eq!(field.mul(&0x01, &0x8f), 0x8f);
    let prod = field.mul(&0x8f, &0x33);
    let inv = field.inv(&0x8f).unwrap();
    assert_eq!(field.mul(&0x8f, &inv), 1);
    // multiplication commutes on a sample
    assert_eq!(prod, field.mul(&0x33, &0x8f));
}

#[test]
fn test_field_inverse_u8_all() {
    let field = BinaryField::<u8>::new();
    for a in 1..=255u8 {
        let inv = field.inv(&a).unwrap();
        assert_eq!(field.mul(&a, &inv), 1);
    }
}

#[test]
fn test_field_inverse_u16() {
    let field = BinaryField::<u16>::new();
    for a in [1u16, 2, 3, 0x1234, 0xffff, 0x8000] {
        let inv = field.inv(&a).unwrap();
        assert_eq!(field.mul(&a, &inv), 1);
    }
}

#[test]
fn test_field_inverse_u32() {
    let field = BinaryField::<u32>::new();
    for a in [1u32, 2, 0xdead_beef, 0xffff_ffff, 0x8000_0000] {
        let inv = field.inv(&a).unwrap();
        assert_eq!(field.mul(&a, &inv), 1);
    }
}

#[test]
fn test_field_inverse_u64() {
    let field = BinaryField::<u64>::new();
    for a in [1u64, 2, 0xdead_beef_0bad_f00d, u64::MAX] {
        let inv = field.inv(&a).unwrap();
        assert_eq!(field.mul(&a, &inv), 1);
    }
}

#[test]
fn test_field_inverse_u128() {
    let field = BinaryField::<u128>::new();
    for a in [1u128, 2, 0xdead_beef_0bad_f00d_1234_5678_9abc_def0, u128::MAX] {
        let inv = field.inv(&a).unwrap();
        assert_eq!(field.mul(&a, &inv), 1);
    }
}

#[test]
fn test_gcd_inverse_agrees_u8() {
    // the Fermat and the extended-Euclid inverses agree everywhere
    let field = BinaryField::<u8>::new();
    for a in 1..=255u8 {
        let fermat = field.inv(&a).unwrap();
        let euclid = field.gcd_inv(&a).unwrap();
        assert_eq!(fermat, euclid);
        assert_eq!(field.mul(&a, &euclid), 1);
    }
}

#[test]
fn test_gcd_inverse_agrees_wide() {
    let field16 = BinaryField::<u16>::new();
    for a in [1u16, 2, 0x1234, 0xffff] {
        assert_eq!(field16.inv(&a).unwrap(), field16.gcd_inv(&a).unwrap());
    }
    let field64 = BinaryField::<u64>::new();
    for a in [1u64, 3, 0xdead_beef_0bad_f00d, u64::MAX] {
        assert_eq!(field64.inv(&a).unwrap(), field64.gcd_inv(&a).unwrap());
    }
}

#[test]
fn test_inverse_of_zero() {
    let field = BinaryField::<u8>::new();
    assert!(matches!(field.inv(&0), Err(Error::DivisionByZero)));
    assert!(matches!(field.gcd_inv(&0), Err(Error::InversionOfZero)));
}

#[test]
fn test_divide_modulus() {
    // quotient * divisor + remainder is the modulus, which reduces to zero
    let field = BinaryField::<u8>::new();
    for a in 2..=255u8 {
        let result = field.divide_modulus_by_divisor(a);
        let recombined = field.add(&field.mul(&result.quotient, &a), &result.remainder);
        assert_eq!(recombined, 0);
    }
}

#[test]
fn test_field_division() {
    let field = BinaryField::<u8>::new();
    for (b, a) in [(0xf3u8, 0x1bu8), (0x05, 0xf0), (0x01, 0x01), (0x00, 0x07)] {
        let result = field.division_algorithm(&b, &a);
        let recombined = field.add(&field.mul(&result.quotient, &a), &result.remainder);
        assert_eq!(recombined, b);
    }
}

#[test]
fn test_exponentiate() {
    let field = BinaryField::<u8>::new();
    assert_eq!(field.exponentiate(&0x02, &1), 0x02);
    assert_eq!(field.exponentiate(&0x02, &0), 0x01);
    // x^8 reduces to the modulus tail x^4 + x^3 + x + 1
    assert_eq!(field.exponentiate(&0x02, &8), 0x1b);
    // Fermat: a^(2^8 - 1) == 1 for non-zero a
    assert_eq!(field.exponentiate(&0x8f, &255), 0x01);
}

#[test]
fn test_extended_euclid_ring() {
    // Bezout coefficients over GF(2)[x]: x*a + y*b == gcd
    let ring: BinaryRing<u8> = BinaryRing::new();
    let a = vec![0x07u8];
    let b = vec![0x0du8, 0x01u8];
    let res = ring.extended_euclid(&a, &b).unwrap();
    let combination = ring.add(&ring.mul(&res.x, &a), &ring.mul(&res.y, &b));
    assert_eq!(combination, res.gcd);
    // the result divides both inputs
    let ra = ring.division_algorithm(&a, &res.gcd).unwrap();
    let rb = ring.division_algorithm(&b, &res.gcd).unwrap();
    assert!(ra.remainder.is_empty());
    assert!(rb.remainder.is_empty());
}

#[test]
fn test_extended_euclid_zero() {
    let ring: BinaryRing<u8> = BinaryRing::new();
    let res = ring.extended_euclid(&vec![], &vec![0x03u8]);
    assert!(matches!(res, Err(Error::DivisionByZero)));
}

use algebra::binary::BinaryRing;
use algebra::error::Error;

#[test]
fn test_shif_left() {
    let mut value = vec![0x0fu8, 0xffu8];
    BinaryRing::shift_left(&mut value);
    assert_eq!(value[0], 0x1e);
    assert_eq!(value[1], 0xfe);
    assert_eq!(value[2], 0x01);
}

#[test]
fn test_binary_add_in_place() {
    let mut value = vec![0x0fu8, 0xffu8];
    BinaryRing::add_in_place(&mut value, &[0x0fu8]);
    assert_eq!(value[0], 0);
    assert_eq!(value[1], 0xffu8);
    assert_eq!(value.len(), 2);
    BinaryRing::add_in_place(&mut value, &[0x0fu8, 0xffu8, 0x12u8]);
    assert_eq!(value[0], 0x0fu8);
    assert_eq!(value[1], 0x00u8);
    assert_eq!(value[2], 0x12u8);
    assert_eq!(value.len(), 3);
}

#[test]
fn test_bindary_ring_mult() {
    let v1 = vec![0x0fu8, 0xffu8];
    let v2 = vec![0x0f];
    let ring = BinaryRing::new();
    let result = ring.mul(&v1, &v2);
    assert_eq!(result[0], 0x55);
    assert_eq!(result[1], 0x05);
    assert_eq!(result[2], 0x05);
}

#[test]
fn test_binary_ring_deg() {
    let v1 = vec![0x0fu8, 0x4fu8];
    let ring = BinaryRing::new();
    assert_eq!(ring.degree(&v1), 14);
}

#[test]
fn test_shift_by_bits() {
    let mut vi = vec![0x2f, 0x1fu8];

    BinaryRing::shift_left_by_bits(&mut vi, 12);
    assert_eq!(vi[0], 0x00);
    assert_eq!(vi[1], 0xf0);
    assert_eq!(vi[2], 0xf2);
    assert_eq!(vi[3], 0x01);
}

#[test]
fn test_shift_right() {
    let mut value = vec![0x1eu8, 0xfeu8, 0x01u8];
    BinaryRing::shift_right(&mut value);
    assert_eq!(value[0], 0x0f);
    assert_eq!(value[1], 0xff);
    assert_eq!(value[2], 0x00);
    assert_eq!(value.len(), 3);
}

#[test]
fn test_shift_round_trip() {
    // shifting left then right reproduces the canonical form
    let v = vec![0x80u8, 0x01u8, 0x00u8];
    let mut u = v.clone();
    BinaryRing::clean_up(&mut u);
    let mut w = v;
    BinaryRing::shift_left(&mut w);
    BinaryRing::shift_right(&mut w);
    BinaryRing::clean_up(&mut w);
    assert_eq!(u, w);
    assert_eq!(u, vec![0x80u8, 0x01u8]);
}

#[test]
fn test_shift_by_bits_round_trip() {
    // a 13-bit shift followed by 13 single-bit right shifts
    let v = vec![0x2fu8, 0x1fu8, 0x00u8];
    let mut u = v.clone();
    BinaryRing::clean_up(&mut u);
    let mut w = v;
    BinaryRing::shift_left_by_bits(&mut w, 13);
    for _ in 0..13 {
        BinaryRing::shift_right(&mut w);
    }
    BinaryRing::clean_up(&mut w);
    assert_eq!(u, w);
}

#[test]
fn test_clean_up() {
    let mut value = vec![0x00u8, 0x07u8, 0x00u8, 0x00u8];
    BinaryRing::clean_up(&mut value);
    assert_eq!(value, vec![0x00u8, 0x07u8]);
    let mut zeros = vec![0x00u8, 0x00u8];
    BinaryRing::clean_up(&mut zeros);
    assert!(zeros.is_empty());
}

#[test]
fn test_degree_of_zero() {
    let ring: BinaryRing<u8> = BinaryRing::new();
    assert_eq!(ring.degree(&vec![]), -1);
    assert_eq!(ring.degree(&vec![0u8, 0u8]), -1);
    assert_eq!(ring.degree(&vec![1u8]), 0);
}

#[test]
fn test_bit_at() {
    let ring: BinaryRing<u8> = BinaryRing::new();
    let v = vec![0x0fu8, 0x4fu8];
    assert!(ring.bit_at(&v, 0));
    assert!(!ring.bit_at(&v, 4));
    assert!(ring.bit_at(&v, 14));
    assert!(!ring.bit_at(&v, 15));
}

#[test]
fn test_ring_add() {
    let ring: BinaryRing<u8> = BinaryRing::new();
    let a = vec![0x0fu8, 0x01u8];
    let b = vec![0xf0u8, 0x01u8];
    let sum = ring.add(&a, &b);
    assert_eq!(sum, vec![0xffu8]);
    assert_eq!(ring.add(&a, &ring.zero()), a);
    assert_eq!(ring.neg(&a), a);
    assert_eq!(ring.one(), vec![0x01u8]);
    assert_eq!(ring.zero(), Vec::<u8>::new());
}

#[test]
fn test_division_round_trip() {
    // value == quotient * divisor + remainder, after canonicalization
    let ring: BinaryRing<u8> = BinaryRing::new();
    let b = vec![0x37u8, 0xa5u8, 0x03u8];
    let a = vec![0x1bu8, 0x01u8];
    let result = ring.division_algorithm(&b, &a).unwrap();
    let mut recombined = ring.add(&ring.mul(&result.quotient, &a), &result.remainder);
    BinaryRing::clean_up(&mut recombined);
    assert_eq!(recombined, b);
    // the remainder's degree is below the divisor's
    assert!(ring.degree(&result.remainder) < ring.degree(&a));
}

#[test]
fn test_division_small_dividend() {
    let ring: BinaryRing<u8> = BinaryRing::new();
    let b = vec![0x03u8];
    let a = vec![0x1bu8];
    let result = ring.division_algorithm(&b, &a).unwrap();
    assert!(result.quotient.is_empty());
    assert_eq!(result.remainder, vec![0x03u8]);
    // the dividend comes back exactly as given, trailing zero words kept
    let padded = vec![0x03u8, 0x00u8];
    let result = ring.division_algorithm(&padded, &a).unwrap();
    assert!(result.quotient.is_empty());
    assert_eq!(result.remainder, padded);
}

#[test]
fn test_division_by_zero() {
    let ring: BinaryRing<u8> = BinaryRing::new();
    let b = vec![0x37u8];
    let z = vec![0x00u8];
    let result = ring.division_algorithm(&b, &z);
    assert!(matches!(result, Err(Error::DivisionByZero)));
}

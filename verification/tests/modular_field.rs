use algebra::field::BigNat;
use algebra::field::ModularField;
use algebra::Field;
use algebra::Matrix;
use algebra::Ring;

#[test]
fn test_inverse_1() {
    let ring = ModularField::new(BigNat::from_u64(7));
    let one = BigNat::from_u64(1);
    let two = BigNat::from_u64(2);
    let mat: Matrix<ModularField> =
        Matrix::new(&ring, vec![vec![one.clone(), two.clone()], vec![two, one]]);
    let inv = mat.inverse().expect("");
    let identity_matrix = Matrix::<ModularField>::one(&ring, 2);
    assert_eq!(identity_matrix, inv.mul(&mat).expect(""));
}

#[test]
fn test_inverse_2() {
    let ring = ModularField::new(BigNat::from_u64(7));
    let one = BigNat::from_u64(1);
    let two = BigNat::from_u64(2);
    let three = BigNat::from_u64(3);

    let mat: Matrix<ModularField> = Matrix::new(
        &ring,
        vec![
            vec![one.clone(), two.clone(), three.clone()],
            vec![two.clone(), one.clone(), three.clone()],
            vec![three.clone(), one.clone(), three.clone()],
        ],
    );

    let inv = mat.inverse().expect("");
    let identity_matrix = Matrix::<ModularField>::one(&ring, 3);
    assert_eq!(identity_matrix, inv.mul(&mat).expect(""));
}

#[test]
fn test_inverse_3() {
    let ring = ModularField::new(BigNat::from_u64(7));
    let one = BigNat::from_u64(1);
    let two = BigNat::from_u64(2);
    let three = BigNat::from_u64(3);

    let mat: Matrix<ModularField> = Matrix::new(
        &ring,
        vec![
            vec![one.clone(), two.clone(), three.clone()],
            vec![one.clone(), two.clone(), one.clone()],
            vec![three.clone(), one.clone(), three.clone()],
        ],
    );

    let inv = mat.inverse().expect("");
    let identity_matrix = Matrix::<ModularField>::one(&ring, 3);
    assert_eq!(identity_matrix, inv.mul(&mat).expect(""));
}

#[test]
fn test_modular_arithmetic() {
    let ring = ModularField::new(BigNat::from_u64(7));
    let three = BigNat::from_u64(3);
    let five = BigNat::from_u64(5);
    assert_eq!(ring.add(&three, &five), BigNat::from_u64(1));
    assert_eq!(ring.mul(&three, &five), BigNat::from_u64(1));
    assert_eq!(ring.neg(&three), BigNat::from_u64(4));
    assert_eq!(ring.neg(&ring.zero()), ring.zero());
    assert_eq!(ring.one(), BigNat::from_u64(1));
}

#[test]
fn test_modular_inverse() {
    let ring = ModularField::new(BigNat::from_u64(101));
    for a in 1..=100u64 {
        let m = BigNat::from_u64(a);
        let inv = ring.inv(&m).expect("non-zero residue");
        assert_eq!(ring.mul(&m, &inv), ring.one());
    }
    assert!(ring.inv(&ring.zero()).is_err());
}

#[test]
fn test_bignat_from_u64() {
    assert_eq!(BigNat::from_u64(0).limbs, Vec::<u32>::new());
    assert_eq!(BigNat::from_u64(7).limbs, vec![7u32]);
    assert_eq!(BigNat::from_u64(0x1_0000_0000).limbs, vec![0u32, 1u32]);
    assert_eq!(
        BigNat::from_u64(0xdead_beef_0bad_f00d).limbs,
        vec![0x0bad_f00du32, 0xdead_beefu32]
    );
}

#[test]
fn test_modular_inverse_wide_modulus() {
    // a prime just above one limb: 2^32 + 15
    let ring = ModularField::new(BigNat::from_u64(4294967311));
    for a in [1u64, 2, 12345, 4294967296, 4294967310] {
        let m = BigNat::from_u64(a);
        let inv = ring.inv(&m).expect("non-zero residue");
        assert_eq!(ring.mul(&m, &inv), ring.one());
    }
}

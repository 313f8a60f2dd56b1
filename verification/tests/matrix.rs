use algebra::binary::BinaryField;
use algebra::binary::BinaryRing;
use algebra::binary::Newable;
use algebra::int_ring::I32Ring;
use algebra::Matrix;

#[test]
fn test_zero() {
    let ring = I32Ring {};
    let lhs: Matrix<I32Ring> = Matrix::zero(&ring, 4);
    let res = Matrix::new(&ring, vec![vec![0i32; 4]; 4]);
    assert_eq!(lhs, res);
}

#[test]
fn test_one() {
    let ring = I32Ring {};
    let lhs: Matrix<I32Ring> = Matrix::one(&ring, 4);
    let res = Matrix::new(
        &ring,
        vec![
            vec![1, 0, 0, 0],
            vec![0, 1, 0, 0],
            vec![0, 0, 1, 0],
            vec![0, 0, 0, 1],
        ],
    );
    assert_eq!(lhs, res);
}

#[test]
fn test_add() {
    let ring = I32Ring {};
    let lhs: Matrix<I32Ring> = Matrix::new(&ring, vec![vec![1, 2, 5], vec![3, 4, 6]]);
    let rhs: Matrix<I32Ring> = Matrix::new(&ring, vec![vec![2, 3, 7], vec![4, 5, 8]]);
    let exp_res: Matrix<I32Ring> = Matrix::new(&ring, vec![vec![3, 5, 12], vec![7, 9, 14]]);
    let res = lhs.add(&rhs).unwrap();
    assert_eq!(exp_res, res);
}

#[test]
fn test_mul() {
    let ring = I32Ring {};
    let lhs: Matrix<I32Ring> = Matrix::new(&ring, vec![vec![1, 2, 3], vec![3, 4, 5]]);
    let rhs: Matrix<I32Ring> = Matrix::new(&ring, vec![vec![2, 3], vec![4, 5], vec![1, 2]]);
    let exp_res: Matrix<I32Ring> = Matrix::new(&ring, vec![vec![13, 19], vec![27, 39]]);
    let res = lhs.mul(&rhs).unwrap();
    assert_eq!(exp_res, res);
}

#[test]
fn test_transpose() {
    let ring = I32Ring {};
    let lhs: Matrix<I32Ring> = Matrix::new(&ring, vec![vec![1, 2], vec![3, 4], vec![5, 6]]);
    let exp_res: Matrix<I32Ring> = Matrix::new(&ring, vec![vec![1, 3, 5], vec![2, 4, 6]]);
    let res = lhs.transpose();
    assert_eq!(exp_res, res);
}

#[test]
fn test_sub() {
    let ring = I32Ring {};
    let lhs: Matrix<I32Ring> = Matrix::new(&ring, vec![vec![5, 7], vec![9, 11]]);
    let rhs: Matrix<I32Ring> = Matrix::new(&ring, vec![vec![1, 2], vec![3, 4]]);
    let exp_res: Matrix<I32Ring> = Matrix::new(&ring, vec![vec![4, 5], vec![6, 7]]);
    assert_eq!(exp_res, lhs.sub(&rhs).unwrap());
}

#[test]
fn test_scale() {
    let ring = I32Ring {};
    let lhs: Matrix<I32Ring> = Matrix::new(&ring, vec![vec![1, 2], vec![3, 4]]);
    let exp_res: Matrix<I32Ring> = Matrix::new(&ring, vec![vec![3, 6], vec![9, 12]]);
    assert_eq!(exp_res, lhs.scale(3));
}

#[test]
fn test_dimension_mismatch() {
    let ring = I32Ring {};
    let lhs: Matrix<I32Ring> = Matrix::new(&ring, vec![vec![1, 2, 5], vec![3, 4, 6]]);
    let rhs: Matrix<I32Ring> = Matrix::new(&ring, vec![vec![1, 2], vec![3, 4]]);
    assert!(lhs.add(&rhs).is_err());
    assert!(lhs.mul(&rhs).is_err());
}

#[test]
fn test_accessors() {
    let ring = I32Ring {};
    let m: Matrix<I32Ring> = Matrix::new(&ring, vec![vec![1, 2, 5], vec![3, 4, 6]]);
    assert_eq!(m.rows(), 2);
    assert_eq!(m.columns(), 3);
    assert_eq!(m.value_at(1, 2), 6);
}

#[test]
fn test_inverse_binary_field() {
    // Gauss-Jordan over GF(256): the inverse multiplies back to identity
    let field = BinaryField::<u8>::new();
    let mat: Matrix<BinaryField<u8>> = Matrix::new(
        &field,
        vec![vec![2u8, 3u8], vec![3u8, 2u8]],
    );
    let inv = mat.inverse().expect("invertible");
    let identity = Matrix::<BinaryField<u8>>::one(&field, 2);
    assert_eq!(identity, inv.mul(&mat).unwrap());
    assert_eq!(identity, mat.mul(&inv).unwrap());
}

#[test]
fn test_inverse_larger_binary_field() {
    let field = BinaryField::<u8>::new();
    let mat: Matrix<BinaryField<u8>> = Matrix::new(
        &field,
        vec![
            vec![1u8, 2u8, 3u8],
            vec![2u8, 1u8, 3u8],
            vec![3u8, 1u8, 3u8],
        ],
    );
    let inv = mat.inverse().expect("invertible");
    let identity = Matrix::<BinaryField<u8>>::one(&field, 3);
    assert_eq!(identity, inv.mul(&mat).unwrap());
}

#[test]
fn test_inverse_rectangular() {
    let field = BinaryField::<u8>::new();
    let mat: Matrix<BinaryField<u8>> = Matrix::new(
        &field,
        vec![vec![1u8, 2u8, 3u8], vec![4u8, 5u8, 6u8]],
    );
    assert!(mat.inverse().is_err());
}

#[test]
fn test_inverse_singular() {
    // over GF(256) a rank-deficient matrix has no pivot in some column
    let field = BinaryField::<u8>::new();
    let mat: Matrix<BinaryField<u8>> = Matrix::new(
        &field,
        vec![vec![1u8, 1u8], vec![1u8, 1u8]],
    );
    assert!(mat.inverse().is_err());
}

#[test]
fn test_identity_laws_binary_ring() {
    // the identity and zero matrices act as identities over GF(2)[x]
    let ring: BinaryRing<u8> = BinaryRing::new();
    let m: Matrix<BinaryRing<u8>> = Matrix::new(
        &ring,
        vec![
            vec![vec![0x03u8], vec![0x05u8]],
            vec![vec![0x02u8], vec![0x07u8, 0x01u8]],
        ],
    );
    let identity = Matrix::<BinaryRing<u8>>::one(&ring, 2);
    assert_eq!(identity.mul(&m).unwrap(), m);
    let zeros = Matrix::<BinaryRing<u8>>::zero(&ring, 2);
    assert_eq!(m.add(&zeros).unwrap(), m);
}

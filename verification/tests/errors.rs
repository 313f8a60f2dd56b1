use algebra::error::Error;

#[test]
fn test_error_messages() {
    assert_eq!(Error::DivisionByZero.message(), "Attempt to divide by zero");
    assert_eq!(Error::InversionOfZero.message(), "Attempt to invert zero");
    assert_eq!(
        Error::InversionOfRectangularMatrix.message(),
        "Error trying to invert a rectangular matrix"
    );
    assert_eq!(
        Error::InversionOfNonInvertibleSquareMatrix.message(),
        "Error trying to invert a non-invertible square matrix"
    );
    assert_eq!(
        Error::DimensionMismatchForMatrixAddition(2, 2, 3, 3).message(),
        "Error trying to add two matrices of incompatible dimensions"
    );
    assert_eq!(
        Error::DimensionMismatchForMatrixMultiplication(2, 2, 3, 3).message(),
        "Error trying to multiply two matrices of incompatible dimensions"
    );
}

#[test]
fn test_error_equality() {
    assert_eq!(Error::DivisionByZero, Error::DivisionByZero);
    assert_ne!(Error::DivisionByZero, Error::InversionOfZero);
    assert_eq!(
        Error::DimensionMismatchForMatrixAddition(1, 2, 3, 4),
        Error::DimensionMismatchForMatrixAddition(1, 2, 3, 4)
    );
}

use vstd::prelude::*;

verus! {

/// The failure conditions reported by the arithmetic operations of this
/// library.  Inversion of the additive identity is the only failure an
/// otherwise well-formed computation can run into; the matrix variants
/// carry the offending dimensions.
#[derive(Clone, Copy, Debug, PartialEq, Eq, Structural)]
pub enum Error {
    DivisionByZero,
    InversionOfZero,
    InversionOfNonInvertibleSquareMatrix,
    InversionOfRectangularMatrix,
    DimensionMismatchForMatrixAddition(usize, usize, usize, usize),
    DimensionMismatchForMatrixMultiplication(usize, usize, usize, usize),
}

impl Error {
    /// A fixed description of the failure; the dimension-mismatch
    /// variants carry the offending sizes in their fields.
    pub fn message(&self) -> (s: &'static str)
        ensures
            match self {
                Error::DivisionByZero => s@ == "Attempt to divide by zero"@,
                Error::InversionOfZero => s@ == "Attempt to invert zero"@,
                Error::InversionOfNonInvertibleSquareMatrix => s@
                    == "Error trying to invert a non-invertible square matrix"@,
                Error::InversionOfRectangularMatrix => s@
                    == "Error trying to invert a rectangular matrix"@,
                Error::DimensionMismatchForMatrixAddition(..) => s@
                    == "Error trying to add two matrices of incompatible dimensions"@,
                Error::DimensionMismatchForMatrixMultiplication(..) => s@
                    == "Error trying to multiply two matrices of incompatible dimensions"@,
            },
    {
        match self {
            Error::DivisionByZero => "Attempt to divide by zero",
            Error::InversionOfZero => "Attempt to invert zero",
            Error::InversionOfNonInvertibleSquareMatrix => {
                "Error trying to invert a non-invertible square matrix"
            },
            Error::InversionOfRectangularMatrix => {
                "Error trying to invert a rectangular matrix"
            },
            Error::DimensionMismatchForMatrixAddition(..) => {
                "Error trying to add two matrices of incompatible dimensions"
            },
            Error::DimensionMismatchForMatrixMultiplication(..) => {
                "Error trying to multiply two matrices of incompatible dimensions"
            },
        }
    }
}

} // verus!

//! Closed argument enumerations of the calling convention: orientation,
//! unit-diagonal and triangle selectors.

use vstd::prelude::*;

verus! {

/// Orientation selector for matrix operands.
#[derive(Clone, Copy, PartialEq, Eq, Structural, Debug)]
pub enum CoralTranspose {
    NoTranspose,
    Transpose,
    ConjugateTranspose,
}

/// Unit-diagonal selector for triangular operands.
#[derive(Clone, Copy, PartialEq, Eq, Structural, Debug)]
pub enum CoralDiag {
    UnitDiag,
    NonUnitDiag,
}

/// Which triangle of a symmetric or Hermitian operand is stored.
#[derive(Clone, Copy, PartialEq, Eq, Structural, Debug)]
pub enum CoralTriangular {
    UpperTriangular,
    LowerTriangular,
}

} // verus!

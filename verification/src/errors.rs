//! The errors that shapes and selections report.

use vstd::prelude::*;

verus! {

/// A number of axes, or an axis number, that does not fit a shape.
#[derive(Clone, Copy, Debug, PartialEq, Eq)]
pub struct DimensionMismatchingError {
    /// The dimension of the shape.
    pub dimension: usize,
    /// The number that was supplied: the length of a vector, or an axis number.
    pub vector_dimension: usize,
}

/// A coordinate that lies outside its axis.
#[derive(Clone, Copy, Debug, PartialEq, Eq)]
pub struct OutOfShapeError {
    /// The axis on which the coordinate lies.
    pub dimension: usize,
    /// The length of that axis.
    pub len: usize,
    /// The coordinate that was supplied.
    pub vector_index: isize,
}

/// Why a coordinate vector has no linear index.
#[derive(Clone, Copy, Debug, PartialEq, Eq)]
pub enum IndexCalculationError {
    /// The vector has another number of coordinates than the shape has axes.
    DimensionMismatching(DimensionMismatchingError),
    /// A coordinate of the vector is not below the length of its axis.
    OutOfShape(OutOfShapeError),
}

/// A storage slot that was read before anything was written to it.
#[derive(Clone, Copy, Debug, PartialEq, Eq)]
pub struct UninitializedError {
    /// The linear index of the slot.
    pub index: usize,
}

/// Why a selection yields no result.
#[derive(Clone, Copy, Debug, PartialEq, Eq)]
pub enum SelectionError {
    /// There is another number of selectors than the shape has axes.
    DimensionMismatching(DimensionMismatchingError),
    /// A selected slot holds no value.
    Uninitialized(UninitializedError),
}

} // verus!

//! Multi-dimensional arrays over a flat store: shapes that convert between
//! coordinate vectors and linear positions, and selections that pick, on every
//! axis, single coordinates, ranges or lists of them.

pub mod dummy_vector;
pub mod errors;
pub mod indexed;
pub mod layout;
pub mod map_vector;
pub mod multi_array;
pub mod shape;

pub use dummy_vector::{DummyIndex, IndexBound};
pub use errors::{
    DimensionMismatchingError, IndexCalculationError, OutOfShapeError, SelectionError,
    UninitializedError,
};
pub use indexed::Indexed;
pub use map_vector::PlaceHolder;
pub use multi_array::{
    DynMultiArray, MultiArray, MultiArray1, MultiArray2, MultiArray3, MultiArray4,
};
pub use shape::{
    CoordinateVector, DummyShape, DynShape, FixedShape, Shape, Shape1, Shape2, Shape3, Shape4,
};

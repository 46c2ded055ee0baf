//! Shapes: the lengths of the axes of an array, with the conversions between
//! coordinate vectors and positions in linear storage.

use crate::dummy_vector::{
    axis_coordinates, AxisIterator, DummyIndex, DummyVector, IndexBound,
};
use crate::errors::{DimensionMismatchingError, IndexCalculationError, OutOfShapeError};
use crate::layout::{
    advanced, advanced_from, coordinate_of, coords_of, in_shape, lemma_advanced,
    lemma_coordinate_step,
    lemma_linear_index_bound, lemma_linear_index_of_coords, lemma_positive_volume_lengths,
    linear_index, linear_index_from, nats, option_nat, representable, resolve_signed, stride,
    total_length,
    volume_from, zeros,
};
use vstd::arithmetic::div_mod::lemma_small_mod;
use vstd::prelude::*;

verus! {

/// A coordinate vector: one unsigned coordinate per axis.
pub trait CoordinateVector: Sized {
    /// The coordinates, axis 0 first.
    spec fn coords(&self) -> Seq<nat>;

    /// Number of coordinates.
    fn dimension_of(&self) -> (dimension: usize)
        ensures
            dimension == self.coords().len(),
    ;

    /// The coordinate along `axis`.
    fn coordinate(&self, axis: usize) -> (coordinate: usize)
        requires
            axis < self.coords().len(),
        ensures
            coordinate == self.coords()[axis as int],
    ;

    /// Replaces the coordinate along `axis`.
    fn set_coordinate(&mut self, axis: usize, coordinate: usize)
        requires
            axis < old(self).coords().len(),
        ensures
            final(self).coords() == old(self).coords().update(axis as int, coordinate as nat),
    ;
}

impl<const N: usize> CoordinateVector for [usize; N] {
    open spec fn coords(&self) -> Seq<nat> {
        nats(self@)
    }

    fn dimension_of(&self) -> (dimension: usize) {
        N
    }

    fn coordinate(&self, axis: usize) -> (coordinate: usize) {
        self[axis]
    }

    fn set_coordinate(&mut self, axis: usize, coordinate: usize) {
        self[axis] = coordinate;
        assert(nats(self@) =~= nats(old(self)@).update(axis as int, coordinate as nat));
    }
}

impl CoordinateVector for Vec<usize> {
    open spec fn coords(&self) -> Seq<nat> {
        nats(self@)
    }

    fn dimension_of(&self) -> (dimension: usize) {
        self.len()
    }

    fn coordinate(&self, axis: usize) -> (coordinate: usize) {
        self[axis]
    }

    fn set_coordinate(&mut self, axis: usize, coordinate: usize) {
        self[axis] = coordinate;
        assert(nats(self@) =~= nats(old(self)@).update(axis as int, coordinate as nat));
    }
}

/// The lengths of the axes of an array, laid out with the last axis varying
/// fastest.
pub trait Shape {
    /// The coordinate vectors of this shape.
    type VectorType: CoordinateVector;

    /// The lengths of the axes, axis 0 first.
    spec fn lengths(&self) -> Seq<nat>;

    /// The all-zero coordinate vector.
    fn zero(&self) -> (vector: Self::VectorType)
        ensures
            vector.coords() == zeros(self.lengths().len()),
    ;

    /// Number of elements: the product of the lengths.
    fn len(&self) -> (len: usize)
        ensures
            len == total_length(self.lengths()),
    ;

    /// Number of axes.
    fn dimension(&self) -> (dimension: usize)
        ensures
            dimension == self.lengths().len(),
    ;

    /// Number of coordinates of a vector.
    fn dimension_of(vector: &Self::VectorType) -> (dimension: usize)
        ensures
            dimension == vector.coords().len(),
    {
        vector.dimension_of()
    }

    /// The lengths of the axes.
    fn shape(&self) -> (shape: &[usize])
        ensures
            nats(shape@) == self.lengths(),
    ;

    /// The strides of the axes. That they and the total length are held in
    /// machine integers bounds the arithmetic of every shape.
    fn offset(&self) -> (offset: &[usize])
        ensures
            offset@.len() == self.lengths().len(),
            forall|i: int| 0 <= i < offset@.len() ==> offset@[i] == stride(self.lengths(), i),
            total_length(self.lengths()) <= usize::MAX,
    ;

    /// The length of one axis, or the mismatch if the shape has no such axis.
    fn len_of_dimension(&self, dimension: usize) -> (result: Result<
        usize,
        DimensionMismatchingError,
    >)
        ensures
            match result {
                Ok(len) => dimension < self.lengths().len() && len == self.lengths()[dimension as int],
                Err(error) => dimension >= self.lengths().len() && error.dimension
                    == self.lengths().len() && error.vector_dimension == dimension,
            },
    {
        let own = self.dimension();
        if dimension >= own {
            Err(DimensionMismatchingError { dimension: own, vector_dimension: dimension })
        } else {
            let shape = self.shape();
            assert(nats(shape@)[dimension as int] == shape@[dimension as int]);
            Ok(shape[dimension])
        }
    }

    /// The stride of one axis, or the mismatch if the shape has no such axis.
    fn offset_of_dimension(&self, dimension: usize) -> (result: Result<
        usize,
        DimensionMismatchingError,
    >)
        ensures
            match result {
                Ok(offset) => dimension < self.lengths().len() && offset == stride(
                    self.lengths(),
                    dimension as int,
                ),
                Err(error) => dimension >= self.lengths().len() && error.dimension
                    == self.lengths().len() && error.vector_dimension == dimension,
            },
    {
        let own = self.dimension();
        if dimension >= own {
            Err(DimensionMismatchingError { dimension: own, vector_dimension: dimension })
        } else {
            Ok(self.offset()[dimension])
        }
    }

    /// The position in linear storage of the element at `vector`.
    ///
    /// A vector with another number of coordinates than the shape has axes is
    /// a mismatch. Otherwise the first axis, from axis 0 up, on which the
    /// coordinate is not below the length is reported.
    fn index(&self, vector: &Self::VectorType) -> (result: Result<usize, IndexCalculationError>)
        ensures
            match result {
                Ok(index) => in_shape(self.lengths(), vector.coords()) && index == linear_index(
                    self.lengths(),
                    vector.coords(),
                ),
                Err(IndexCalculationError::DimensionMismatching(error)) => {
                    &&& vector.coords().len() != self.lengths().len()
                    &&& error.dimension == self.lengths().len()
                    &&& error.vector_dimension == vector.coords().len()
                },
                Err(IndexCalculationError::OutOfShape(error)) => {
                    &&& vector.coords().len() == self.lengths().len()
                    &&& error.dimension < self.lengths().len()
                    &&& forall|i: int|
                        0 <= i < error.dimension ==> vector.coords()[i] < self.lengths()[i]
                    &&& vector.coords()[error.dimension as int] >= self.lengths()[error.dimension as int]
                    &&& error.len == self.lengths()[error.dimension as int]
                    &&& error.vector_index == vector.coords()[error.dimension as int] as isize
                },
            },
    {
        let dimension = self.dimension();
        let given = Self::dimension_of(vector);
        if given != dimension {
            return Err(
                IndexCalculationError::DimensionMismatching(
                    DimensionMismatchingError { dimension, vector_dimension: given },
                ),
            );
        }
        let shape = self.shape();
        let offset = self.offset();
        let mut axis: usize = 0;
        while axis < dimension
            invariant
                axis <= dimension,
                dimension == self.lengths().len(),
                vector.coords().len() == dimension,
                nats(shape@) == self.lengths(),
                forall|i: int| 0 <= i < axis ==> vector.coords()[i] < self.lengths()[i],
            decreases dimension - axis,
        {
            let coordinate = vector.coordinate(axis);
            assert(nats(shape@)[axis as int] == shape@[axis as int]);
            if coordinate >= shape[axis] {
                return Err(
                    IndexCalculationError::OutOfShape(
                        OutOfShapeError {
                            dimension: axis,
                            len: shape[axis],
                            vector_index: #[verifier::truncate] (coordinate as isize),
                        },
                    ),
                );
            }
            axis += 1;
        }
        let mut index: usize = 0;
        while axis > 0
            invariant
                axis <= dimension,
                dimension == self.lengths().len(),
                in_shape(self.lengths(), vector.coords()),
                offset@.len() == dimension,
                forall|i: int| 0 <= i < offset@.len() ==> offset@[i] == stride(self.lengths(), i),
                total_length(self.lengths()) <= usize::MAX,
                index == linear_index_from(self.lengths(), vector.coords(), axis as int),
            decreases axis,
        {
            axis -= 1;
            proof {
                lemma_linear_index_bound(self.lengths(), vector.coords(), axis as int);
                lemma_linear_index_bound(self.lengths(), vector.coords(), axis as int + 1);
                lemma_partial_volume_fits(self.lengths(), offset@, axis as int);
                let c = vector.coords()[axis as int] as int;
                let s = stride(self.lengths(), axis as int) as int;
                assert(0 <= c * s) by (nonlinear_arith)
                    requires
                        0 <= c,
                        0 <= s,
                ;
            }
            index = vector.coordinate(axis) * offset[axis] + index;
        }
        Ok(index)
    }

    /// The coordinate vector of the element at position `index` of linear
    /// storage: the inverse of [`Shape::index`].
    fn vector(&self, index: usize) -> (vector: Self::VectorType)
        requires
            index < total_length(self.lengths()),
        ensures
            vector.coords() == coords_of(self.lengths(), index as nat),
            in_shape(self.lengths(), vector.coords()),
            linear_index(self.lengths(), vector.coords()) == index,
    {
        let dimension = self.dimension();
        let offset = self.offset();
        let mut vector = self.zero();
        let mut rest = index;
        let mut axis: usize = 0;
        proof {
            lemma_positive_volume_lengths(self.lengths(), 0);
            lemma_small_mod(index as nat, total_length(self.lengths()));
        }
        while axis < dimension
            invariant
                axis <= dimension,
                dimension == self.lengths().len(),
                vector.coords().len() == dimension,
                offset@.len() == dimension,
                forall|i: int| 0 <= i < offset@.len() ==> offset@[i] == stride(self.lengths(), i),
                forall|i: int| 0 <= i < dimension ==> self.lengths()[i] > 0,
                forall|i: int| 0 <= i <= dimension ==> volume_from(self.lengths(), i) > 0,
                rest == (index as nat) % volume_from(self.lengths(), axis as int),
                forall|i: int|
                    0 <= i < axis ==> vector.coords()[i] == coordinate_of(
                        self.lengths(),
                        index as nat,
                        i,
                    ),
            decreases dimension - axis,
        {
            proof {
                lemma_coordinate_step(self.lengths(), index as nat, axis as int);
            }
            let step = offset[axis];
            vector.set_coordinate(axis, rest / step);
            rest = rest % step;
            axis += 1;
        }
        proof {
            assert(vector.coords() =~= coords_of(self.lengths(), index as nat));
            lemma_linear_index_of_coords(self.lengths(), index as nat);
        }
        vector
    }

    /// Moves `vector` one step on in the order of linear storage, the last
    /// axis running fastest: the last coordinate goes up by one, and a
    /// coordinate that thereby reaches the length of its axis goes back to zero
    /// and carries into the axis before it. The result is `false` exactly when
    /// the carry leaves axis 0.
    fn next_vector(&self, vector: &mut Self::VectorType) -> (more: bool)
        requires
            old(vector).coords().len() == self.lengths().len(),
            forall|i: int|
                0 <= i < old(vector).coords().len() ==> old(vector).coords()[i] < usize::MAX,
        ensures
            (final(vector).coords(), more) == advanced(self.lengths(), old(vector).coords()),
            in_shape(self.lengths(), old(vector).coords()) ==> {
                let here = linear_index(self.lengths(), old(vector).coords());
                &&& more <==> here + 1 < total_length(self.lengths())
                &&& more ==> in_shape(self.lengths(), final(vector).coords()) && linear_index(
                    self.lengths(),
                    final(vector).coords(),
                ) == here + 1
                &&& !more ==> final(vector).coords() == zeros(self.lengths().len())
            },
    {
        let shape = self.shape();
        let mut axis = self.dimension();
        while axis > 0
            invariant
                axis <= self.lengths().len(),
                nats(shape@) == self.lengths(),
                vector.coords().len() == self.lengths().len(),
                forall|i: int| 0 <= i < axis ==> vector.coords()[i] < usize::MAX,
                advanced_from(self.lengths(), vector.coords(), axis as int - 1) == advanced(
                    self.lengths(),
                    old(vector).coords(),
                ),
            decreases axis,
        {
            axis -= 1;
            let bumped = vector.coordinate(axis) + 1;
            assert(nats(shape@)[axis as int] == shape@[axis as int]);
            if bumped == shape[axis] {
                vector.set_coordinate(axis, 0);
            } else {
                vector.set_coordinate(axis, bumped);
                proof {
                    if in_shape(self.lengths(), old(vector).coords()) {
                        lemma_advanced(self.lengths(), old(vector).coords());
                    }
                }
                return true;
            }
        }
        proof {
            if in_shape(self.lengths(), old(vector).coords()) {
                lemma_advanced(self.lengths(), old(vector).coords());
            }
        }
        false
    }

    /// The physical coordinate that the signed `index` names on the axis
    /// `dimension`: a negative index counts back from the end of the axis, and
    /// an index that falls outside the axis names nothing.
    fn actual_index(&self, dimension: usize, index: isize) -> (result: Option<usize>)
        requires
            dimension < self.lengths().len(),
        ensures
            option_nat(result) == resolve_signed(self.lengths()[dimension as int], index as int),
    {
        let shape = self.shape();
        assert(nats(shape@)[dimension as int] == shape@[dimension as int]);
        resolve(shape[dimension], index)
    }
}

/// A shape in which selections can be made.
pub trait DummyShape: Shape {
    /// The selector vectors of this shape.
    type DummyVectorType: DummyVector;

    /// The coordinates that `dummy_index` picks on the axis `dimension`, as an
    /// iterator that gives them in their order.
    ///
    /// A single index gives the coordinate it names, or nothing. A range gives
    /// the ascending run from its start to its end, or nothing if a bounded
    /// end of it names no coordinate of the axis. A list gives what its entries
    /// name, and passes over the entries that name nothing.
    fn iterator_of<'a>(&self, dimension: usize, dummy_index: &'a DummyIndex) -> (iterator:
        AxisIterator<'a>)
        requires
            dimension < self.lengths().len(),
        ensures
            iterator.remaining() == axis_coordinates(
                self.lengths()[dimension as int],
                *dummy_index,
            ),
    {
        let shape = self.shape();
        assert(nats(shape@)[dimension as int] == shape@[dimension as int]);
        let len = shape[dimension];
        match dummy_index {
            DummyIndex::Index(index) => match self.actual_index(dimension, *index) {
                Some(value) => AxisIterator::Run { next: value, end: value + 1 },
                None => AxisIterator::Run { next: 0, end: 0 },
            },
            DummyIndex::Range(start, end) => {
                let lower = match start {
                    IndexBound::Included(value) => self.actual_index(dimension, *value),
                    IndexBound::Excluded(value) => resolve_successor(len, *value),
                    IndexBound::Unbounded => Some(0),
                };
                let upper = match end {
                    IndexBound::Included(value) => resolve_successor(len, *value),
                    IndexBound::Excluded(value) => self.actual_index(dimension, *value),
                    IndexBound::Unbounded => Some(len),
                };
                match (lower, upper) {
                    (Some(next), Some(end)) => AxisIterator::Run { next, end },
                    _ => AxisIterator::Run { next: 0, end: 0 },
                }
            },
            DummyIndex::IndexArray(indexes) => AxisIterator::Picks { indexes, position: 0, len },
        }
    }
}

/// The physical coordinate that the signed `index` names on an axis of
/// length `len`.
pub fn resolve(len: usize, index: isize) -> (result: Option<usize>)
    ensures
        option_nat(result) == resolve_signed(len as nat, index as int),
{
    if index >= 0 {
        let coordinate = index as usize;
        if coordinate < len {
            Some(coordinate)
        } else {
            None
        }
    } else {
        let back: usize = (-(index + 1)) as usize + 1;
        if back <= len {
            Some(len - back)
        } else {
            None
        }
    }
}

/// The physical coordinate that the successor of the signed `index` names on
/// an axis of length `len`. The successor is taken among the integers: it
/// exists also for the greatest `isize`.
pub fn resolve_successor(len: usize, index: isize) -> (result: Option<usize>)
    ensures
        option_nat(result) == resolve_signed(len as nat, index + 1),
{
    if index < isize::MAX {
        resolve(len, index + 1)
    } else {
        let coordinate: usize = index as usize + 1;
        if coordinate < len {
            Some(coordinate)
        } else {
            None
        }
    }
}

/// The volume of the axes from `axis` on is a stride, or the total length; so
/// it is held in a machine integer.
proof fn lemma_partial_volume_fits(lengths: Seq<nat>, offset: Seq<usize>, axis: int)
    requires
        0 <= axis <= lengths.len(),
        offset.len() == lengths.len(),
        forall|i: int| 0 <= i < offset.len() ==> offset[i] == stride(lengths, i),
        total_length(lengths) <= usize::MAX,
    ensures
        volume_from(lengths, axis) <= usize::MAX,
{
    if axis > 0 {
        assert(offset[axis - 1] == stride(lengths, axis - 1));
    }
}

/// Whether every stride and the total length of an array with these axis
/// lengths can be held in a `usize`: what the constructors of the shapes ask.
pub fn is_representable(shape: &[usize]) -> (fits: bool)
    ensures
        fits == representable(nats(shape@)),
{
    let ghost lengths = nats(shape@);
    let mut volume: usize = 1;
    let mut axis = shape.len();
    while axis > 0
        invariant
            axis <= shape@.len(),
            lengths == nats(shape@),
            volume == volume_from(lengths, axis as int),
            forall|i: int| axis <= i <= lengths.len() ==> volume_from(lengths, i) <= usize::MAX,
        decreases axis,
    {
        axis -= 1;
        assert(lengths[axis as int] == shape@[axis as int]);
        match shape[axis].checked_mul(volume) {
            Some(product) => {
                volume = product;
            },
            None => {
                assert(volume_from(lengths, axis as int) > usize::MAX);
                return false;
            },
        }
    }
    true
}

/// The strides and the total length of an array with the axis lengths
/// `shape`.
pub fn offset<const DIMENSION: usize>(shape: &[usize; DIMENSION]) -> (result: (
    [usize; DIMENSION],
    usize,
))
    requires
        representable(nats(shape@)),
    ensures
        forall|i: int| 0 <= i < DIMENSION ==> result.0@[i] == stride(nats(shape@), i),
        result.1 == total_length(nats(shape@)),
{
    let ghost lengths = nats(shape@);
    let mut offset = [0usize;DIMENSION];
    let mut len: usize = 1;
    let mut axis = DIMENSION;
    while axis > 0
        invariant
            axis <= DIMENSION,
            lengths == nats(shape@),
            representable(lengths),
            len == volume_from(lengths, axis as int),
            forall|i: int| axis <= i < DIMENSION ==> offset@[i] == stride(lengths, i),
        decreases axis,
    {
        axis -= 1;
        assert(lengths[axis as int] == shape@[axis as int]);
        assert(volume_from(lengths, axis as int) <= usize::MAX);
        offset[axis] = len;
        len = shape[axis] * len;
    }
    (offset, len)
}

/// A shape of one axis.
#[derive(Clone, Copy)]
pub struct Shape1 {
    shape: [usize; 1],
    offset: [usize; 1],
}

impl Shape1 {
    #[verifier::type_invariant]
    spec fn consistent(&self) -> bool {
        self.offset@[0] == 1
    }

    /// The shape of a one-dimensional array of `shape[0]` elements.
    pub fn new(shape: [usize; 1]) -> (result: Self)
        ensures
            result.lengths() == nats(shape@),
    {
        Self { shape, offset: [1] }
    }
}

impl Shape for Shape1 {
    type VectorType = [usize; 1];

    closed spec fn lengths(&self) -> Seq<nat> {
        nats(self.shape@)
    }

    fn zero(&self) -> (vector: Self::VectorType) {
        let vector = [0usize];
        assert(vector.coords() =~= zeros(1));
        vector
    }

    fn len(&self) -> (len: usize) {
        proof {
            lemma_single_axis(self.lengths());
        }
        self.shape[0]
    }

    fn dimension(&self) -> (dimension: usize) {
        1
    }

    fn shape(&self) -> (shape: &[usize]) {
        self.shape.as_slice()
    }

    fn offset(&self) -> (offset: &[usize]) {
        proof {
            use_type_invariant(self);
            lemma_single_axis(self.lengths());
        }
        self.offset.as_slice()
    }
}

/// A shape with one axis has stride 1 and as many elements as the axis is long.
proof fn lemma_single_axis(lengths: Seq<nat>)
    requires
        lengths.len() == 1,
    ensures
        stride(lengths, 0) == 1,
        total_length(lengths) == lengths[0],
{
    assert(volume_from(lengths, 1) == 1);
    assert(volume_from(lengths, 0) == lengths[0] * volume_from(lengths, 1));
}

/// A shape whose number of axes, `DIMENSION`, is fixed at compile time.
#[derive(Clone, Copy)]
pub struct FixedShape<const DIMENSION: usize> {
    shape: [usize; DIMENSION],
    offset: [usize; DIMENSION],
    len: usize,
}

pub type Shape2 = FixedShape<2>;

pub type Shape3 = FixedShape<3>;

pub type Shape4 = FixedShape<4>;

pub type Shape5 = FixedShape<5>;

pub type Shape6 = FixedShape<6>;

pub type Shape7 = FixedShape<7>;

pub type Shape8 = FixedShape<8>;

pub type Shape9 = FixedShape<9>;

pub type Shape10 = FixedShape<10>;

pub type Shape11 = FixedShape<11>;

pub type Shape12 = FixedShape<12>;

pub type Shape13 = FixedShape<13>;

pub type Shape14 = FixedShape<14>;

pub type Shape15 = FixedShape<15>;

pub type Shape16 = FixedShape<16>;

pub type Shape17 = FixedShape<17>;

pub type Shape18 = FixedShape<18>;

pub type Shape19 = FixedShape<19>;

pub type Shape20 = FixedShape<20>;

impl<const DIMENSION: usize> FixedShape<DIMENSION> {
    #[verifier::type_invariant]
    spec fn consistent(&self) -> bool {
        &&& forall|i: int|
            0 <= i < DIMENSION ==> self.offset@[i] == stride(nats(self.shape@), i)
        &&& self.len == total_length(nats(self.shape@))
    }

    /// The shape of an array with the axis lengths `shape`.
    pub fn new(shape: [usize; DIMENSION]) -> (result: Self)
        requires
            representable(nats(shape@)),
        ensures
            result.lengths() == nats(shape@),
    {
        let (offset, len) = offset(&shape);
        Self { shape, offset, len }
    }
}

impl<const DIMENSION: usize> Shape for FixedShape<DIMENSION> {
    type VectorType = [usize; DIMENSION];

    closed spec fn lengths(&self) -> Seq<nat> {
        nats(self.shape@)
    }

    fn zero(&self) -> (vector: Self::VectorType) {
        broadcast use vstd::array::group_array_axioms;

        let vector = [0usize;DIMENSION];
        assert(vector == vstd::array::spec_array_fill_for_copy_type::<usize, DIMENSION>(0usize));
        assert(vector.coords() =~= zeros(DIMENSION as nat));
        vector
    }

    fn len(&self) -> (len: usize) {
        proof {
            use_type_invariant(self);
        }
        self.len
    }

    fn dimension(&self) -> (dimension: usize) {
        DIMENSION
    }

    fn shape(&self) -> (shape: &[usize]) {
        self.shape.as_slice()
    }

    fn offset(&self) -> (offset: &[usize]) {
        proof {
            use_type_invariant(self);
        }
        self.offset.as_slice()
    }
}

/// A shape whose number of axes is decided when it is made.
pub struct DynShape {
    shape: Vec<usize>,
    offset: Vec<usize>,
    len: usize,
}

impl DynShape {
    #[verifier::type_invariant]
    spec fn consistent(&self) -> bool {
        &&& self.offset@.len() == self.shape@.len()
        &&& forall|i: int|
            0 <= i < self.offset@.len() ==> self.offset@[i] == stride(nats(self.shape@), i)
        &&& self.len == total_length(nats(self.shape@))
    }

    /// The shape of an array with the axis lengths `shape`; there may be any
    /// number of axes, also none.
    pub fn new(shape: Vec<usize>) -> (result: Self)
        requires
            representable(nats(shape@)),
        ensures
            result.lengths() == nats(shape@),
    {
        let (offset, len) = Self::offset(&shape);
        Self { shape, offset, len }
    }

    /// The strides and the total length of an array with the axis lengths
    /// `shape`.
    pub fn offset(shape: &Vec<usize>) -> (result: (Vec<usize>, usize))
        requires
            representable(nats(shape@)),
        ensures
            result.0@.len() == shape@.len(),
            forall|i: int| 0 <= i < shape@.len() ==> result.0@[i] == stride(nats(shape@), i),
            result.1 == total_length(nats(shape@)),
    {
        let ghost lengths = nats(shape@);
        let dimension = shape.len();
        let mut offset: Vec<usize> = Vec::new();
        while offset.len() < dimension
            invariant
                offset@.len() <= dimension,
            decreases dimension - offset@.len(),
        {
            offset.push(0);
        }
        let mut len: usize = 1;
        let mut axis = dimension;
        while axis > 0
            invariant
                axis <= dimension,
                dimension == shape@.len(),
                offset@.len() == dimension,
                lengths == nats(shape@),
                representable(lengths),
                len == volume_from(lengths, axis as int),
                forall|i: int| axis <= i < dimension ==> offset@[i] == stride(lengths, i),
            decreases axis,
        {
            axis -= 1;
            assert(lengths[axis as int] == shape@[axis as int]);
            assert(volume_from(lengths, axis as int) <= usize::MAX);
            offset[axis] = len;
            len = shape[axis] * len;
        }
        (offset, len)
    }
}

impl Shape for DynShape {
    type VectorType = Vec<usize>;

    closed spec fn lengths(&self) -> Seq<nat> {
        nats(self.shape@)
    }

    fn zero(&self) -> (vector: Self::VectorType) {
        let dimension = self.shape.len();
        let mut vector: Vec<usize> = Vec::new();
        while vector.len() < dimension
            invariant
                vector@.len() <= dimension,
                forall|i: int| 0 <= i < vector@.len() ==> vector@[i] == 0,
            decreases dimension - vector@.len(),
        {
            vector.push(0);
        }
        assert(vector.coords() =~= zeros(dimension as nat));
        vector
    }

    fn len(&self) -> (len: usize) {
        proof {
            use_type_invariant(self);
        }
        self.len
    }

    fn dimension(&self) -> (dimension: usize) {
        self.shape.len()
    }

    fn dimension_of(vector: &Self::VectorType) -> (dimension: usize) {
        assert(vector.coords().len() == vector@.len());
        vector.len()
    }

    fn shape(&self) -> (shape: &[usize]) {
        self.shape.as_slice()
    }

    fn offset(&self) -> (offset: &[usize]) {
        proof {
            use_type_invariant(self);
        }
        self.offset.as_slice()
    }
}

impl DummyShape for Shape1 {
    type DummyVectorType = [DummyIndex; 1];
}

impl<const DIMENSION: usize> DummyShape for FixedShape<DIMENSION> {
    type DummyVectorType = [DummyIndex; DIMENSION];
}

impl DummyShape for DynShape {
    type DummyVectorType = Vec<DummyIndex>;
}

} // verus!

use multi_array::shape::{is_representable, offset, resolve, resolve_successor};
use multi_array::{
    DimensionMismatchingError, DynShape, IndexCalculationError, OutOfShapeError, Shape, Shape1,
    Shape2, Shape3,
};

#[test]
fn strides_and_total_length_of_three_axes() {
    let (strides, len) = offset(&[2, 3, 4]);
    assert_eq!(strides, [12, 4, 1]);
    assert_eq!(len, 24);
    let shape = Shape3::new([2, 3, 4]);
    assert_eq!(shape.len(), 24);
    assert_eq!(shape.dimension(), 3);
    assert_eq!(shape.shape(), &[2, 3, 4]);
    assert_eq!(shape.offset(), &[12, 4, 1]);
}

#[test]
fn strides_and_total_length_of_a_dynamic_shape() {
    let (strides, len) = DynShape::offset(&vec![5, 1, 7, 2]);
    assert_eq!(strides, vec![14, 14, 2, 1]);
    assert_eq!(len, 70);
    let shape = DynShape::new(vec![5, 1, 7, 2]);
    assert_eq!(shape.len(), 70);
    assert_eq!(shape.dimension(), 4);
    assert_eq!(shape.shape(), &[5, 1, 7, 2]);
    assert_eq!(shape.offset(), &[14, 14, 2, 1]);
    assert_eq!(shape.zero(), vec![0, 0, 0, 0]);
}

#[test]
fn a_shape_without_axes_has_one_element() {
    let shape = DynShape::new(Vec::new());
    assert_eq!(shape.len(), 1);
    assert_eq!(shape.dimension(), 0);
    assert_eq!(shape.index(&Vec::new()), Ok(0));
    assert_eq!(shape.vector(0), Vec::<usize>::new());
    let mut vector = shape.zero();
    assert!(!shape.next_vector(&mut vector));
    assert!(vector.is_empty());
}

#[test]
fn a_shape_of_one_axis() {
    let shape = Shape1::new([7]);
    assert_eq!(shape.len(), 7);
    assert_eq!(shape.dimension(), 1);
    assert_eq!(shape.shape(), &[7]);
    assert_eq!(shape.offset(), &[1]);
    assert_eq!(shape.zero(), [0]);
    assert_eq!(shape.index(&[6]), Ok(6));
    assert_eq!(shape.vector(4), [4]);
    assert_eq!(
        shape.index(&[7]),
        Err(IndexCalculationError::OutOfShape(OutOfShapeError {
            dimension: 0,
            len: 7,
            vector_index: 7
        }))
    );
}

#[test]
fn a_zero_length_axis_empties_the_shape() {
    let shape = Shape2::new([0, 5]);
    assert_eq!(shape.len(), 0);
    assert_eq!(shape.offset(), &[5, 1]);
    let other = Shape2::new([5, 0]);
    assert_eq!(other.len(), 0);
    assert_eq!(other.offset(), &[0, 1]);
}

#[test]
fn lengths_whose_products_overflow_are_not_representable() {
    assert!(is_representable(&[]));
    assert!(is_representable(&[usize::MAX]));
    assert!(is_representable(&[usize::MAX, 1]));
    assert!(is_representable(&[1, usize::MAX, 1]));
    assert!(!is_representable(&[usize::MAX, 2]));
    assert!(!is_representable(&[2, usize::MAX]));
    assert!(is_representable(&[usize::MAX, usize::MAX, 0]));
    assert!(!is_representable(&[0, usize::MAX, usize::MAX]));
}

#[test]
fn length_and_stride_of_an_axis() {
    let shape = Shape3::new([2, 3, 4]);
    assert_eq!(shape.len_of_dimension(0), Ok(2));
    assert_eq!(shape.len_of_dimension(2), Ok(4));
    assert_eq!(shape.offset_of_dimension(0), Ok(12));
    assert_eq!(shape.offset_of_dimension(1), Ok(4));
    assert_eq!(shape.offset_of_dimension(2), Ok(1));
    let mismatch = DimensionMismatchingError { dimension: 3, vector_dimension: 3 };
    assert_eq!(shape.len_of_dimension(3), Err(mismatch));
    assert_eq!(shape.offset_of_dimension(3), Err(mismatch));
    let far = DimensionMismatchingError { dimension: 3, vector_dimension: 17 };
    assert_eq!(shape.len_of_dimension(17), Err(far));
}

#[test]
fn linear_index_is_the_sum_of_coordinate_times_stride() {
    let shape = Shape3::new([2, 3, 4]);
    assert_eq!(shape.index(&[0, 0, 0]), Ok(0));
    assert_eq!(shape.index(&[1, 2, 3]), Ok(23));
    assert_eq!(shape.index(&[1, 0, 2]), Ok(14));
    let wide = Shape2::new([10, 11]);
    assert_eq!(wide.index(&[3, 4]), Ok(37));
}

#[test]
fn the_first_axis_out_of_range_is_reported() {
    let shape = Shape3::new([2, 3, 4]);
    assert_eq!(
        shape.index(&[1, 3, 4]),
        Err(IndexCalculationError::OutOfShape(OutOfShapeError {
            dimension: 1,
            len: 3,
            vector_index: 3
        }))
    );
    assert_eq!(
        shape.index(&[2, 9, 9]),
        Err(IndexCalculationError::OutOfShape(OutOfShapeError {
            dimension: 0,
            len: 2,
            vector_index: 2
        }))
    );
    assert_eq!(
        shape.index(&[1, 2, 4]),
        Err(IndexCalculationError::OutOfShape(OutOfShapeError {
            dimension: 2,
            len: 4,
            vector_index: 4
        }))
    );
}

#[test]
fn a_dynamic_shape_checks_the_number_of_coordinates() {
    let shape = DynShape::new(vec![2, 3]);
    assert_eq!(shape.index(&vec![1, 2]), Ok(5));
    assert_eq!(
        shape.index(&vec![1]),
        Err(IndexCalculationError::DimensionMismatching(DimensionMismatchingError {
            dimension: 2,
            vector_dimension: 1
        }))
    );
    assert_eq!(
        shape.index(&vec![1, 2, 0]),
        Err(IndexCalculationError::DimensionMismatching(DimensionMismatchingError {
            dimension: 2,
            vector_dimension: 3
        }))
    );
    assert_eq!(DynShape::dimension_of(&vec![4, 5, 6]), 3);
}

#[test]
fn coordinates_of_a_linear_index() {
    let shape = Shape3::new([2, 3, 4]);
    assert_eq!(shape.vector(0), [0, 0, 0]);
    assert_eq!(shape.vector(23), [1, 2, 3]);
    assert_eq!(shape.vector(14), [1, 0, 2]);
    let dynamic = DynShape::new(vec![10, 11]);
    assert_eq!(dynamic.vector(37), vec![3, 4]);
}

#[test]
fn index_of_vector_is_the_identity() {
    let shape = Shape3::new([3, 1, 5]);
    for i in 0..shape.len() {
        assert_eq!(shape.index(&shape.vector(i)), Ok(i));
    }
    let dynamic = DynShape::new(vec![2, 2, 2, 3]);
    for i in 0..dynamic.len() {
        assert_eq!(dynamic.index(&dynamic.vector(i)), Ok(i));
    }
}

#[test]
fn next_vector_visits_every_element_in_ascending_order() {
    let shape = Shape3::new([2, 3, 4]);
    let mut vector = shape.zero();
    for i in 0..shape.len() {
        assert_eq!(shape.index(&vector), Ok(i));
        let more = shape.next_vector(&mut vector);
        assert_eq!(more, i + 1 < shape.len());
    }
    assert_eq!(vector, [0, 0, 0]);
}

#[test]
fn next_vector_carries_into_the_axis_before() {
    let shape = Shape3::new([2, 3, 4]);
    let mut vector = [0, 0, 3];
    assert!(shape.next_vector(&mut vector));
    assert_eq!(vector, [0, 1, 0]);
    let mut vector = [0, 2, 3];
    assert!(shape.next_vector(&mut vector));
    assert_eq!(vector, [1, 0, 0]);
    let mut vector = [1, 2, 3];
    assert!(!shape.next_vector(&mut vector));
    assert_eq!(vector, [0, 0, 0]);
    let mut vector = [0, 1, 1];
    assert!(shape.next_vector(&mut vector));
    assert_eq!(vector, [0, 1, 2]);
}

#[test]
fn next_vector_outside_the_shape_steps_without_carry() {
    let shape = Shape2::new([0, 5]);
    let mut vector = [0, 4];
    assert!(shape.next_vector(&mut vector));
    assert_eq!(vector, [1, 0]);
    let mut vector = [7, 9];
    assert!(shape.next_vector(&mut vector));
    assert_eq!(vector, [7, 10]);
}

#[test]
fn a_non_negative_index_names_itself() {
    let shape = Shape2::new([3, 5]);
    assert_eq!(shape.actual_index(1, 0), Some(0));
    assert_eq!(shape.actual_index(1, 4), Some(4));
    assert_eq!(shape.actual_index(1, 5), None);
    assert_eq!(shape.actual_index(0, 2), Some(2));
    assert_eq!(shape.actual_index(0, 3), None);
    assert_eq!(shape.actual_index(0, isize::MAX), None);
}

#[test]
fn a_negative_index_counts_from_the_end() {
    let shape = Shape2::new([3, 5]);
    assert_eq!(shape.actual_index(1, -1), Some(4));
    assert_eq!(shape.actual_index(1, -5), Some(0));
    assert_eq!(shape.actual_index(1, -6), None);
    assert_eq!(shape.actual_index(0, -3), Some(0));
    assert_eq!(shape.actual_index(0, -4), None);
    assert_eq!(shape.actual_index(0, isize::MIN), None);
}

#[test]
fn nothing_is_named_on_an_axis_of_length_zero() {
    assert_eq!(resolve(0, 0), None);
    assert_eq!(resolve(0, -1), None);
    assert_eq!(resolve(0, 1), None);
}

#[test]
fn resolve_handles_the_ends_of_the_integer_range() {
    assert_eq!(resolve(usize::MAX, isize::MAX), Some(isize::MAX as usize));
    assert_eq!(resolve(usize::MAX, isize::MIN), Some(usize::MAX - (isize::MAX as usize) - 1));
    assert_eq!(resolve(isize::MAX as usize, isize::MAX), None);
    assert_eq!(resolve(isize::MAX as usize, isize::MIN), None);
    assert_eq!(resolve(isize::MAX as usize + 1, isize::MIN), Some(0));
}

#[test]
fn the_successor_of_an_index_is_resolved_among_the_integers() {
    assert_eq!(resolve_successor(5, 3), Some(4));
    assert_eq!(resolve_successor(5, 4), None);
    assert_eq!(resolve_successor(5, -1), Some(0));
    assert_eq!(resolve_successor(5, -2), Some(4));
    assert_eq!(resolve_successor(5, -6), Some(0));
    assert_eq!(resolve_successor(5, -7), None);
    assert_eq!(resolve_successor(usize::MAX, isize::MAX), Some(isize::MAX as usize + 1));
    assert_eq!(resolve_successor(isize::MAX as usize + 1, isize::MAX), None);
}

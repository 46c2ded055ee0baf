use multi_array::dummy_vector::{AxisIterator, DummyAccessIterator, DummyAccessPolicy};
use multi_array::{
    DimensionMismatchingError, DummyIndex, DummyShape, DynMultiArray, DynShape, IndexBound,
    MultiArray2, SelectionError, Shape, Shape1, Shape2, Shape3, UninitializedError,
};

fn drain(mut iterator: AxisIterator) -> Vec<usize> {
    let mut given = Vec::new();
    while let Some(coordinate) = iterator.next() {
        given.push(coordinate);
    }
    assert_eq!(iterator.next(), None);
    given
}

fn range(start: IndexBound, end: IndexBound) -> DummyIndex {
    DummyIndex::Range(start, end)
}

#[test]
fn fuck() {
    let vector = MultiArray2::<u64>::new_by(Shape2::new([10, 11]), |i: usize| i as u64);
    let row = [DummyIndex::from(0isize), range(IndexBound::Unbounded, IndexBound::Unbounded)];
    let mut seen = Vec::new();
    for val in vector.get(row).unwrap() {
        println!("{}, ", val.unwrap());
        seen.push(val.unwrap());
    }
    assert_eq!(seen, vec![0, 1, 2, 3, 4, 5, 6, 7, 8, 9, 10]);
}

#[test]
fn the_kinds_of_selectors() {
    let single = DummyIndex::Index(3);
    let run = range(IndexBound::Included(0), IndexBound::Unbounded);
    let list = DummyIndex::IndexArray(vec![1, 2]);
    assert!(!single.dummy());
    assert!(run.dummy());
    assert!(list.dummy());
    assert!(!single.continuous());
    assert!(run.continuous());
    assert!(!list.continuous());
    assert!(!single.discrete());
    assert!(!run.discrete());
    assert!(list.discrete());
}

#[test]
fn selectors_from_plain_values() {
    assert!(matches!(DummyIndex::from(-4isize), DummyIndex::Index(-4)));
    assert!(matches!(DummyIndex::from(9usize), DummyIndex::Index(9)));
    assert!(matches!(DummyIndex::from(usize::MAX), DummyIndex::Index(-1)));
    assert!(matches!(
        DummyIndex::from(2isize..-1isize),
        DummyIndex::Range(IndexBound::Included(2), IndexBound::Excluded(-1))
    ));
    let entries: [isize; 4] = [0, 2, 2, -1];
    match DummyIndex::from(&entries[..]) {
        DummyIndex::IndexArray(list) => assert_eq!(list, vec![0, 2, 2, -1]),
        _ => panic!("a list of indices makes a list selector"),
    }
}

#[test]
fn a_single_index_gives_one_coordinate_or_none() {
    let shape = Shape1::new([5]);
    assert_eq!(drain(shape.iterator_of(0, &DummyIndex::Index(-1))), vec![4]);
    assert_eq!(drain(shape.iterator_of(0, &DummyIndex::Index(0))), vec![0]);
    assert_eq!(drain(shape.iterator_of(0, &DummyIndex::Index(-6))), Vec::<usize>::new());
    assert_eq!(drain(shape.iterator_of(0, &DummyIndex::Index(5))), Vec::<usize>::new());
    assert_eq!(shape.actual_index(0, -1), Some(4));
    assert_eq!(shape.actual_index(0, -6), None);
}

#[test]
fn a_range_gives_the_run_between_its_bounds() {
    let shape = Shape1::new([5]);
    let all = range(IndexBound::Unbounded, IndexBound::Unbounded);
    assert_eq!(drain(shape.iterator_of(0, &all)), vec![0, 1, 2, 3, 4]);
    let middle = range(IndexBound::Included(1), IndexBound::Excluded(4));
    assert_eq!(drain(shape.iterator_of(0, &middle)), vec![1, 2, 3]);
    let closed = range(IndexBound::Included(1), IndexBound::Included(3));
    assert_eq!(drain(shape.iterator_of(0, &closed)), vec![1, 2, 3]);
    let open = range(IndexBound::Excluded(1), IndexBound::Excluded(4));
    assert_eq!(drain(shape.iterator_of(0, &open)), vec![2, 3]);
    let tail = range(IndexBound::Included(3), IndexBound::Unbounded);
    assert_eq!(drain(shape.iterator_of(0, &tail)), vec![3, 4]);
    let head = range(IndexBound::Unbounded, IndexBound::Excluded(2));
    assert_eq!(drain(shape.iterator_of(0, &head)), vec![0, 1]);
}

#[test]
fn a_range_resolves_negative_bounds() {
    let shape = Shape1::new([5]);
    let last_two = range(IndexBound::Included(-2), IndexBound::Unbounded);
    assert_eq!(drain(shape.iterator_of(0, &last_two)), vec![3, 4]);
    let but_last = range(IndexBound::Unbounded, IndexBound::Excluded(-1));
    assert_eq!(drain(shape.iterator_of(0, &but_last)), vec![0, 1, 2, 3]);
    let after_first = range(IndexBound::Excluded(-5), IndexBound::Included(-3));
    assert_eq!(drain(shape.iterator_of(0, &after_first)), vec![1, 2]);
    let up_to_last = range(IndexBound::Unbounded, IndexBound::Included(-1));
    assert_eq!(drain(shape.iterator_of(0, &up_to_last)), Vec::<usize>::new());
}

#[test]
fn a_range_with_a_bound_off_the_axis_gives_nothing() {
    let shape = Shape1::new([5]);
    let end_at_length = range(IndexBound::Unbounded, IndexBound::Excluded(5));
    assert_eq!(drain(shape.iterator_of(0, &end_at_length)), Vec::<usize>::new());
    let end_is_last = range(IndexBound::Included(0), IndexBound::Included(4));
    assert_eq!(drain(shape.iterator_of(0, &end_is_last)), Vec::<usize>::new());
    let start_off = range(IndexBound::Included(5), IndexBound::Unbounded);
    assert_eq!(drain(shape.iterator_of(0, &start_off)), Vec::<usize>::new());
    let start_after_last = range(IndexBound::Excluded(4), IndexBound::Unbounded);
    assert_eq!(drain(shape.iterator_of(0, &start_after_last)), Vec::<usize>::new());
    let far = range(IndexBound::Included(-6), IndexBound::Unbounded);
    assert_eq!(drain(shape.iterator_of(0, &far)), Vec::<usize>::new());
    let backwards = range(IndexBound::Included(3), IndexBound::Excluded(1));
    assert_eq!(drain(shape.iterator_of(0, &backwards)), Vec::<usize>::new());
    let greatest = range(IndexBound::Unbounded, IndexBound::Included(isize::MAX));
    assert_eq!(drain(shape.iterator_of(0, &greatest)), Vec::<usize>::new());
}

#[test]
fn a_list_gives_its_entries_in_order_and_skips_what_names_nothing() {
    let shape = Shape1::new([3]);
    let list = DummyIndex::IndexArray(vec![0, 2, 2, -1]);
    assert_eq!(drain(shape.iterator_of(0, &list)), vec![0, 2, 2, 2]);
    let holes = DummyIndex::IndexArray(vec![3, 1, -4, -3, 7, 0]);
    assert_eq!(drain(shape.iterator_of(0, &holes)), vec![1, 0, 0]);
    let nothing = DummyIndex::IndexArray(vec![3, -4]);
    assert_eq!(drain(shape.iterator_of(0, &nothing)), Vec::<usize>::new());
    let empty = DummyIndex::IndexArray(Vec::new());
    assert_eq!(drain(shape.iterator_of(0, &empty)), Vec::<usize>::new());
}

#[test]
fn an_iterator_is_made_for_the_axis_that_is_named() {
    let shape = Shape3::new([2, 3, 4]);
    let all = range(IndexBound::Unbounded, IndexBound::Unbounded);
    assert_eq!(drain(shape.iterator_of(0, &all)), vec![0, 1]);
    assert_eq!(drain(shape.iterator_of(1, &all)), vec![0, 1, 2]);
    assert_eq!(drain(shape.iterator_of(2, &all)), vec![0, 1, 2, 3]);
    assert_eq!(drain(shape.iterator_of(2, &DummyIndex::Index(-1))), vec![3]);
    assert_eq!(drain(shape.iterator_of(0, &DummyIndex::Index(-1))), vec![1]);
}

fn coordinates<S: DummyShape>(shape: &S, selectors: &S::DummyVectorType) -> Vec<S::VectorType>
where
    S::VectorType: Clone + PartialEq + std::fmt::Debug,
{
    let mut now = shape.zero();
    let mut seen = Vec::new();
    if let Some(mut iterator) = DummyAccessIterator::new(shape, selectors, &mut now) {
        seen.push(now.clone());
        while iterator.next(&mut now, shape, selectors) {
            seen.push(now.clone());
        }
        assert_eq!(Some(&now), seen.first());
    }
    seen
}

#[test]
fn a_row_of_a_matrix_in_ascending_column_order() {
    let shape = Shape2::new([10, 11]);
    let row = [DummyIndex::Index(0), range(IndexBound::Unbounded, IndexBound::Unbounded)];
    let seen = coordinates(&shape, &row);
    assert_eq!(seen.len(), 11);
    for (column, vector) in seen.iter().enumerate() {
        assert_eq!(*vector, [0, column]);
    }
}

#[test]
fn a_list_keeps_duplicates_and_resolves_negative_entries() {
    let shape = Shape2::new([3, 4]);
    let selectors = [DummyIndex::IndexArray(vec![0, 2, 2, -1]), DummyIndex::Index(0)];
    assert_eq!(coordinates(&shape, &selectors), vec![[0, 0], [2, 0], [2, 0], [2, 0]]);
}

#[test]
fn the_last_axis_runs_fastest() {
    let shape = Shape3::new([2, 3, 4]);
    let selectors = [
        range(IndexBound::Unbounded, IndexBound::Unbounded),
        DummyIndex::IndexArray(vec![2, 0]),
        range(IndexBound::Included(1), IndexBound::Excluded(3)),
    ];
    assert_eq!(
        coordinates(&shape, &selectors),
        vec![
            [0, 2, 1],
            [0, 2, 2],
            [0, 0, 1],
            [0, 0, 2],
            [1, 2, 1],
            [1, 2, 2],
            [1, 0, 1],
            [1, 0, 2]
        ]
    );
}

#[test]
fn selecting_everything_follows_linear_storage() {
    let shape = DynShape::new(vec![2, 3, 2]);
    let selectors = vec![
        range(IndexBound::Unbounded, IndexBound::Unbounded),
        range(IndexBound::Unbounded, IndexBound::Unbounded),
        range(IndexBound::Unbounded, IndexBound::Unbounded),
    ];
    let seen = coordinates(&shape, &selectors);
    assert_eq!(seen.len(), shape.len());
    for (i, vector) in seen.iter().enumerate() {
        assert_eq!(shape.index(vector), Ok(i));
    }
}

#[test]
fn an_axis_that_gives_nothing_empties_the_selection() {
    let shape = Shape2::new([3, 4]);
    let selectors = [range(IndexBound::Unbounded, IndexBound::Unbounded), DummyIndex::Index(4)];
    let mut now = shape.zero();
    assert!(DummyAccessIterator::new(&shape, &selectors, &mut now).is_none());
    assert_eq!(coordinates(&shape, &selectors), Vec::<[usize; 2]>::new());
}

#[test]
fn a_selection_of_one_element_ends_at_the_first_step() {
    let shape = Shape2::new([3, 4]);
    let selectors = [DummyIndex::Index(-1), DummyIndex::Index(1)];
    let mut now = shape.zero();
    let mut iterator = DummyAccessIterator::new(&shape, &selectors, &mut now).unwrap();
    assert_eq!(now, [2, 1]);
    assert!(!iterator.next(&mut now, &shape, &selectors));
    assert_eq!(now, [2, 1]);
}

#[test]
fn a_selection_without_axes_has_one_element() {
    let shape = DynShape::new(Vec::new());
    let selectors: Vec<DummyIndex> = Vec::new();
    assert_eq!(coordinates(&shape, &selectors), vec![Vec::<usize>::new()]);
    let array = DynMultiArray::<u8>::new_with(shape, 7);
    assert_eq!(array.get(Vec::new()).unwrap(), vec![&Some(7)]);
}

#[test]
fn a_selection_over_an_empty_array_is_empty() {
    let array = MultiArray2::<u8>::new(Shape2::new([0, 5]));
    let everything = [
        range(IndexBound::Unbounded, IndexBound::Unbounded),
        range(IndexBound::Unbounded, IndexBound::Unbounded),
    ];
    assert_eq!(array.get(everything), Ok(Vec::new()));
    let picks = [DummyIndex::Index(0), DummyIndex::IndexArray(vec![0, 1, -1])];
    assert_eq!(array.get(picks), Ok(Vec::new()));
    let shape = Shape2::new([0, 5]);
    let selectors = [DummyIndex::Index(-1), DummyIndex::Index(2)];
    assert_eq!(coordinates(&shape, &selectors), Vec::<[usize; 2]>::new());
}

#[test]
fn too_few_selectors_for_a_dynamic_shape_are_a_mismatch() {
    let array = DynMultiArray::<u8>::new_with(DynShape::new(vec![2, 3]), 1);
    assert_eq!(
        array.get(vec![DummyIndex::Index(0)]),
        Err(SelectionError::DimensionMismatching(DimensionMismatchingError {
            dimension: 2,
            vector_dimension: 1
        }))
    );
    assert_eq!(
        array.get(vec![DummyIndex::Index(0), DummyIndex::Index(0), DummyIndex::Index(0)]),
        Err(SelectionError::DimensionMismatching(DimensionMismatchingError {
            dimension: 2,
            vector_dimension: 3
        }))
    );
    let shape = DynShape::new(vec![2, 3]);
    let store: Vec<Option<u8>> = vec![None, None, None, None, None, None];
    let refused = DummyAccessPolicy::new(&store, vec![DummyIndex::Index(0)], &shape);
    assert_eq!(
        refused.err(),
        Some(DimensionMismatchingError { dimension: 2, vector_dimension: 1 })
    );
}

#[test]
fn the_first_slot_without_a_value_ends_the_selection() {
    let array = MultiArray2::<u8>::new(Shape2::new([3, 4]));
    let selectors = [DummyIndex::Index(1), range(IndexBound::Included(2), IndexBound::Unbounded)];
    assert_eq!(
        array.get(selectors),
        Err(SelectionError::Uninitialized(UninitializedError { index: 6 }))
    );
}

#[test]
fn the_slots_of_a_selection_come_with_their_linear_index() {
    let shape = Shape2::new([3, 4]);
    let store: Vec<Option<char>> =
        "abcdefghijkl".chars().map(|c| if c == 'g' { None } else { Some(c) }).collect();
    let selectors = [
        DummyIndex::IndexArray(vec![-1, 1]),
        range(IndexBound::Included(1), IndexBound::Excluded(3)),
    ];
    let policy = DummyAccessPolicy::new(&store, selectors, &shape).unwrap();
    let mut access = policy.iter();
    assert_eq!(access.next(), Some((9, &Some('j'))));
    assert_eq!(access.next(), Some((10, &Some('k'))));
    assert_eq!(access.next(), Some((5, &Some('f'))));
    assert_eq!(access.next(), Some((6, &None)));
    assert_eq!(access.next(), None);
    assert_eq!(access.next(), None);
    let mut again = policy.iter();
    assert_eq!(again.next(), Some((9, &Some('j'))));
}

#[test]
fn the_selected_values_of_an_array() {
    let array = MultiArray2::<usize>::new_by(Shape2::new([3, 4]), |i: usize| i * i);
    let selectors = [
        range(IndexBound::Included(-2), IndexBound::Unbounded),
        DummyIndex::IndexArray(vec![3, 0, 3]),
    ];
    let found: Vec<usize> = array.get(selectors).unwrap().into_iter().map(|v| v.unwrap()).collect();
    assert_eq!(found, vec![49, 16, 49, 121, 64, 121]);
}

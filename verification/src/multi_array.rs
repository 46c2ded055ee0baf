//! Arrays of any number of axes over a flat store of optional elements.

use crate::dummy_vector::{
    axes, lemma_empty_shape_selects_nothing, selected_index, selection, DummyAccessPolicy,
    DummyVector,
};
use crate::errors::{SelectionError, UninitializedError};
use crate::layout::{in_shape, linear_index, total_length};
use crate::shape::{CoordinateVector, DummyShape, DynShape, Shape, Shape1, Shape2, Shape3, Shape4};
use vstd::prelude::*;

verus! {

/// An array with the axes of a shape. Its elements lie in one flat store, the
/// last axis running fastest; a slot of the store holds a value or nothing.
pub struct MultiArray<T: Sized, S: Shape> {
    list: Vec<Option<T>>,
    shape: S,
}

pub type MultiArray1<T> = MultiArray<T, Shape1>;

pub type MultiArray2<T> = MultiArray<T, Shape2>;

pub type MultiArray3<T> = MultiArray<T, Shape3>;

pub type MultiArray4<T> = MultiArray<T, Shape4>;

pub type DynMultiArray<T> = MultiArray<T, DynShape>;

impl<T: Sized, S: Shape> MultiArray<T, S> {
    #[verifier::type_invariant]
    spec fn consistent(&self) -> bool {
        self.list@.len() == total_length(self.shape.lengths())
    }

    /// The slots of the store, in the order of linear storage.
    pub closed spec fn slots(&self) -> Seq<Option<T>> {
        self.list@
    }

    /// The lengths of the axes.
    pub closed spec fn lengths(&self) -> Seq<nat> {
        self.shape.lengths()
    }

    /// An array in which no slot holds a value yet.
    pub fn new(shape: S) -> (result: Self)
        ensures
            result.lengths() == shape.lengths(),
            result.slots().len() == total_length(shape.lengths()),
            forall|i: int| 0 <= i < result.slots().len() ==> result.slots()[i] is None,
    {
        let len = shape.len();
        let mut list: Vec<Option<T>> = Vec::new();
        while list.len() < len
            invariant
                list@.len() <= len,
                forall|i: int| 0 <= i < list@.len() ==> list@[i] is None,
            decreases len - list@.len(),
        {
            list.push(None);
        }
        Self { list, shape }
    }

    /// An array in which every slot holds a clone of `value`.
    pub fn new_with(shape: S, value: T) -> (result: Self) where T: Clone
        ensures
            result.lengths() == shape.lengths(),
            result.slots().len() == total_length(shape.lengths()),
            forall|i: int|
                0 <= i < result.slots().len() ==> (#[trigger] result.slots()[i]) is Some && cloned(
                    value,
                    result.slots()[i]->0,
                ),
    {
        let len = shape.len();
        let mut list: Vec<Option<T>> = Vec::new();
        while list.len() < len
            invariant
                list@.len() <= len,
                forall|i: int|
                    0 <= i < list@.len() ==> (#[trigger] list@[i]) is Some && cloned(
                        value,
                        list@[i]->0,
                    ),
            decreases len - list@.len(),
        {
            list.push(Some(value.clone()));
        }
        Self { list, shape }
    }

    /// An array in which the slot at every linear index holds what `generator`
    /// makes of that index.
    pub fn new_by<G>(shape: S, generator: G) -> (result: Self) where G: Fn(usize) -> T
        requires
            forall|i: usize| i < total_length(shape.lengths()) ==> call_requires(generator, (i,)),
        ensures
            result.lengths() == shape.lengths(),
            result.slots().len() == total_length(shape.lengths()),
            forall|i: int|
                0 <= i < result.slots().len() ==> (#[trigger] result.slots()[i]) is Some
                    && call_ensures(generator, (i as usize,), result.slots()[i]->0),
    {
        let len = shape.len();
        let mut list: Vec<Option<T>> = Vec::new();
        while list.len() < len
            invariant
                list@.len() <= len,
                len == total_length(shape.lengths()),
                forall|i: usize| i < total_length(shape.lengths()) ==> call_requires(generator, (i,)),
                forall|i: int|
                    0 <= i < list@.len() ==> (#[trigger] list@[i]) is Some && call_ensures(
                        generator,
                        (i as usize,),
                        list@[i]->0,
                    ),
            decreases len - list@.len(),
        {
            let index = list.len();
            list.push(Some(generator(index)));
        }
        Self { list, shape }
    }

    /// The shape of the array.
    pub fn shape(&self) -> (shape: &S)
        ensures
            shape.lengths() == self.lengths(),
            self.slots().len() == total_length(self.lengths()),
    {
        proof {
            use_type_invariant(self);
        }
        &self.shape
    }

    /// The value in the slot at the linear index `index`, if there is such a
    /// slot and it holds a value.
    pub fn element(&self, index: usize) -> (value: Option<&T>)
        ensures
            value is Some <==> index < self.slots().len() && self.slots()[index as int] is Some,
            value matches Some(held) ==> *held == self.slots()[index as int]->0,
    {
        if index < self.list.len() {
            self.list[index].as_ref()
        } else {
            None
        }
    }

    /// The slots that `vector` selects, in the order of the traversal: every
    /// combination of one picked coordinate per axis, the last axis running
    /// fastest.
    ///
    /// There must be one selector for every axis. A selected slot that holds no
    /// value ends the selection: the first such slot is reported, and nothing
    /// is returned. So every slot that is returned holds a value.
    pub fn get<'a>(&'a self, vector: S::DummyVectorType) -> (result: Result<
        Vec<&'a Option<T>>,
        SelectionError,
    >) where S: DummyShape
        ensures
            vector.selectors().len() == self.lengths().len() && total_length(self.lengths()) == 0
                ==> (result matches Ok(found) && found@.len() == 0),
            match result {
                Ok(found) => {
                    &&& vector.selectors().len() == self.lengths().len()
                    &&& found@.len() == selection(axes(self.lengths(), vector.selectors())).len()
                    &&& forall|k: int|
                        0 <= k < found@.len() ==> {
                            &&& selected_index(self.lengths(), vector.selectors(), k)
                                < self.slots().len()
                            &&& *(#[trigger] found@[k]) == self.slots()[selected_index(
                                self.lengths(),
                                vector.selectors(),
                                k,
                            ) as int]
                            &&& *found@[k] is Some
                        }
                },
                Err(SelectionError::DimensionMismatching(error)) => {
                    &&& vector.selectors().len() != self.lengths().len()
                    &&& error.dimension == self.lengths().len()
                    &&& error.vector_dimension == vector.selectors().len()
                },
                Err(SelectionError::Uninitialized(error)) => {
                    &&& vector.selectors().len() == self.lengths().len()
                    &&& exists|k: int|
                        {
                            &&& 0 <= k < selection(axes(self.lengths(), vector.selectors())).len()
                            &&& error.index == #[trigger] selected_index(
                                self.lengths(),
                                vector.selectors(),
                                k,
                            )
                            &&& error.index < self.slots().len()
                            &&& self.slots()[error.index as int] is None
                            &&& forall|j: int|
                                0 <= j < k ==> self.slots()[#[trigger] selected_index(
                                    self.lengths(),
                                    vector.selectors(),
                                    j,
                                ) as int] is Some
                        }
                },
            },
    {
        proof {
            use_type_invariant(self);
        }
        let ghost selectors = vector.selectors();
        let ghost all = selection(axes(self.lengths(), selectors));
        let policy = match DummyAccessPolicy::new(&self.list, vector, &self.shape) {
            Ok(policy) => policy,
            Err(error) => {
                return Err(SelectionError::DimensionMismatching(error));
            },
        };
        let mut access = policy.iter();
        let mut found: Vec<&'a Option<T>> = Vec::new();
        proof {
            assert(all.skip(0) =~= all);
            if total_length(self.lengths()) == 0 {
                lemma_empty_shape_selects_nothing(self.lengths(), selectors);
            }
        }
        loop
            invariant
                access.wf(),
                access.slots() == self.slots(),
                access.lengths() == self.lengths(),
                access.selectors() == selectors,
                selectors == vector.selectors(),
                all == selection(axes(self.lengths(), selectors)),
                selectors.len() == self.lengths().len(),
                found@.len() <= all.len(),
                total_length(self.lengths()) == 0 ==> all.len() == 0,
                access.remaining() == all.skip(found@.len() as int),
                forall|k: int|
                    0 <= k < found@.len() ==> {
                        &&& selected_index(self.lengths(), selectors, k) < self.slots().len()
                        &&& *(#[trigger] found@[k]) == self.slots()[selected_index(
                            self.lengths(),
                            selectors,
                            k,
                        ) as int]
                        &&& *found@[k] is Some
                    },
            decreases all.len() - found@.len(),
        {
            let ghost done = found@.len() as int;
            match access.next() {
                None => {
                    assert(all.skip(done).len() == all.len() - done);
                    return Ok(found);
                },
                Some((index, slot)) => {
                    assert(all.skip(done)[0] == all[done]);
                    assert(index == selected_index(self.lengths(), selectors, done));
                    if slot.is_none() {
                        proof {
                            assert forall|j: int| 0 <= j < done implies self.slots()[
                            #[trigger] selected_index(self.lengths(), selectors, j) as int] is Some by {
                                assert(*found@[j] is Some);
                            }
                        }
                        return Err(SelectionError::Uninitialized(UninitializedError { index }));
                    }
                    let ghost before = found@;
                    found.push(slot);
                    proof {
                        assert(all.skip(done).drop_first() =~= all.skip(done + 1));
                        assert forall|k: int| 0 <= k < found@.len() implies {
                            &&& selected_index(self.lengths(), selectors, k) < self.slots().len()
                            &&& *(#[trigger] found@[k]) == self.slots()[selected_index(
                                self.lengths(),
                                selectors,
                                k,
                            ) as int]
                            &&& *found@[k] is Some
                        } by {
                            if k < done {
                                assert(found@[k] == before[k]);
                            }
                        }
                    }
                },
            }
        }
    }
}

impl<T: Sized, S: Shape> vstd::std_specs::core::IndexSpecImpl<usize> for MultiArray<T, S> {
    open spec fn index_req(&self, index: &usize) -> bool {
        *index < self.slots().len() && self.slots()[*index as int] is Some
    }
}

impl<T: Sized, S: Shape> core::ops::Index<usize> for MultiArray<T, S> {
    type Output = T;

    /// The value in the slot at the linear index `index`. The slot must exist
    /// and hold a value.
    fn index(&self, index: usize) -> (value: &T)
        ensures
            *value == self.slots()[index as int]->0,
    {
        self.list[index].as_ref().unwrap()
    }
}

impl<'v, T: Sized, S: Shape> vstd::std_specs::core::IndexSpecImpl<&'v S::VectorType> for MultiArray<T, S> {
    open spec fn index_req(&self, vector: &&'v S::VectorType) -> bool {
        &&& in_shape(self.lengths(), vector.coords())
        &&& linear_index(self.lengths(), vector.coords()) < self.slots().len()
        &&& self.slots()[linear_index(self.lengths(), vector.coords()) as int] is Some
    }
}

impl<'v, T: Sized, S: Shape> core::ops::Index<&'v S::VectorType> for MultiArray<T, S> {
    type Output = T;

    /// The value of the element at `vector`. The vector must lie inside the
    /// shape, and the slot of the element must hold a value.
    fn index(&self, vector: &'v S::VectorType) -> (value: &T)
        ensures
            *value == self.slots()[linear_index(self.lengths(), vector.coords()) as int]->0,
    {
        let index = self.shape.index(vector).unwrap();
        self.list[index].as_ref().unwrap()
    }
}

impl<T: Sized, S: Shape> MultiArray<T, S> {
    /// The value in the slot at the linear index `index`, to be changed in
    /// place. The slot must exist and hold a value.
    pub fn index_mut(&mut self, index: usize) -> (value: &mut T)
        requires
            index < old(self).slots().len(),
            old(self).slots()[index as int] is Some,
        ensures
            *value == old(self).slots()[index as int]->0,
            final(self).lengths() == old(self).lengths(),
            final(self).slots() == old(self).slots().update(index as int, Some(*final(value))),
    {
        proof {
            use_type_invariant(&*self);
        }
        self.list[index].as_mut().unwrap()
    }

    /// The value of the element at `vector`, to be changed in place. The
    /// vector must lie inside the shape, and the slot of the element must hold
    /// a value.
    pub fn index_mut_at(&mut self, vector: &S::VectorType) -> (value: &mut T)
        requires
            in_shape(old(self).lengths(), vector.coords()),
            linear_index(old(self).lengths(), vector.coords()) < old(self).slots().len(),
            old(self).slots()[linear_index(old(self).lengths(), vector.coords()) as int] is Some,
        ensures
            *value == old(self).slots()[linear_index(
                old(self).lengths(),
                vector.coords(),
            ) as int]->0,
            final(self).lengths() == old(self).lengths(),
            final(self).slots() == old(self).slots().update(
                linear_index(old(self).lengths(), vector.coords()) as int,
                Some(*final(value)),
            ),
    {
        proof {
            use_type_invariant(&*self);
        }
        let index = self.shape.index(vector).unwrap();
        self.list[index].as_mut().unwrap()
    }
}

} // verus!

//! Selection: one selector per axis, the coordinates that each selector picks
//! on its axis, and the traversal of all combinations of them.

use crate::errors::DimensionMismatchingError;
use crate::layout::{
    advanced, advanced_from, coordinate_of, coords_of, in_shape, lemma_advanced,
    lemma_coords_of_linear_index, lemma_linear_index_bound, lemma_linear_index_of_coords,
    lemma_linear_index_zeros, lemma_volume_positive, lemma_volume_zero, linear_index,
    resolve_signed, total_length,
};
use crate::shape::{resolve, CoordinateVector, DummyShape, Shape};
use vstd::prelude::*;

verus! {

/// One end of a range of signed indices.
#[derive(Clone, Copy, Debug, PartialEq, Eq)]
pub enum IndexBound {
    /// The range reaches up to, or starts at, this index.
    Included(isize),
    /// The range stops before, or starts after, this index.
    Excluded(isize),
    /// The range reaches to the end of the axis on this side.
    Unbounded,
}

/// What to select along one axis. Indices are signed: a negative index counts
/// back from the end of the axis.
#[derive(Debug)]
pub enum DummyIndex {
    /// One index.
    Index(isize),
    /// The indices from a start bound to an end bound.
    Range(IndexBound, IndexBound),
    /// The listed indices, in the order of the list; an index may occur more
    /// than once.
    IndexArray(Vec<isize>),
}

impl DummyIndex {
    /// Whether the selector can pick more than one coordinate.
    pub fn dummy(&self) -> (result: bool)
        ensures
            result == !(*self is Index),
    {
        match self {
            DummyIndex::Index(_) => false,
            _ => true,
        }
    }

    /// Whether the selector is a range.
    pub fn continuous(&self) -> (result: bool)
        ensures
            result == (*self is Range),
    {
        match self {
            DummyIndex::Range(_, _) => true,
            _ => false,
        }
    }

    /// Whether the selector is a list of indices.
    pub fn discrete(&self) -> (result: bool)
        ensures
            result == (*self is IndexArray),
    {
        match self {
            DummyIndex::IndexArray(_) => true,
            _ => false,
        }
    }
}

impl vstd::std_specs::convert::FromSpecImpl<isize> for DummyIndex {
    open spec fn obeys_from_spec() -> bool {
        true
    }

    open spec fn from_spec(value: isize) -> Self {
        DummyIndex::Index(value)
    }
}

impl From<isize> for DummyIndex {
    /// The selector of the single index `value`.
    fn from(value: isize) -> (result: Self) {
        DummyIndex::Index(value)
    }
}

impl vstd::std_specs::convert::FromSpecImpl<usize> for DummyIndex {
    open spec fn obeys_from_spec() -> bool {
        true
    }

    open spec fn from_spec(value: usize) -> Self {
        DummyIndex::Index(value as isize)
    }
}

impl From<usize> for DummyIndex {
    /// The selector of the single index `value`, taken as a signed integer of
    /// the same width.
    fn from(value: usize) -> (result: Self) {
        DummyIndex::Index(#[verifier::truncate] (value as isize))
    }
}

impl vstd::std_specs::convert::FromSpecImpl<core::ops::Range<isize>> for DummyIndex {
    open spec fn obeys_from_spec() -> bool {
        true
    }

    open spec fn from_spec(range: core::ops::Range<isize>) -> Self {
        DummyIndex::Range(IndexBound::Included(range.start), IndexBound::Excluded(range.end))
    }
}

impl From<core::ops::Range<isize>> for DummyIndex {
    /// The selector of the indices from `range.start` up to, not including,
    /// `range.end`.
    fn from(range: core::ops::Range<isize>) -> (result: Self) {
        DummyIndex::Range(IndexBound::Included(range.start), IndexBound::Excluded(range.end))
    }
}

/// `selector` is the list of the indices `indexes`.
pub open spec fn lists(selector: DummyIndex, indexes: Seq<isize>) -> bool {
    selector matches DummyIndex::IndexArray(list) && list@ == indexes
}

impl<'a> vstd::std_specs::convert::FromSpecImpl<&'a [isize]> for DummyIndex {
    /// Two vectors with the same entries need not be the same value, so the
    /// conversion promises its result by what it lists, not by equality.
    open spec fn obeys_from_spec() -> bool {
        false
    }

    open spec fn from_spec(indexes: &'a [isize]) -> Self {
        choose|selector: DummyIndex| lists(selector, indexes@)
    }
}

impl<'a> From<&'a [isize]> for DummyIndex {
    /// The selector of the listed indices, in their order.
    fn from(indexes: &'a [isize]) -> (result: Self)
        ensures
            lists(result, indexes@),
    {
        DummyIndex::IndexArray(vstd::slice::slice_to_vec(indexes))
    }
}

/// The first coordinate of a range with the start bound `start` on an axis of
/// length `len`. A bounded start must name a coordinate of the axis.
pub open spec fn lower_bound(len: nat, start: IndexBound) -> Option<nat> {
    match start {
        IndexBound::Included(index) => resolve_signed(len, index as int),
        IndexBound::Excluded(index) => resolve_signed(len, index + 1),
        IndexBound::Unbounded => Some(0),
    }
}

/// The coordinate before which a range with the end bound `end` stops on an
/// axis of length `len`. A bounded end must name a coordinate of the axis;
/// only an unbounded end reaches the length itself.
pub open spec fn upper_bound(len: nat, end: IndexBound) -> Option<nat> {
    match end {
        IndexBound::Included(index) => resolve_signed(len, index + 1),
        IndexBound::Excluded(index) => resolve_signed(len, index as int),
        IndexBound::Unbounded => Some(len),
    }
}

/// The coordinate at place `i` of the ascending run that starts at `lower`.
pub open spec fn run_at(lower: nat, i: int) -> nat {
    (lower + i) as nat
}

/// The ascending run of the coordinates from `lower` up to, not including,
/// `upper`.
pub open spec fn run(lower: nat, upper: nat) -> Seq<nat> {
    if lower < upper {
        Seq::new((upper - lower) as nat, |i: int| run_at(lower, i))
    } else {
        Seq::empty()
    }
}

/// The coordinates that the entries of `indexes` from `position` on name on an
/// axis of length `len`, in the order of the list; an entry that names none is
/// left out.
pub open spec fn resolved_from(indexes: Seq<isize>, len: nat, position: int) -> Seq<nat>
    decreases indexes.len() - position,
{
    if 0 <= position < indexes.len() {
        match resolve_signed(len, indexes[position] as int) {
            Some(coordinate) => seq![coordinate] + resolved_from(indexes, len, position + 1),
            None => resolved_from(indexes, len, position + 1),
        }
    } else {
        Seq::empty()
    }
}

/// The coordinates that a selector picks on an axis of length `len`, in the
/// order in which a selection runs through them.
///
/// A single index picks the coordinate it names, or nothing. A range picks the
/// ascending run between its bounds, or nothing if a bound names no
/// coordinate. A list picks what its entries name, in their order.
pub open spec fn axis_coordinates(len: nat, selector: DummyIndex) -> Seq<nat> {
    match selector {
        DummyIndex::Index(index) => match resolve_signed(len, index as int) {
            Some(coordinate) => seq![coordinate],
            None => Seq::empty(),
        },
        DummyIndex::Range(start, end) => match (lower_bound(len, start), upper_bound(len, end)) {
            (Some(lower), Some(upper)) => run(lower, upper),
            _ => Seq::empty(),
        },
        DummyIndex::IndexArray(indexes) => resolved_from(indexes@, len, 0),
    }
}

/// The first entry of `indexes` at or after `position` that names a coordinate
/// on an axis of length `len`, with the position behind it; or nothing, with
/// the length of the list.
fn scan(indexes: &Vec<isize>, len: usize, position: usize) -> (result: (Option<usize>, usize))
    ensures
        position <= indexes@.len() ==> position <= result.1 <= indexes@.len(),
        match result.0 {
            Some(coordinate) => {
                let rest = resolved_from(indexes@, len as nat, position as int);
                &&& rest.len() > 0
                &&& rest[0] == coordinate
                &&& rest.drop_first() == resolved_from(indexes@, len as nat, result.1 as int)
            },
            None => {
                &&& resolved_from(indexes@, len as nat, position as int).len() == 0
                &&& resolved_from(indexes@, len as nat, result.1 as int).len() == 0
            },
        },
{
    let mut at = position;
    while at < indexes.len()
        invariant
            position <= indexes@.len() ==> position <= at <= indexes@.len(),
            resolved_from(indexes@, len as nat, at as int) == resolved_from(
                indexes@,
                len as nat,
                position as int,
            ),
        decreases indexes@.len() - at,
    {
        let found = resolve(len, indexes[at]);
        at += 1;
        if let Some(coordinate) = found {
            proof {
                let rest = resolved_from(indexes@, len as nat, at as int);
                assert((seq![coordinate as nat] + rest).drop_first() =~= rest);
            }
            return (Some(coordinate), at);
        }
    }
    (None, at)
}

/// The coordinates that one selector has still to give on its axis.
#[derive(Clone, Copy, Debug)]
pub enum AxisIterator<'a> {
    /// The ascending run from `next` up to, not including, `end`.
    Run { next: usize, end: usize },
    /// The entries of `indexes` from `position` on, resolved on an axis of
    /// length `len`.
    Picks { indexes: &'a Vec<isize>, position: usize, len: usize },
}

impl<'a> AxisIterator<'a> {
    /// The coordinates still to come, in their order.
    pub open spec fn remaining(&self) -> Seq<nat> {
        match *self {
            AxisIterator::Run { next, end } => run(next as nat, end as nat),
            AxisIterator::Picks { indexes, position, len } => resolved_from(
                indexes@,
                len as nat,
                position as int,
            ),
        }
    }

    /// Gives the next coordinate, if there is one.
    pub fn next(&mut self) -> (coordinate: Option<usize>)
        ensures
            match coordinate {
                Some(c) => {
                    &&& old(self).remaining().len() > 0
                    &&& old(self).remaining()[0] == c
                    &&& final(self).remaining() == old(self).remaining().drop_first()
                },
                None => old(self).remaining().len() == 0 && final(self).remaining().len() == 0,
            },
    {
        match *self {
            AxisIterator::Run { next, end } => {
                if next < end {
                    *self = AxisIterator::Run { next: next + 1, end };
                    assert(run(next as nat, end as nat).drop_first() =~= run(
                        (next + 1) as nat,
                        end as nat,
                    ));
                    Some(next)
                } else {
                    None
                }
            },
            AxisIterator::Picks { indexes, position, len } => {
                let (found, behind) = scan(indexes, len, position);
                *self = AxisIterator::Picks { indexes, position: behind, len };
                found
            },
        }
    }
}

/// A selector vector: one selector per axis.
pub trait DummyVector: Sized {
    /// The selectors, axis 0 first.
    spec fn selectors(&self) -> Seq<DummyIndex>;

    /// Number of selectors.
    fn dimension_of(&self) -> (dimension: usize)
        ensures
            dimension == self.selectors().len(),
    ;

    /// The selector of `axis`.
    fn selector(&self, axis: usize) -> (selector: &DummyIndex)
        requires
            axis < self.selectors().len(),
        ensures
            *selector == self.selectors()[axis as int],
    ;
}

impl<const N: usize> DummyVector for [DummyIndex; N] {
    open spec fn selectors(&self) -> Seq<DummyIndex> {
        self@
    }

    fn dimension_of(&self) -> (dimension: usize) {
        N
    }

    fn selector(&self, axis: usize) -> (selector: &DummyIndex) {
        &self[axis]
    }
}

impl DummyVector for Vec<DummyIndex> {
    open spec fn selectors(&self) -> Seq<DummyIndex> {
        self@
    }

    fn dimension_of(&self) -> (dimension: usize) {
        self.len()
    }

    fn selector(&self, axis: usize) -> (selector: &DummyIndex) {
        &self[axis]
    }
}

/// The coordinates that the selector of `axis` picks on its axis.
pub open spec fn axis_of(lengths: Seq<nat>, selectors: Seq<DummyIndex>, axis: int) -> Seq<nat> {
    axis_coordinates(lengths[axis], selectors[axis])
}

/// For every axis, the coordinates that its selector picks.
pub open spec fn axes(lengths: Seq<nat>, selectors: Seq<DummyIndex>) -> Seq<Seq<nat>> {
    Seq::new(lengths.len(), |i: int| axis_of(lengths, selectors, i))
}

/// Number of coordinates picked on `axis`.
pub open spec fn count_at(axes: Seq<Seq<nat>>, axis: int) -> nat {
    axes[axis].len()
}

/// For every axis, the number of coordinates picked on it.
pub open spec fn counts(axes: Seq<Seq<nat>>) -> Seq<nat> {
    Seq::new(axes.len(), |i: int| count_at(axes, i))
}

/// The coordinate along `axis` of element number `ordinal` of the selection.
/// The elements are numbered like the elements of an array that has, on every
/// axis, as many coordinates as were picked there: the last axis runs fastest.
pub open spec fn selected_at(axes: Seq<Seq<nat>>, ordinal: nat, axis: int) -> nat {
    axes[axis][coordinate_of(counts(axes), ordinal, axis) as int]
}

/// The coordinate vector of element number `ordinal` of the selection.
pub open spec fn selected(axes: Seq<Seq<nat>>, ordinal: nat) -> Seq<nat> {
    Seq::new(axes.len(), |i: int| selected_at(axes, ordinal, i))
}

/// The coordinate vectors of the selection, in the order of the traversal:
/// every combination of one picked coordinate per axis, the last axis running
/// fastest.
pub open spec fn selection(axes: Seq<Seq<nat>>) -> Seq<Seq<nat>> {
    Seq::new(total_length(counts(axes)), |k: int| selected(axes, k as nat))
}

/// The traversal of a selection: one iterator per axis, advanced like the
/// wheels of an odometer. The coordinate vector that the traversal stands at is
/// kept by the caller.
pub struct DummyAccessIterator<'a> {
    iterators: Vec<AxisIterator<'a>>,
}

impl<'a> DummyAccessIterator<'a> {
    /// The place, among the coordinates picked on `axis`, of the coordinate
    /// that the iterator of that axis gave last.
    pub closed spec fn place(&self, axes: Seq<Seq<nat>>, axis: int) -> nat {
        (axes[axis].len() - self.iterators@[axis].remaining().len() - 1) as nat
    }

    /// The places on all axes.
    pub open spec fn places(&self, axes: Seq<Seq<nat>>) -> Seq<nat> {
        Seq::new(axes.len(), |i: int| self.place(axes, i))
    }

    /// The iterator of `axis` has given a coordinate, `coordinate` is the one
    /// it gave last, and what it has still to give is the rest of the
    /// coordinates picked on that axis.
    pub closed spec fn stands_on(&self, axes: Seq<Seq<nat>>, axis: int, coordinate: nat) -> bool {
        let picked = axes[axis];
        let rest = self.iterators@[axis].remaining();
        &&& rest.len() < picked.len()
        &&& rest == picked.skip(picked.len() - rest.len())
        &&& coordinate == picked[picked.len() - rest.len() - 1]
    }

    /// The traversal stands at an element of the selection, and `now` is the
    /// coordinate vector of that element.
    pub closed spec fn stands(&self, axes: Seq<Seq<nat>>, now: Seq<nat>) -> bool {
        &&& self.iterators@.len() == axes.len()
        &&& now.len() == axes.len()
        &&& forall|i: int| 0 <= i < axes.len() ==> self.stands_on(axes, i, #[trigger] now[i])
    }

    /// The number, in the selection, of the element that the traversal stands
    /// at.
    pub open spec fn ordinal(&self, axes: Seq<Seq<nat>>) -> nat {
        linear_index(counts(axes), self.places(axes))
    }

    /// A traversal that stands at an element stands at the element with its
    /// ordinal.
    pub proof fn lemma_stands(&self, axes: Seq<Seq<nat>>, now: Seq<nat>)
        requires
            self.stands(axes, now),
        ensures
            in_shape(counts(axes), self.places(axes)),
            self.ordinal(axes) < selection(axes).len(),
            now == selection(axes)[self.ordinal(axes) as int],
    {
        let n = counts(axes);
        let p = self.places(axes);
        assert forall|i: int| 0 <= i < n.len() implies p[i] < n[i] by {
            assert(self.stands_on(axes, i, now[i]));
        }
        lemma_coords_of_linear_index(n, p);
        let k = self.ordinal(axes);
        assert forall|i: int| 0 <= i < axes.len() implies now[i] == selected_at(axes, k, i) by {
            assert(self.stands_on(axes, i, now[i]));
            assert(coords_of(n, k)[i] == p[i]);
        }
        assert(now =~= selected(axes, k));
    }

    /// Starts the traversal of what `vector` selects in `shape`: every axis
    /// gives its first coordinate into `now`. There is no traversal if an axis
    /// has nothing picked on it: the selection is empty then.
    pub fn new<S: DummyShape>(
        shape: &S,
        vector: &'a S::DummyVectorType,
        now: &mut S::VectorType,
    ) -> (result: Option<Self>)
        requires
            vector.selectors().len() == shape.lengths().len(),
            old(now).coords().len() == shape.lengths().len(),
        ensures
            final(now).coords().len() == shape.lengths().len(),
            result is Some <==> selection(axes(shape.lengths(), vector.selectors())).len() > 0,
            match result {
                Some(iterator) => {
                    let picked = axes(shape.lengths(), vector.selectors());
                    &&& iterator.stands(picked, final(now).coords())
                    &&& iterator.ordinal(picked) == 0
                    &&& final(now).coords() == selection(picked)[0]
                },
                None => true,
            },
    {
        let ghost picked = axes(shape.lengths(), vector.selectors());
        let dimension = shape.dimension();
        let mut iterators: Vec<AxisIterator<'a>> = Vec::new();
        let mut axis: usize = 0;
        while axis < dimension
            invariant
                axis <= dimension,
                dimension == shape.lengths().len(),
                vector.selectors().len() == dimension,
                now.coords().len() == dimension,
                picked == axes(shape.lengths(), vector.selectors()),
                iterators@.len() == axis,
                forall|i: int| 0 <= i < axis ==> (#[trigger] picked[i]).len() > 0,
                forall|i: int|
                    0 <= i < axis ==> (#[trigger] iterators@[i]).remaining() == picked[i].skip(1),
                forall|i: int| 0 <= i < axis ==> (#[trigger] now.coords()[i]) == picked[i][0],
            decreases dimension - axis,
        {
            let mut iterator = shape.iterator_of(axis, vector.selector(axis));
            assert(iterator.remaining() == picked[axis as int]);
            match iterator.next() {
                Some(first) => {
                    let ghost held = now.coords();
                    let ghost prior = iterators@;
                    now.set_coordinate(axis, first);
                    iterators.push(iterator);
                    proof {
                        assert(picked[axis as int].drop_first() =~= picked[axis as int].skip(1));
                        assert forall|i: int| 0 <= i < axis + 1 implies (
                        #[trigger] iterators@[i]).remaining() == picked[i].skip(1) by {
                            if i < axis {
                                assert(iterators@[i] == prior[i]);
                            }
                        }
                        assert forall|i: int| 0 <= i < axis + 1 implies (
                        #[trigger] now.coords()[i]) == picked[i][0] by {
                            if i < axis {
                                assert(now.coords()[i] == held[i]);
                            }
                        }
                    }
                },
                None => {
                    proof {
                        assert(count_at(picked, axis as int) == 0);
                        lemma_volume_zero(counts(picked), 0, axis as int);
                    }
                    return None;
                },
            }
            axis += 1;
        }
        let result = Self { iterators };
        proof {
            let n = counts(picked);
            let p = result.places(picked);
            assert forall|i: int| 0 <= i < n.len() implies n[i] > 0 by {
                assert(iterators@[i].remaining() == picked[i].skip(1));
            }
            lemma_volume_positive(n, 0);
            assert forall|i: int| 0 <= i < picked.len() implies result.stands_on(
                picked,
                i,
                #[trigger] now.coords()[i],
            ) by {
                assert(iterators@[i].remaining() == picked[i].skip(1));
            }
            assert forall|i: int| 0 <= i < n.len() implies p[i] == 0 by {
                assert(iterators@[i].remaining() == picked[i].skip(1));
            }
            lemma_linear_index_zeros(n, p, 0);
            result.lemma_stands(picked, now.coords());
        }
        Some(result)
    }

    /// Moves the traversal on by one element. Scanning from the last axis
    /// towards axis 0, the first axis whose iterator has a coordinate left
    /// gives it into `now`, and the scan ends. An axis whose iterator is
    /// exhausted starts again from its first coordinate and the scan carries
    /// into the axis before it. The result is `false` exactly when the carry
    /// leaves axis 0: the traversal has then passed the last element and stands
    /// at the first one again.
    pub fn next<S: DummyShape>(
        &mut self,
        now: &mut S::VectorType,
        shape: &S,
        vector: &'a S::DummyVectorType,
    ) -> (more: bool)
        requires
            vector.selectors().len() == shape.lengths().len(),
            old(self).stands(axes(shape.lengths(), vector.selectors()), old(now).coords()),
        ensures
            ({
                let picked = axes(shape.lengths(), vector.selectors());
                &&& final(self).stands(picked, final(now).coords())
                &&& more <==> old(self).ordinal(picked) + 1 < selection(picked).len()
                &&& more ==> final(self).ordinal(picked) == old(self).ordinal(picked) + 1
                &&& !more ==> final(self).ordinal(picked) == 0
                &&& final(now).coords() == selection(picked)[final(self).ordinal(picked) as int]
            }),
    {
        let ghost picked = axes(shape.lengths(), vector.selectors());
        let ghost n = counts(picked);
        let ghost start = self.places(picked);
        proof {
            self.lemma_stands(picked, now.coords());
            lemma_advanced(n, start);
        }
        let mut axis = self.iterators.len();
        while axis > 0
            invariant
                axis <= n.len(),
                vector.selectors().len() == shape.lengths().len(),
                picked == axes(shape.lengths(), vector.selectors()),
                n == counts(picked),
                start == old(self).places(picked),
                in_shape(n, start),
                self.stands(picked, now.coords()),
                advanced_from(n, self.places(picked), axis as int - 1) == advanced(n, start),
            decreases axis,
        {
            axis -= 1;
            let ghost before = self.places(picked);
            let ghost held = now.coords();
            let ghost prior = self.iterators@;
            let ghost rest = prior[axis as int].remaining();
            assert(self.stands_on(picked, axis as int, held[axis as int]));
            assert(forall|i: int| 0 <= i < picked.len() ==> self.stands_on(picked, i, held[i]));
            match self.iterators[axis].next() {
                Some(value) => {
                    now.set_coordinate(axis, value);
                    proof {
                        let chosen = picked[axis as int];
                        assert(self.iterators@.len() == prior.len());
                        assert(self.iterators@[axis as int].remaining() == rest.drop_first());
                        assert(rest.drop_first() =~= chosen.skip(chosen.len() - rest.len() + 1));
                        assert forall|i: int| 0 <= i < picked.len() implies self.stands_on(
                            picked,
                            i,
                            #[trigger] now.coords()[i],
                        ) by {
                            if i != axis {
                                assert(self.iterators@[i] == prior[i]);
                                assert(now.coords()[i] == held[i]);
                            }
                        }
                        assert(n[axis as int] == chosen.len());
                        assert(before[axis as int] == chosen.len() - rest.len() - 1);
                        let moved = before.update(axis as int, before[axis as int] + 1);
                        assert(self.places(picked) =~= moved);
                        assert(advanced_from(n, before, axis as int) == (moved, true));
                        lemma_advanced(n, start);
                        self.lemma_stands(picked, now.coords());
                    }
                    return true;
                },
                None => {
                    let mut fresh = shape.iterator_of(axis, vector.selector(axis));
                    assert(fresh.remaining() == picked[axis as int]);
                    let first = fresh.next().unwrap();
                    self.iterators[axis] = fresh;
                    now.set_coordinate(axis, first);
                    proof {
                        let chosen = picked[axis as int];
                        assert(chosen.drop_first() =~= chosen.skip(1));
                        assert forall|i: int| 0 <= i < picked.len() implies self.stands_on(
                            picked,
                            i,
                            #[trigger] now.coords()[i],
                        ) by {
                            if i != axis {
                                assert(self.iterators@[i] == prior[i]);
                                assert(now.coords()[i] == held[i]);
                            }
                        }
                        assert(self.places(picked) =~= before.update(axis as int, 0));
                    }
                },
            }
        }
        proof {
            self.lemma_stands(picked, now.coords());
            lemma_linear_index_zeros(n, self.places(picked), 0);
        }
        false
    }
}

/// Every coordinate that a list gives lies on the axis.
pub proof fn lemma_resolved_in_range(indexes: Seq<isize>, len: nat, position: int)
    requires
        0 <= position,
    ensures
        forall|i: int|
            0 <= i < resolved_from(indexes, len, position).len() ==> resolved_from(
                indexes,
                len,
                position,
            )[i] < len,
    decreases indexes.len() - position,
{
    if position < indexes.len() {
        lemma_resolved_in_range(indexes, len, position + 1);
        let here = resolved_from(indexes, len, position);
        let rest = resolved_from(indexes, len, position + 1);
        assert forall|i: int| 0 <= i < here.len() implies here[i] < len by {
            if resolve_signed(len, indexes[position] as int) is Some && i > 0 {
                assert(here[i] == rest[i - 1]);
            }
        }
    }
}

/// Every coordinate that a selector picks lies on the axis.
pub proof fn lemma_axis_coordinates_in_range(len: nat, selector: DummyIndex)
    ensures
        forall|i: int|
            0 <= i < axis_coordinates(len, selector).len() ==> axis_coordinates(len, selector)[i]
                < len,
{
    match selector {
        DummyIndex::Index(_) => {},
        DummyIndex::Range(_, _) => {},
        DummyIndex::IndexArray(indexes) => {
            lemma_resolved_in_range(indexes@, len, 0);
        },
    }
}

/// Every element of a selection lies inside the shape.
pub proof fn lemma_selection_in_shape(lengths: Seq<nat>, selectors: Seq<DummyIndex>, ordinal: int)
    requires
        selectors.len() == lengths.len(),
        0 <= ordinal < selection(axes(lengths, selectors)).len(),
    ensures
        in_shape(lengths, selection(axes(lengths, selectors))[ordinal]),
        linear_index(lengths, selection(axes(lengths, selectors))[ordinal]) < total_length(lengths),
{
    let picked = axes(lengths, selectors);
    let n = counts(picked);
    let element = selection(picked)[ordinal];
    lemma_linear_index_of_coords(n, ordinal as nat);
    assert forall|i: int| 0 <= i < lengths.len() implies element[i] < lengths[i] by {
        lemma_axis_coordinates_in_range(lengths[i], selectors[i]);
        let place = coords_of(n, ordinal as nat)[i];
        assert(place < n[i]);
        assert(element[i] == picked[i][place as int]);
    }
    lemma_linear_index_bound(lengths, element, 0);
}

/// On an axis of length zero a list gives nothing.
pub proof fn lemma_resolved_on_empty_axis(indexes: Seq<isize>, position: int)
    ensures
        resolved_from(indexes, 0, position).len() == 0,
    decreases indexes.len() - position,
{
    if 0 <= position < indexes.len() {
        lemma_resolved_on_empty_axis(indexes, position + 1);
    }
}

/// On an axis of length zero no selector picks anything.
pub proof fn lemma_nothing_on_empty_axis(selector: DummyIndex)
    ensures
        axis_coordinates(0, selector).len() == 0,
{
    match selector {
        DummyIndex::Index(_) => {},
        DummyIndex::Range(_, _) => {},
        DummyIndex::IndexArray(indexes) => {
            lemma_resolved_on_empty_axis(indexes@, 0);
        },
    }
}

/// In an array without elements every selection is empty, whatever the
/// selectors are.
pub proof fn lemma_empty_shape_selects_nothing(lengths: Seq<nat>, selectors: Seq<DummyIndex>)
    requires
        selectors.len() == lengths.len(),
        total_length(lengths) == 0,
    ensures
        selection(axes(lengths, selectors)).len() == 0,
{
    if forall|i: int| 0 <= i < lengths.len() ==> lengths[i] > 0 {
        lemma_volume_positive(lengths, 0);
    } else {
        let axis = choose|i: int| 0 <= i < lengths.len() && !(lengths[i] > 0);
        let picked = axes(lengths, selectors);
        lemma_nothing_on_empty_axis(selectors[axis]);
        assert(count_at(picked, axis) == 0);
        lemma_volume_zero(counts(picked), 0, axis);
    }
}

/// The linear index of element number `ordinal` of what `selectors` select
/// in an array with the axis lengths `lengths`.
pub open spec fn selected_index(lengths: Seq<nat>, selectors: Seq<DummyIndex>, ordinal: int) -> nat {
    linear_index(lengths, selection(axes(lengths, selectors))[ordinal])
}

/// A selection in a store of optional elements: the store, one selector per
/// axis, and the shape that lays the store out.
pub struct DummyAccessPolicy<'a, T, S: DummyShape> {
    container: &'a Vec<Option<T>>,
    vector: S::DummyVectorType,
    shape: &'a S,
}

impl<'a, T, S: DummyShape> DummyAccessPolicy<'a, T, S> {
    #[verifier::type_invariant]
    spec fn consistent(&self) -> bool {
        &&& self.vector.selectors().len() == self.shape.lengths().len()
        &&& self.container@.len() == total_length(self.shape.lengths())
    }

    /// The slots of the store.
    pub closed spec fn slots(&self) -> Seq<Option<T>> {
        self.container@
    }

    /// The lengths of the axes.
    pub closed spec fn lengths(&self) -> Seq<nat> {
        self.shape.lengths()
    }

    /// The selectors, axis 0 first.
    pub closed spec fn selectors(&self) -> Seq<DummyIndex> {
        self.vector.selectors()
    }

    /// Sets up the selection of `vector` in `container`. There must be one
    /// selector for every axis of `shape`.
    pub fn new(container: &'a Vec<Option<T>>, vector: S::DummyVectorType, shape: &'a S) -> (result:
        Result<Self, DimensionMismatchingError>)
        requires
            container@.len() == total_length(shape.lengths()),
        ensures
            match result {
                Ok(policy) => {
                    &&& vector.selectors().len() == shape.lengths().len()
                    &&& policy.slots() == container@
                    &&& policy.lengths() == shape.lengths()
                    &&& policy.selectors() == vector.selectors()
                },
                Err(error) => {
                    &&& vector.selectors().len() != shape.lengths().len()
                    &&& error.dimension == shape.lengths().len()
                    &&& error.vector_dimension == vector.selectors().len()
                },
            },
    {
        let dimension = shape.dimension();
        let given = vector.dimension_of();
        if given != dimension {
            Err(DimensionMismatchingError { dimension, vector_dimension: given })
        } else {
            Ok(Self { container, vector, shape })
        }
    }

    /// Starts to run through the selected slots.
    pub fn iter<'p>(&'p self) -> (access: DummyAccess<'p, 'a, T, S>)
        ensures
            access.wf(),
            access.slots() == self.slots(),
            access.lengths() == self.lengths(),
            access.selectors() == self.selectors(),
            access.remaining() == selection(axes(self.lengths(), self.selectors())),
    {
        proof {
            use_type_invariant(self);
        }
        let mut now = self.shape.zero();
        let iterator = DummyAccessIterator::new(self.shape, &self.vector, &mut now);
        proof {
            let all = selection(axes(self.lengths(), self.selectors()));
            assert(all.skip(0) =~= all);
        }
        DummyAccess { policy: self, iterator, now }
    }
}

/// A run through the slots of a selection, in the order of the traversal. It
/// goes forward only, and once.
pub struct DummyAccess<'p, 'a, T, S: DummyShape> {
    policy: &'p DummyAccessPolicy<'a, T, S>,
    iterator: Option<DummyAccessIterator<'p>>,
    now: S::VectorType,
}

impl<'p, 'a, T, S: DummyShape> DummyAccess<'p, 'a, T, S> {
    /// The slots of the store.
    pub closed spec fn slots(&self) -> Seq<Option<T>> {
        self.policy.slots()
    }

    /// The lengths of the axes.
    pub closed spec fn lengths(&self) -> Seq<nat> {
        self.policy.lengths()
    }

    /// The selectors, axis 0 first.
    pub closed spec fn selectors(&self) -> Seq<DummyIndex> {
        self.policy.selectors()
    }

    /// The run stands at an element of the selection, or is over.
    pub closed spec fn wf(&self) -> bool {
        match self.iterator {
            Some(iterator) => iterator.stands(
                axes(self.lengths(), self.selectors()),
                self.now.coords(),
            ),
            None => true,
        }
    }

    /// The coordinate vectors of the elements still to come.
    pub closed spec fn remaining(&self) -> Seq<Seq<nat>> {
        let picked = axes(self.lengths(), self.selectors());
        match self.iterator {
            Some(iterator) => selection(picked).skip(iterator.ordinal(picked) as int),
            None => Seq::empty(),
        }
    }

    /// Gives the next selected slot, with its linear index, if there is one.
    pub fn next(&mut self) -> (item: Option<(usize, &'a Option<T>)>)
        requires
            old(self).wf(),
        ensures
            final(self).wf(),
            final(self).slots() == old(self).slots(),
            final(self).lengths() == old(self).lengths(),
            final(self).selectors() == old(self).selectors(),
            match item {
                Some((index, slot)) => {
                    &&& old(self).remaining().len() > 0
                    &&& index == linear_index(old(self).lengths(), old(self).remaining()[0])
                    &&& index < old(self).slots().len()
                    &&& *slot == old(self).slots()[index as int]
                    &&& final(self).remaining() == old(self).remaining().drop_first()
                },
                None => old(self).remaining().len() == 0 && final(self).remaining().len() == 0,
            },
    {
        let policy = self.policy;
        proof {
            use_type_invariant(policy);
        }
        let ghost picked = axes(self.lengths(), self.selectors());
        let ghost all = selection(picked);
        match self.iterator.take() {
            None => None,
            Some(mut iterator) => {
                let ghost ordinal = iterator.ordinal(picked);
                proof {
                    iterator.lemma_stands(picked, self.now.coords());
                    lemma_selection_in_shape(self.lengths(), self.selectors(), ordinal as int);
                }
                let index = policy.shape.index(&self.now).unwrap();
                let slot = &policy.container[index];
                if iterator.next(&mut self.now, policy.shape, &policy.vector) {
                    self.iterator = Some(iterator);
                }
                proof {
                    assert(all.skip(ordinal as int).drop_first() =~= all.skip(ordinal as int + 1));
                }
                Some((index, slot))
            },
        }
    }
}

} // verus!

//! The arithmetic of a row-major layout, stated over mathematical sequences.
//!
//! A layout is given by the lengths of its axes. The last axis varies fastest:
//! the stride of an axis is the product of the lengths of all later axes. The
//! functions here are the model that the executable shapes are specified
//! against, and the lemmas relate them to each other.

use vstd::arithmetic::div_mod::{
    lemma_fundamental_div_mod_converse, lemma_mod_breakdown, lemma_mod_mod, lemma_mod_pos_bound,
    lemma_small_mod,
};
use vstd::arithmetic::mul::{lemma_mul_nonzero, lemma_mul_strictly_positive};
use vstd::prelude::*;

verus! {

/// The sequence of machine integers `s`, read as natural numbers.
pub open spec fn nats(s: Seq<usize>) -> Seq<nat> {
    Seq::new(s.len(), |i: int| s[i] as nat)
}

/// Product of the lengths of the axes `axis`, `axis + 1`, ... up to the last.
/// The empty product is 1.
pub open spec fn volume_from(lengths: Seq<nat>, axis: int) -> nat
    decreases lengths.len() - axis,
{
    if 0 <= axis < lengths.len() {
        lengths[axis] * volume_from(lengths, axis + 1)
    } else {
        1
    }
}

/// Number of elements of an array with these axis lengths.
pub open spec fn total_length(lengths: Seq<nat>) -> nat {
    volume_from(lengths, 0)
}

/// Distance in linear storage between neighbours along `axis`: the product of
/// the lengths of all later axes.
pub open spec fn stride(lengths: Seq<nat>, axis: int) -> nat {
    volume_from(lengths, axis + 1)
}

/// `coords` has one coordinate per axis, each below the length of its axis.
pub open spec fn in_shape(lengths: Seq<nat>, coords: Seq<nat>) -> bool {
    &&& coords.len() == lengths.len()
    &&& forall|i: int| 0 <= i < lengths.len() ==> coords[i] < lengths[i]
}

/// Sum of `coords[i] * stride(lengths, i)` over the axes from `axis` on.
pub open spec fn linear_index_from(lengths: Seq<nat>, coords: Seq<nat>, axis: int) -> nat
    decreases lengths.len() - axis,
{
    if 0 <= axis < lengths.len() {
        coords[axis] * stride(lengths, axis) + linear_index_from(lengths, coords, axis + 1)
    } else {
        0
    }
}

/// Position in linear storage of the element at `coords`.
pub open spec fn linear_index(lengths: Seq<nat>, coords: Seq<nat>) -> nat {
    linear_index_from(lengths, coords, 0)
}

/// The coordinate along `axis` of the element at `index`: the quotient of
/// `index` by the stride, reduced modulo the length.
pub open spec fn coordinate_of(lengths: Seq<nat>, index: nat, axis: int) -> nat {
    (index / stride(lengths, axis)) % lengths[axis]
}

/// The coordinate vector that `index` stands for.
pub open spec fn coords_of(lengths: Seq<nat>, index: nat) -> Seq<nat> {
    Seq::new(lengths.len(), |i: int| coordinate_of(lengths, index, i))
}

/// The all-zero coordinate vector of the given dimension.
pub open spec fn zeros(dimension: nat) -> Seq<nat> {
    Seq::new(dimension, |i: int| 0nat)
}

/// Odometer step with a carry arriving at `axis`: the coordinate there goes up
/// by one; if it thereby reaches the length of its axis it is reset to zero and
/// the carry moves on to `axis - 1`. The flag is `false` exactly when the carry
/// leaves axis 0.
pub open spec fn advanced_from(lengths: Seq<nat>, coords: Seq<nat>, axis: int) -> (Seq<nat>, bool)
    decreases axis + 1,
{
    if axis < 0 {
        (coords, false)
    } else if coords[axis] + 1 == lengths[axis] {
        advanced_from(lengths, coords.update(axis, 0), axis - 1)
    } else {
        (coords.update(axis, coords[axis] + 1), true)
    }
}

/// Odometer step: the carry starts at the last axis.
pub open spec fn advanced(lengths: Seq<nat>, coords: Seq<nat>) -> (Seq<nat>, bool) {
    advanced_from(lengths, coords, lengths.len() - 1)
}

/// The vector reached from the zero vector by `steps` odometer steps.
pub open spec fn visited(lengths: Seq<nat>, steps: nat) -> Seq<nat>
    decreases steps,
{
    if steps == 0 {
        zeros(lengths.len())
    } else {
        advanced(lengths, visited(lengths, (steps - 1) as nat)).0
    }
}

/// The physical coordinate that a signed index names on an axis of length
/// `len`: a non-negative index names itself, a negative one counts back from
/// the end, so that `-1` is the last coordinate. An index that falls outside
/// the axis names nothing.
pub open spec fn resolve_signed(len: nat, index: int) -> Option<nat> {
    if 0 <= index < len {
        Some(index as nat)
    } else if index < 0 && len + index >= 0 {
        Some((len + index) as nat)
    } else {
        None
    }
}

/// An optional machine integer, read as an optional natural number.
pub open spec fn option_nat(value: Option<usize>) -> Option<nat> {
    match value {
        Some(v) => Some(v as nat),
        None => None,
    }
}

/// Every stride and the total length can be held in a `usize`.
pub open spec fn representable(lengths: Seq<nat>) -> bool {
    forall|i: int| 0 <= i <= lengths.len() ==> volume_from(lengths, i) <= usize::MAX
}

/// Value of the coordinates before `axis`, read as the leading digits of a
/// mixed-radix number.
pub open spec fn leading(lengths: Seq<nat>, coords: Seq<nat>, axis: int) -> nat
    decreases axis,
{
    if axis <= 0 {
        0
    } else {
        leading(lengths, coords, axis - 1) * lengths[axis - 1] + coords[axis - 1]
    }
}

/// A product of positive lengths is positive.
pub proof fn lemma_volume_positive(lengths: Seq<nat>, axis: int)
    requires
        0 <= axis,
        forall|i: int| axis <= i < lengths.len() ==> lengths[i] > 0,
    ensures
        volume_from(lengths, axis) > 0,
    decreases lengths.len() - axis,
{
    if axis < lengths.len() {
        lemma_volume_positive(lengths, axis + 1);
        lemma_mul_strictly_positive(lengths[axis] as int, volume_from(lengths, axis + 1) as int);
    }
}

/// A product with a factor zero is zero.
pub proof fn lemma_volume_zero(lengths: Seq<nat>, from: int, axis: int)
    requires
        0 <= from <= axis < lengths.len(),
        lengths[axis] == 0,
    ensures
        volume_from(lengths, from) == 0,
    decreases axis - from,
{
    if from < axis {
        lemma_volume_zero(lengths, from + 1, axis);
    }
    let n = lengths[from] as int;
    let v = volume_from(lengths, from + 1) as int;
    assert(n * v == 0) by (nonlinear_arith)
        requires
            n == 0 || v == 0,
    ;
}

/// A positive product has only positive factors.
pub proof fn lemma_positive_volume_lengths(lengths: Seq<nat>, axis: int)
    requires
        0 <= axis,
        volume_from(lengths, axis) > 0,
    ensures
        forall|i: int| axis <= i < lengths.len() ==> lengths[i] > 0,
        forall|i: int| axis <= i <= lengths.len() ==> volume_from(lengths, i) > 0,
    decreases lengths.len() - axis,
{
    if axis < lengths.len() {
        lemma_mul_nonzero(lengths[axis] as int, volume_from(lengths, axis + 1) as int);
        lemma_positive_volume_lengths(lengths, axis + 1);
    }
}

/// The coordinates from `axis` on address less than the volume they span.
pub proof fn lemma_linear_index_bound(lengths: Seq<nat>, coords: Seq<nat>, axis: int)
    requires
        in_shape(lengths, coords),
        0 <= axis,
    ensures
        linear_index_from(lengths, coords, axis) < volume_from(lengths, axis),
    decreases lengths.len() - axis,
{
    if axis < lengths.len() {
        lemma_linear_index_bound(lengths, coords, axis + 1);
        let c = coords[axis] as int;
        let n = lengths[axis] as int;
        let s = stride(lengths, axis) as int;
        assert(c * s + s <= n * s) by (nonlinear_arith)
            requires
                0 <= c < n,
                0 <= s,
        ;
    }
}

/// Vectors that agree from `axis` on have the same partial sum from there.
pub proof fn lemma_linear_index_agree(lengths: Seq<nat>, a: Seq<nat>, b: Seq<nat>, axis: int)
    requires
        0 <= axis,
        forall|i: int| axis <= i < lengths.len() ==> a[i] == b[i],
    ensures
        linear_index_from(lengths, a, axis) == linear_index_from(lengths, b, axis),
    decreases lengths.len() - axis,
{
    if axis < lengths.len() {
        lemma_linear_index_agree(lengths, a, b, axis + 1);
    }
}

/// Changing one coordinate moves the partial sums that include it by the
/// change times the stride of its axis.
pub proof fn lemma_linear_index_update(
    lengths: Seq<nat>,
    coords: Seq<nat>,
    axis: int,
    value: nat,
    from: int,
)
    requires
        coords.len() == lengths.len(),
        0 <= from <= axis < lengths.len(),
    ensures
        linear_index_from(lengths, coords.update(axis, value), from) == linear_index_from(
            lengths,
            coords,
            from,
        ) + (value - coords[axis]) * stride(lengths, axis),
    decreases axis - from,
{
    let changed = coords.update(axis, value);
    if from == axis {
        lemma_linear_index_agree(lengths, changed, coords, axis + 1);
        let s = stride(lengths, axis) as int;
        let v = value as int;
        let c = coords[axis] as int;
        assert(v * s == c * s + (v - c) * s) by (nonlinear_arith);
    } else {
        lemma_linear_index_update(lengths, coords, axis, value, from + 1);
    }
}

/// The zero vector has linear index 0.
pub proof fn lemma_linear_index_zeros(lengths: Seq<nat>, coords: Seq<nat>, axis: int)
    requires
        0 <= axis,
        forall|i: int| axis <= i < lengths.len() ==> coords[i] == 0,
    ensures
        linear_index_from(lengths, coords, axis) == 0,
    decreases lengths.len() - axis,
{
    if axis < lengths.len() {
        lemma_linear_index_zeros(lengths, coords, axis + 1);
        let s = stride(lengths, axis) as int;
        assert(0 * s == 0) by (nonlinear_arith);
    }
}

/// A linear index splits at every axis into the leading digits, scaled by the
/// volume of the remaining axes, and the partial sum of the remaining axes.
pub proof fn lemma_linear_index_split(lengths: Seq<nat>, coords: Seq<nat>, axis: int)
    requires
        coords.len() == lengths.len(),
        0 <= axis <= lengths.len(),
    ensures
        linear_index(lengths, coords) == leading(lengths, coords, axis) * volume_from(
            lengths,
            axis,
        ) + linear_index_from(lengths, coords, axis),
    decreases axis,
{
    if axis == 0 {
        let v = volume_from(lengths, 0) as int;
        assert(0 * v == 0) by (nonlinear_arith);
    } else {
        lemma_linear_index_split(lengths, coords, axis - 1);
        let l = leading(lengths, coords, axis - 1) as int;
        let n = lengths[axis - 1] as int;
        let c = coords[axis - 1] as int;
        let v = volume_from(lengths, axis) as int;
        assert(l * (n * v) + c * v == (l * n + c) * v) by (nonlinear_arith);
    }
}

/// Every index below the total length names a vector inside the shape, and
/// that vector has the index as its linear index.
pub proof fn lemma_linear_index_of_coords(lengths: Seq<nat>, index: nat)
    requires
        index < total_length(lengths),
    ensures
        in_shape(lengths, coords_of(lengths, index)),
        linear_index(lengths, coords_of(lengths, index)) == index,
{
    lemma_positive_volume_lengths(lengths, 0);
    let coords = coords_of(lengths, index);
    assert forall|i: int| 0 <= i < lengths.len() implies coords[i] < lengths[i] by {
        lemma_mod_pos_bound((index / stride(lengths, i)) as int, lengths[i] as int);
    }
    lemma_partial_sum_of_coords(lengths, index, 0);
    lemma_small_mod(index, total_length(lengths));
}

/// The digits of `index` from `axis` on add up to `index` modulo the volume
/// of those axes.
proof fn lemma_partial_sum_of_coords(lengths: Seq<nat>, index: nat, axis: int)
    requires
        0 <= axis <= lengths.len(),
        forall|i: int| 0 <= i < lengths.len() ==> lengths[i] > 0,
        forall|i: int| 0 <= i <= lengths.len() ==> volume_from(lengths, i) > 0,
    ensures
        linear_index_from(lengths, coords_of(lengths, index), axis) == index % volume_from(
            lengths,
            axis,
        ),
    decreases lengths.len() - axis,
{
    if axis < lengths.len() {
        lemma_partial_sum_of_coords(lengths, index, axis + 1);
        let s = stride(lengths, axis) as int;
        let n = lengths[axis] as int;
        let x = index as int;
        lemma_mod_breakdown(x, s, n);
        assert(s * ((x / s) % n) == ((x / s) % n) * s) by (nonlinear_arith);
        assert(s * n == n * s) by (nonlinear_arith);
    } else {
        lemma_small_mod(0, 1);
        assert(index % 1 == 0);
    }
}

/// Splitting off one coordinate: of the part of `index` that the axes from
/// `axis` on account for, the quotient by the stride is the coordinate along
/// `axis`, and the remainder is the part that the later axes account for.
pub proof fn lemma_coordinate_step(lengths: Seq<nat>, index: nat, axis: int)
    requires
        0 <= axis < lengths.len(),
        lengths[axis] > 0,
        stride(lengths, axis) > 0,
    ensures
        (index % volume_from(lengths, axis)) / stride(lengths, axis) == coordinate_of(
            lengths,
            index,
            axis,
        ),
        (index % volume_from(lengths, axis)) % stride(lengths, axis) == index % volume_from(
            lengths,
            axis + 1,
        ),
{
    let s = stride(lengths, axis) as int;
    let n = lengths[axis] as int;
    let x = index as int;
    lemma_mod_breakdown(x, s, n);
    lemma_mod_mod(x, s, n);
    assert(s * n == n * s) by (nonlinear_arith);
    let q = (x / s) % n;
    assert(s * q == q * s) by (nonlinear_arith);
    lemma_mod_pos_bound(x, s);
    lemma_fundamental_div_mod_converse(x % (s * n), s, q, x % s);
}

/// A vector inside the shape is the one that its linear index names.
pub proof fn lemma_coords_of_linear_index(lengths: Seq<nat>, coords: Seq<nat>)
    requires
        in_shape(lengths, coords),
    ensures
        linear_index(lengths, coords) < total_length(lengths),
        coords_of(lengths, linear_index(lengths, coords)) == coords,
{
    lemma_linear_index_bound(lengths, coords, 0);
    let index = linear_index(lengths, coords);
    let back = coords_of(lengths, index);
    assert forall|i: int| 0 <= i < lengths.len() implies back[i] == coords[i] by {
        lemma_linear_index_split(lengths, coords, i + 1);
        lemma_linear_index_bound(lengths, coords, i + 1);
        let q = leading(lengths, coords, i + 1) as int;
        let s = stride(lengths, i) as int;
        let r = linear_index_from(lengths, coords, i + 1) as int;
        lemma_fundamental_div_mod_converse(index as int, s, q, r);
        let l = leading(lengths, coords, i) as int;
        lemma_fundamental_div_mod_converse(q, lengths[i] as int, l, coords[i] as int);
    }
    assert(back =~= coords);
}

/// A carry that arrives at `axis`, with every later coordinate already back at
/// zero, either adds the stride of `axis` to the linear index or, when it
/// leaves axis 0, ends at the zero vector after the last element.
pub proof fn lemma_advanced_from(lengths: Seq<nat>, coords: Seq<nat>, axis: int)
    requires
        coords.len() == lengths.len(),
        -1 <= axis < lengths.len(),
        forall|i: int| 0 <= i <= axis ==> coords[i] < lengths[i],
        forall|i: int| axis < i < lengths.len() ==> coords[i] == 0 && lengths[i] > 0,
    ensures
        ({
            let (next, more) = advanced_from(lengths, coords, axis);
            &&& more ==> in_shape(lengths, next) && linear_index(lengths, next) == linear_index(
                lengths,
                coords,
            ) + stride(lengths, axis)
            &&& !more ==> next == zeros(lengths.len()) && linear_index(lengths, coords) + stride(
                lengths,
                axis,
            ) == total_length(lengths)
        }),
    decreases axis + 1,
{
    if axis < 0 {
        lemma_linear_index_zeros(lengths, coords, 0);
        assert(coords =~= zeros(lengths.len()));
    } else {
        let s = stride(lengths, axis) as int;
        let n = lengths[axis] as int;
        let c = coords[axis] as int;
        if coords[axis] + 1 == lengths[axis] {
            let reset = coords.update(axis, 0);
            lemma_advanced_from(lengths, reset, axis - 1);
            lemma_linear_index_update(lengths, coords, axis, 0, 0);
            assert((0 - c) * s + n * s == s) by (nonlinear_arith)
                requires
                    c + 1 == n,
            ;
        } else {
            lemma_linear_index_update(lengths, coords, axis, (coords[axis] + 1) as nat, 0);
            assert((c + 1 - c) * s == s) by (nonlinear_arith);
        }
    }
}

/// One odometer step from a vector inside the shape leads to the vector with
/// the next linear index; from the last vector it leads back to the zero vector
/// and reports the end.
pub proof fn lemma_advanced(lengths: Seq<nat>, coords: Seq<nat>)
    requires
        in_shape(lengths, coords),
    ensures
        linear_index(lengths, coords) < total_length(lengths),
        advanced(lengths, coords).1 <==> linear_index(lengths, coords) + 1 < total_length(lengths),
        advanced(lengths, coords).1 ==> in_shape(lengths, advanced(lengths, coords).0)
            && linear_index(lengths, advanced(lengths, coords).0) == linear_index(lengths, coords)
            + 1,
        !advanced(lengths, coords).1 ==> advanced(lengths, coords).0 == zeros(lengths.len()),
{
    lemma_linear_index_bound(lengths, coords, 0);
    lemma_advanced_from(lengths, coords, lengths.len() - 1);
    if advanced(lengths, coords).1 {
        lemma_linear_index_bound(lengths, advanced(lengths, coords).0, 0);
    }
}

/// Starting from the zero vector, the odometer visits the elements of a
/// non-empty array in ascending order of their linear index, each once: after
/// `steps` steps it stands at the vector with linear index `steps`. Every step
/// but the one from the last element reports more to come; that one reports the
/// end and leaves the zero vector.
pub proof fn lemma_advance_visits_all(lengths: Seq<nat>, steps: nat)
    requires
        steps < total_length(lengths),
    ensures
        visited(lengths, steps) == coords_of(lengths, steps),
        in_shape(lengths, visited(lengths, steps)),
        linear_index(lengths, visited(lengths, steps)) == steps,
        advanced(lengths, visited(lengths, steps)).1 <==> steps + 1 < total_length(lengths),
        steps + 1 == total_length(lengths) ==> advanced(lengths, visited(lengths, steps)) == (
            zeros(lengths.len()),
            false,
        ),
    decreases steps,
{
    lemma_linear_index_of_coords(lengths, steps);
    if steps == 0 {
        lemma_positive_volume_lengths(lengths, 0);
        let first = coords_of(lengths, 0);
        assert forall|i: int| 0 <= i < lengths.len() implies first[i] == 0 by {
            let s = stride(lengths, i) as int;
            assert(0int / s == 0) by (nonlinear_arith)
                requires
                    s > 0,
            ;
            lemma_small_mod(0, lengths[i]);
        }
        assert(first =~= zeros(lengths.len()));
    } else {
        let before = (steps - 1) as nat;
        lemma_advance_visits_all(lengths, before);
        lemma_advanced(lengths, visited(lengths, before));
        lemma_coords_of_linear_index(lengths, visited(lengths, steps));
    }
    lemma_advanced(lengths, visited(lengths, steps));
}

} // verus!

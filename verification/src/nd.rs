//! What the library has from `ndarray`: the concatenation of arrays.

use std::sync::Arc;
use vstd::prelude::*;
use crate::ops::trivial::values_of;
use crate::array::{coord, index_at, place};
use crate::tensor::{numel, Tensor, TensorValue};

verus! {

/// `ndarray::ShapeError`, the error of `ndarray`'s array functions. The
/// library reads nothing in it: it is turned into an error of its own.
#[verifier::external_type_specification]
#[verifier::external_body]
pub struct ExShapeError(ndarray::ShapeError);

/// The sum of the sizes of axis `axis` of the first `upto` of `parts`.
pub open spec fn axis_total(parts: Seq<TensorValue>, axis: int, upto: nat) -> nat
    decreases upto,
{
    if upto == 0 {
        0
    } else {
        axis_total(parts, axis, (upto - 1) as nat) + parts[upto - 1].dims[axis] as nat
    }
}

/// The shape of the concatenation of `parts` along `axis`: that of the
/// first part, with the sum of the sizes along the axis.
pub open spec fn concat_dims(axis: usize, parts: Seq<TensorValue>) -> Seq<usize> {
    parts[0].dims.update(axis as int, axis_total(parts, axis as int, parts.len()) as usize)
}

/// The product of the sizes of the axes that are not 0: what `ndarray`
/// holds against the largest size of an array.
pub open spec fn bulk(dims: Seq<usize>) -> nat
    decreases dims.len(),
{
    if dims.len() == 0 {
        1
    } else if dims.last() == 0 {
        bulk(dims.drop_last())
    } else {
        bulk(dims.drop_last()) * dims.last() as nat
    }
}

/// Two shapes with the same axes, of the same sizes but along `axis`.
pub open spec fn same_off_axis(a: Seq<usize>, b: Seq<usize>, axis: int) -> bool {
    a.len() == b.len() && forall|d: int| 0 <= d < a.len() && d != axis ==> a[d] == b[d]
}

/// The arrays can be concatenated along `axis`: there is one at least,
/// they have the same shape but along the axis, and neither one of them
/// nor the result is larger than an array can be.
pub open spec fn concatenable(axis: usize, parts: Seq<TensorValue>) -> bool {
    &&& parts.len() > 0
    &&& forall|k: int| 0 <= k < parts.len() ==> bulk((#[trigger] parts[k]).dims) <= isize::MAX
    &&& forall|k: int| 0 <= k < parts.len() ==> same_off_axis((#[trigger] parts[k]).dims, parts[0].dims, axis as int)
    &&& bulk(concat_dims(axis, parts)) <= isize::MAX
}

/// The part that holds the index `at` along the axis of the concatenation,
/// looked for from part `k` on: the first whose end lies beyond `at`.
pub open spec fn part_at(parts: Seq<TensorValue>, axis: int, at: int, k: nat) -> nat
    decreases parts.len() - k,
{
    if k + 1 >= parts.len() || at < axis_total(parts, axis, k + 1) {
        k
    } else {
        part_at(parts, axis, at, k + 1)
    }
}

/// The elements of the concatenation of `parts` along `axis`, in row-major
/// order: the element at an index is the element of the part that holds
/// the index along the axis, at the same index but along the axis, where
/// the index counts from the start of the part.
pub open spec fn concatenated(axis: usize, parts: Seq<TensorValue>) -> Seq<i64> {
    let dims = concat_dims(axis, parts);
    Seq::new(
        numel(dims),
        |p: int|
            {
                let at = coord(dims, p, axis as int);
                let k = part_at(parts, axis as int, at, 0) as int;
                let inside = index_at(dims, p).update(axis as int, at - axis_total(parts, axis as int, k as nat));
                parts[k].items[place(parts[k].dims, inside, 0)]
            },
    )
}

/// `ndarray::concatenate`, on arrays made of the tensors with
/// `ArrayD::from_shape_vec`. It succeeds exactly where the arrays are
/// `concatenable`: `from_shape_vec` refuses a shape whose sizes, those of 0
/// left out, multiply to more than `isize::MAX`, and `concatenate` refuses
/// no array, arrays whose shapes differ off the axis, and a result of such
/// a size. The result has the shape of the first array but along `axis`,
/// where it has the sum of the sizes; its elements, read in row-major
/// order, are those of the arrays, one array after the other along the
/// axis (`concatenated`), and are as many as the shape says. Two inputs
/// are left out because `ndarray` panics on them: an axis that one of the
/// arrays has not, and sizes along the axis that add up to more than a
/// `usize` holds.
#[verifier::external_body]
pub(crate) fn nd_concatenate(axis: usize, parts: &Vec<Arc<Tensor>>) -> (r: Result<
    (Vec<usize>, Vec<i64>),
    ndarray::ShapeError,
>)
    requires
        forall|k: int| 0 <= k < parts@.len() ==> axis < (#[trigger] parts@[k])@.dims.len(),
        axis_total(values_of(parts@), axis as int, parts@.len()) <= usize::MAX,
    ensures
        r is Ok <==> concatenable(axis, values_of(parts@)),
        r matches Ok(v) ==> v.0@ == concat_dims(axis, values_of(parts@)) && v.1@ == concatenated(
            axis,
            values_of(parts@),
        ) && v.1@.len() == numel(v.0@),
{
    let mut arrays = Vec::new();
    for t in parts.iter() {
        arrays.push(ndarray::ArrayD::from_shape_vec(ndarray::IxDyn(t.shape()), t.data().clone())?);
    }
    let views: Vec<_> = arrays.iter().map(|a| a.view()).collect();
    let out = ndarray::concatenate(ndarray::Axis(axis), &views)?;
    Ok((out.shape().to_vec(), out.iter().cloned().collect()))
}

} // verus!

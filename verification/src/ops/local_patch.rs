//! Local patches: the geometry of convolution and pooling. A window of
//! `filter_rows` by `filter_cols` moves over an image in steps of a stride;
//! with the padding `Same` the image is padded first so that every step
//! finds a whole window. The numeric kernels are the host's: here are the
//! sizes, the padding and the gathering of the windows.

use std::sync::Arc;
use vstd::arithmetic::div_mod::{lemma_div_is_ordered, lemma_div_multiples_vanish};
use vstd::prelude::*;
use crate::errors::TractError;
use crate::array::{
    coord, index_at, lemma_index_bound, lemma_place_bound, lemma_place_index, lemma_tail_ends, place,
};
use crate::nd::{axis_total, concat_dims, concatenable, concatenated, nd_concatenate, part_at};
use crate::share::share;
use crate::ops::trivial::values_of;
use crate::ops::Op;
use crate::tensor::{copy_sizes, numel, shape_len, Tensor, TensorValue};

verus! {

/// The layout of images: batch, height, width, channels.
#[derive(Debug, Clone, Copy, PartialEq, Eq, Structural)]
pub enum DataFormat {
    NHWC,
}

/// Whether the image is padded.
#[derive(Debug, Clone, Copy, PartialEq, Eq, Structural)]
pub enum Padding {
    Valid,
    Same,
}

/// An image: a tensor of height, width and depth.
#[derive(Debug)]
pub struct ImageWrapper<'a>(pub &'a Tensor);

impl<'a> ImageWrapper<'a> {
    pub fn height(&self) -> (r: usize)
        requires
            self.0@.dims.len() == 3,
        ensures
            r == self.0@.dims[0],
    {
        self.0.shape()[0]
    }

    pub fn width(&self) -> (r: usize)
        requires
            self.0@.dims.len() == 3,
        ensures
            r == self.0@.dims[1],
    {
        self.0.shape()[1]
    }

    pub fn depth(&self) -> (r: usize)
        requires
            self.0@.dims.len() == 3,
        ensures
            r == self.0@.dims[2],
    {
        self.0.shape()[2]
    }
}

/// A batch of images: a tensor of count, height, width and depth.
#[derive(Debug)]
pub struct BatchImageWrapper<'a>(pub &'a Tensor);

impl<'a> BatchImageWrapper<'a> {
    pub fn count(&self) -> (r: usize)
        requires
            self.0@.dims.len() == 4,
        ensures
            r == self.0@.dims[0],
    {
        self.0.shape()[0]
    }

    pub fn height(&self) -> (r: usize)
        requires
            self.0@.dims.len() == 4,
        ensures
            r == self.0@.dims[1],
    {
        self.0.shape()[1]
    }

    pub fn h(&self) -> (r: usize)
        requires
            self.0@.dims.len() == 4,
        ensures
            r == self.0@.dims[1],
    {
        self.0.shape()[1]
    }

    pub fn width(&self) -> (r: usize)
        requires
            self.0@.dims.len() == 4,
        ensures
            r == self.0@.dims[2],
    {
        self.0.shape()[2]
    }

    pub fn w(&self) -> (r: usize)
        requires
            self.0@.dims.len() == 4,
        ensures
            r == self.0@.dims[2],
    {
        self.0.shape()[2]
    }

    pub fn depth(&self) -> (r: usize)
        requires
            self.0@.dims.len() == 4,
        ensures
            r == self.0@.dims[3],
    {
        self.0.shape()[3]
    }

    pub fn d(&self) -> (r: usize)
        requires
            self.0@.dims.len() == 4,
        ensures
            r == self.0@.dims[3],
    {
        self.0.shape()[3]
    }
}

/// The geometry of an operator on local patches.
#[derive(Debug)]
pub struct LocalPatch {
    pub _data_format: DataFormat,
    pub padding: Padding,
    pub strides: Vec<usize>,
}

/// `a` divided by `b`, rounded up.
pub open spec fn ceil_div(a: int, b: int) -> int {
    (a + b - 1) / b
}

/// How much padding one axis of the size `size` takes for a window of the
/// size `filter` that moves by `stride`.
pub open spec fn axis_padding(size: int, filter: int, stride: int) -> int {
    let last = if size % stride == 0 {
        stride
    } else {
        size % stride
    };
    if filter >= last {
        filter - last
    } else {
        0
    }
}

/// The bytes of `NCHW`.
pub open spec fn nchw() -> Seq<u8> {
    seq![78u8, 67u8, 72u8, 87u8]
}

/// The bytes of `VALID`.
pub open spec fn valid_word() -> Seq<u8> {
    seq![86u8, 65u8, 76u8, 73u8, 68u8]
}

/// The bytes of `SAME`.
pub open spec fn same_word() -> Seq<u8> {
    seq![83u8, 65u8, 77u8, 69u8]
}

/// Whether `v` holds the bytes `NCHW`.
fn is_nchw(v: &Vec<u8>) -> (r: bool)
    ensures
        r == (v@ == nchw()),
{
    let r = v.len() == 4 && v[0] == 78 && v[1] == 67 && v[2] == 72 && v[3] == 87;
    proof {
        if r {
            assert(v@ =~= nchw());
        }
    }
    r
}

fn is_valid_word(v: &Vec<u8>) -> (r: bool)
    ensures
        r == (v@ == valid_word()),
{
    let r = v.len() == 5 && v[0] == 86 && v[1] == 65 && v[2] == 76 && v[3] == 73 && v[4] == 68;
    proof {
        if r {
            assert(v@ =~= valid_word());
        }
    }
    r
}

fn is_same_word(v: &Vec<u8>) -> (r: bool)
    ensures
        r == (v@ == same_word()),
{
    let r = v.len() == 4 && v[0] == 83 && v[1] == 65 && v[2] == 77 && v[3] == 69;
    proof {
        if r {
            assert(v@ =~= same_word());
        }
    }
    r
}

/// The padding that the attribute of an operator names.
pub open spec fn padding_of(word: Seq<u8>) -> Option<Padding> {
    if word == valid_word() {
        Some(Padding::Valid)
    } else if word == same_word() {
        Some(Padding::Same)
    } else {
        None
    }
}

/// The attributes of an operator can be built from: the data format is
/// not `NCHW`, there are strides, none negative or too large, and the
/// padding is `VALID` or `SAME`.
pub open spec fn buildable(data_format: Option<Vec<u8>>, strides: Option<Vec<i64>>, padding: Option<Vec<u8>>) -> bool {
    &&& !(data_format matches Some(f) && f@ == nchw())
    &&& strides matches Some(s) && forall|i: int| 0 <= i < s@.len() ==> 0 <= #[trigger] s@[i] <= usize::MAX
    &&& padding matches Some(p) && padding_of(p@) is Some
}

impl LocalPatch {
    /// The geometry that the attributes of an operator give: `data_format`,
    /// `strides` and `padding`, each as the definition of the operator
    /// holds it, if it does.
    pub fn build(data_format: Option<Vec<u8>>, strides: Option<Vec<i64>>, padding: Option<Vec<u8>>) -> (r: Result<
        LocalPatch,
        TractError,
    >)
        ensures
            buildable(data_format, strides, padding) ==> r is Ok && r->Ok_0._data_format == DataFormat::NHWC
                && Some(r->Ok_0.padding) == padding_of(padding->Some_0@) && r->Ok_0.strides@ == Seq::new(
                strides->Some_0@.len(),
                |i: int| strides->Some_0@[i] as usize,
            ),
            !buildable(data_format, strides, padding) ==> r is Err && r->Err_0 == TractError::MalformedGraph,
    {
        match &data_format {
            Some(f) => {
                if is_nchw(f) {
                    return Err(TractError::MalformedGraph);
                }
            },
            None => {},
        }
        let list = match &strides {
            Some(s) => s,
            None => {
                return Err(TractError::MalformedGraph);
            },
        };
        let mut out: Vec<usize> = Vec::new();
        let mut i: usize = 0;
        while i < list.len()
            invariant
                i <= list.len(),
                strides == Some(*list),
                !(data_format matches Some(f) && f@ == nchw()),
                forall|k: int| 0 <= k < i ==> 0 <= #[trigger] list@[k] <= usize::MAX,
                out@ == Seq::new(i as nat, |k: int| list@[k] as usize),
            decreases list.len() - i,
        {
            let a = list[i];
            if a < 0 || a as u64 > usize::MAX as u64 {
                proof {
                    let s = strides->Some_0;
                    assert(s@ == list@);
                    assert(!(0 <= s@[i as int] <= usize::MAX));
                }
                return Err(TractError::MalformedGraph);
            }
            out.push(a as usize);
            i += 1;
            proof {
                assert(out@ =~= Seq::new(i as nat, |k: int| list@[k] as usize));
            }
        }
        let word = match &padding {
            Some(p) => p,
            None => {
                return Err(TractError::MalformedGraph);
            },
        };
        let padding = if is_valid_word(word) {
            Padding::Valid
        } else if is_same_word(word) {
            Padding::Same
        } else {
            return Err(TractError::MalformedGraph);
        };
        Ok(LocalPatch { _data_format: DataFormat::NHWC, padding, strides: out })
    }

    /// The stride along the height and the width, where the geometry has
    /// one that is not 0.
    pub open spec fn stride(&self) -> Option<usize> {
        if self.strides@.len() > 1 && self.strides@[1] > 0 {
            Some(self.strides@[1])
        } else {
            None
        }
    }

    /// The size of the output for an input of `in_rows` by `in_cols` and a
    /// window of `filter`: with the padding `Same`, the input divided by
    /// the stride, rounded up; with `Valid`, the number of places at which
    /// a whole window fits, divided by the stride, rounded up. It is
    /// undefined without a stride, for an empty window, and for a window
    /// that is larger than the input by more than 1.
    pub open spec fn adjusted(&self, in_rows: usize, in_cols: usize, filter: (usize, usize)) -> Option<(usize, usize)> {
        match self.stride() {
            Some(s) => match self.padding {
                Padding::Same => Some((ceil_div(in_rows as int, s as int) as usize, ceil_div(in_cols as int, s as int) as usize)),
                Padding::Valid => if 1 <= filter.0 <= in_rows + 1 && 1 <= filter.1 <= in_cols + 1 {
                    Some(
                        (
                            ceil_div(in_rows - filter.0 + 1, s as int) as usize,
                            ceil_div(in_cols - filter.1 + 1, s as int) as usize,
                        ),
                    )
                } else {
                    None
                },
            },
            None => None,
        }
    }

    /// The size of the output: see `adjusted`.
    pub fn adjusted_dim(&self, in_rows: usize, in_cols: usize, filter: (usize, usize)) -> (r: Result<
        (usize, usize),
        TractError,
    >)
        ensures
            match self.adjusted(in_rows, in_cols, filter) {
                Some(d) => r == Ok::<(usize, usize), TractError>(d),
                None => r == Err::<(usize, usize), TractError>(TractError::EvalError),
            },
    {
        if self.strides.len() < 2 || self.strides[1] == 0 {
            return Err(TractError::EvalError);
        }
        let stride = self.strides[1];
        match self.padding {
            Padding::Same => Ok((round_up(in_rows as u128, stride), round_up(in_cols as u128, stride))),
            Padding::Valid => {
                if filter.0 == 0 || filter.1 == 0 || filter.0 as u128 > in_rows as u128 + 1 || filter.1 as u128
                    > in_cols as u128 + 1 {
                    return Err(TractError::EvalError);
                }
                Ok(
                    (
                        round_up(in_rows as u128 + 1 - filter.0 as u128, stride),
                        round_up(in_cols as u128 + 1 - filter.1 as u128, stride),
                    ),
                )
            },
        }
    }

    /// The padding above and below, and left and right, for an image of
    /// `height` by `width` and a window of `filter`: of the padding that an
    /// axis takes, the smaller half comes first.
    pub fn paddings(&self, height: usize, width: usize, filter: (usize, usize)) -> (r: Result<
        ((usize, usize), (usize, usize)),
        TractError,
    >)
        ensures
            match self.stride() {
                Some(s) => r is Ok && ({
                    let v = axis_padding(height as int, filter.0 as int, s as int);
                    let h = axis_padding(width as int, filter.1 as int, s as int);
                    r->Ok_0 == (((v / 2) as usize, (v - v / 2) as usize), ((h / 2) as usize, (h - h / 2) as usize))
                }),
                None => r is Err && r->Err_0 == TractError::EvalError,
            },
    {
        if self.strides.len() < 2 || self.strides[1] == 0 {
            return Err(TractError::EvalError);
        }
        let stride = self.strides[1];
        let v = one_padding(height, filter.0, stride);
        let h = one_padding(width, filter.1, stride);
        Ok(((v / 2, v - v / 2), (h / 2, h - h / 2)))
    }
}

/// `a` divided by `b`, rounded up.
fn round_up(a: u128, b: usize) -> (r: usize)
    requires
        b > 0,
        a <= usize::MAX,
    ensures
        r == ceil_div(a as int, b as int),
{
    let q = (a + b as u128 - 1) / (b as u128);
    proof {
        if a == 0 {
            assert((b - 1) / (b as int) == 0) by (nonlinear_arith)
                requires
                    b >= 1,
            ;
        } else {
            assert(a + b - 1 <= a * b) by (nonlinear_arith)
                requires
                    a >= 1,
                    b >= 1,
            ;
            lemma_div_is_ordered(a + b - 1, a * b, b as int);
            lemma_div_multiples_vanish(a as int, b as int);
            assert(a * b == b * a) by (nonlinear_arith);
            assert((a + b - 1) / (b as int) <= a);
        }
        assert(q == (a + b - 1) / (b as int));
        assert(q <= a);
    }
    q as usize
}

/// The padding that one axis takes.
fn one_padding(size: usize, filter: usize, stride: usize) -> (r: usize)
    requires
        stride > 0,
    ensures
        r == axis_padding(size as int, filter as int, stride as int),
{
    let rest = size % stride;
    let last = if rest == 0 {
        stride
    } else {
        rest
    };
    if filter >= last {
        filter - last
    } else {
        0
    }
}

/// The tensor of shape `dims` of which every element is `item`.
pub open spec fn filled_value(like: TensorValue, dims: Seq<usize>, item: i64) -> TensorValue {
    TensorValue { dt: like.dt, dims, items: Seq::new(numel(dims), |i: int| item) }
}

/// The concatenation of three tensors along an axis.
pub open spec fn joined(axis: usize, a: TensorValue, b: TensorValue, c: TensorValue) -> TensorValue {
    TensorValue { dt: b.dt, dims: concat_dims(axis, seq![a, b, c]), items: concatenated(axis, seq![a, b, c]) }
}

/// The three tensors can be joined along `axis`: the sizes along the axis
/// add up to a number that can be counted, and the arrays are
/// `concatenable`.
pub open spec fn joinable(axis: usize, a: TensorValue, b: TensorValue, c: TensorValue) -> bool {
    a.dims[axis as int] + b.dims[axis as int] + c.dims[axis as int] <= usize::MAX && concatenable(axis, seq![a, b, c])
}

/// The tensor `data` with `before` layers of `item` put before it along
/// `axis`, and `after` layers behind it: the element at an index that lies
/// `before` or more, and less than `before` and the size of `data`, along
/// the axis is the element of `data` at the index that lies `before` less
/// along the axis; every other element is `item`.
pub open spec fn framed(axis: usize, data: TensorValue, before: usize, after: usize, item: i64) -> TensorValue {
    let dims = data.dims.update(axis as int, (before + data.dims[axis as int] + after) as usize);
    TensorValue {
        dt: data.dt,
        dims,
        items: Seq::new(
            numel(dims),
            |p: int|
                {
                    let at = coord(dims, p, axis as int);
                    if before <= at < before + data.dims[axis as int] {
                        data.items[place(data.dims, index_at(dims, p).update(axis as int, at - before), 0)]
                    } else {
                        item
                    }
                },
        ),
    }
}

/// The layers of `framed` can be made and joined: `data` has the axis,
/// the sizes along it add up to a number that can be counted, each block
/// of layers has a number of elements that can be counted, and the arrays
/// are `concatenable`.
pub open spec fn frame_fits(axis: usize, data: TensorValue, before: usize, after: usize, item: i64) -> bool {
    let head = data.dims.update(axis as int, before);
    let foot = data.dims.update(axis as int, after);
    &&& axis < data.dims.len()
    &&& numel(head) <= usize::MAX
    &&& numel(foot) <= usize::MAX
    &&& joinable(axis, filled_value(data, head, item), data, filled_value(data, foot, item))
}

/// A batch of images with `h.0` columns of `item` put before each row and
/// `h.1` behind it, and then `v.0` rows of `item` put above each image and
/// `v.1` below it.
pub open spec fn padded_value(data: TensorValue, v: (usize, usize), h: (usize, usize), item: i64) -> TensorValue {
    framed(1, framed(2, data, h.0, h.1, item), v.0, v.1, item)
}

/// The columns and then the rows of `padded_value` can be made and joined.
pub open spec fn padding_fits(data: TensorValue, v: (usize, usize), h: (usize, usize), item: i64) -> bool {
    frame_fits(2, data, h.0, h.1, item) && frame_fits(1, framed(2, data, h.0, h.1, item), v.0, v.1, item)
}

/// An element of a framed tensor, by its index `c`: along the axis, the
/// indices from `before` on, as many as `data` has, hold the elements of
/// `data` in their order; every other index holds `item`.
pub proof fn lemma_framed_element(axis: usize, data: TensorValue, before: usize, after: usize, item: i64, c: Seq<int>)
    requires
        axis < data.dims.len(),
        before + data.dims[axis as int] + after <= usize::MAX,
        c.len() == data.dims.len(),
        forall|k: int| 0 <= k < c.len() ==> 0 <= #[trigger] c[k] < framed(axis, data, before, after, item).dims[k],
    ensures
        framed(axis, data, before, after, item).dims == data.dims.update(
            axis as int,
            (before + data.dims[axis as int] + after) as usize,
        ),
        0 <= place(framed(axis, data, before, after, item).dims, c, 0) < numel(
            framed(axis, data, before, after, item).dims,
        ),
        framed(axis, data, before, after, item).items[place(framed(axis, data, before, after, item).dims, c, 0)] == (if before
            <= c[axis as int] < before + data.dims[axis as int] {
            data.items[place(data.dims, c.update(axis as int, c[axis as int] - before), 0)]
        } else {
            item
        }),
{
    let dims = framed(axis, data, before, after, item).dims;
    let p = place(dims, c, 0);
    lemma_place_bound(dims, c, 0);
    lemma_tail_ends(dims);
    assert(index_at(dims, p) =~= c) by {
        assert forall|d: int| 0 <= d < dims.len() implies index_at(dims, p)[d] == c[d] by {
            lemma_place_index(dims, c, d);
        }
    }
    lemma_place_index(dims, c, axis as int);
}

/// An element of a padded batch of images, by its index `c`: the image
/// lies `v.0` rows down and `h.0` columns in, and `item` lies around it.
pub proof fn lemma_padded_element(data: TensorValue, v: (usize, usize), h: (usize, usize), item: i64, c: Seq<int>)
    requires
        data.dims.len() == 4,
        v.0 + data.dims[1] + v.1 <= usize::MAX,
        h.0 + data.dims[2] + h.1 <= usize::MAX,
        c.len() == 4,
        0 <= c[0] < data.dims[0],
        0 <= c[1] < v.0 + data.dims[1] + v.1,
        0 <= c[2] < h.0 + data.dims[2] + h.1,
        0 <= c[3] < data.dims[3],
    ensures
        padded_value(data, v, h, item).dims == seq![
            data.dims[0],
            (v.0 + data.dims[1] + v.1) as usize,
            (h.0 + data.dims[2] + h.1) as usize,
            data.dims[3],
        ],
        0 <= place(padded_value(data, v, h, item).dims, c, 0) < numel(padded_value(data, v, h, item).dims),
        padded_value(data, v, h, item).items[place(padded_value(data, v, h, item).dims, c, 0)] == (if v.0 <= c[1] < v.0
            + data.dims[1] && h.0 <= c[2] < h.0 + data.dims[2] {
            data.items[place(data.dims, seq![c[0], c[1] - v.0, c[2] - h.0, c[3]], 0)]
        } else {
            item
        }),
{
    let wide = framed(2, data, h.0, h.1, item);
    let all = padded_value(data, v, h, item);
    assert(all.dims =~= seq![
        data.dims[0],
        (v.0 + data.dims[1] + v.1) as usize,
        (h.0 + data.dims[2] + h.1) as usize,
        data.dims[3],
    ]);
    lemma_framed_element(1, wide, v.0, v.1, item, c);
    if v.0 <= c[1] < v.0 + data.dims[1] {
        let inner = c.update(1, c[1] - v.0);
        lemma_framed_element(2, data, h.0, h.1, item, inner);
        assert(inner.update(2, inner[2] - h.0) =~= seq![c[0], c[1] - v.0, c[2] - h.0, c[3]]);
    }
}

/// Layers of one value joined to a tensor, before it and behind it, frame
/// it.
proof fn lemma_joined_frames(axis: usize, data: TensorValue, before: usize, after: usize, item: i64)
    requires
        axis < data.dims.len(),
        before + data.dims[axis as int] + after <= usize::MAX,
        numel(data.dims) == data.items.len(),
    ensures
        joined(
            axis,
            filled_value(data, data.dims.update(axis as int, before), item),
            data,
            filled_value(data, data.dims.update(axis as int, after), item),
        ) == framed(axis, data, before, after, item),
{
    let head = filled_value(data, data.dims.update(axis as int, before), item);
    let foot = filled_value(data, data.dims.update(axis as int, after), item);
    let parts = seq![head, data, foot];
    let ax = axis as int;
    let size = data.dims[ax] as int;
    reveal_with_fuel(axis_total, 4);
    assert(axis_total(parts, ax, 1) == before);
    assert(axis_total(parts, ax, 2) == before + size);
    assert(axis_total(parts, ax, 3) == before + size + after);
    let dims = concat_dims(axis, parts);
    let want = framed(axis, data, before, after, item);
    assert(dims =~= want.dims);
    let got = concatenated(axis, parts);
    assert(got =~= want.items) by {
        assert forall|p: int| 0 <= p < numel(dims) implies got[p] == want.items[p] by {
            let at = coord(dims, p, ax);
            assert forall|d: int| 0 <= d < dims.len() implies 0 <= #[trigger] index_at(dims, p)[d] < dims[d] by {
                lemma_index_bound(dims, p, d);
            }
            assert(0 <= index_at(dims, p)[ax] < dims[ax]);
            reveal_with_fuel(part_at, 3);
            let k = part_at(parts, ax, at, 0) as int;
            let inside = index_at(dims, p).update(ax, at - axis_total(parts, ax, k as nat));
            if at < before {
                assert(k == 0);
                lemma_tail_ends(head.dims);
                assert forall|d: int| 0 <= d < head.dims.len() implies 0 <= #[trigger] inside[d] < head.dims[d] by {
                    assert(0 <= index_at(dims, p)[d] < dims[d]);
                }
                lemma_place_bound(head.dims, inside, 0);
            } else if at < before + size {
                assert(k == 1);
            } else {
                assert(k == 2);
                lemma_tail_ends(foot.dims);
                assert forall|d: int| 0 <= d < foot.dims.len() implies 0 <= #[trigger] inside[d] < foot.dims[d] by {
                    assert(0 <= index_at(dims, p)[d] < dims[d]);
                }
                lemma_place_bound(foot.dims, inside, 0);
            }
        }
    }
}

/// Joins three tensors along an axis that each of them has. It fails where
/// they are not `joinable`.
fn join(axis: usize, a: Tensor, b: Arc<Tensor>, c: Tensor) -> (r: Result<Tensor, TractError>)
    requires
        axis < a@.dims.len(),
        axis < b@.dims.len(),
        axis < c@.dims.len(),
    ensures
        joinable(axis, a@, b@, c@) ==> r is Ok && r->Ok_0@ == joined(axis, a@, b@, c@),
        !joinable(axis, a@, b@, c@) ==> r == Err::<Tensor, TractError>(TractError::EvalError),
{
    let dt = b.datum_type();
    let total = match a.shape()[axis].checked_add(b.shape()[axis]) {
        Some(s) => match s.checked_add(c.shape()[axis]) {
            Some(t) => t,
            None => {
                return Err(TractError::EvalError);
            },
        },
        None => {
            return Err(TractError::EvalError);
        },
    };
    let mut parts: Vec<Arc<Tensor>> = Vec::new();
    parts.push(Arc::new(a));
    parts.push(b);
    parts.push(Arc::new(c));
    proof {
        let vals = values_of(parts@);
        assert(vals =~= seq![a@, b@, c@]);
        reveal_with_fuel(axis_total, 4);
        assert(axis_total(vals, axis as int, 3) == total);
    }
    match nd_concatenate(axis, &parts) {
        Ok((dims, items)) => Tensor::new(dt, dims, items),
        Err(_) => Err(TractError::EvalError),
    }
}

/// Puts `before` layers of `item` before `data` along `axis`, and `after`
/// layers behind it: see `framed`. It fails where the layers cannot be
/// made and joined.
fn frame(axis: usize, data: Arc<Tensor>, before: usize, after: usize, item: i64) -> (r: Result<Tensor, TractError>)
    ensures
        frame_fits(axis, data@, before, after, item) ==> r is Ok && r->Ok_0@ == framed(axis, data@, before, after, item),
        !frame_fits(axis, data@, before, after, item) ==> r == Err::<Tensor, TractError>(TractError::EvalError),
{
    if axis >= data.rank() {
        return Err(TractError::EvalError);
    }
    let dt = data.datum_type();
    let count = data.len();
    let mut head_dims = copy_sizes(data.shape());
    head_dims.set(axis, before);
    let mut foot_dims = copy_sizes(data.shape());
    foot_dims.set(axis, after);
    let head = match Tensor::filled(dt, head_dims, item) {
        Ok(t) => t,
        Err(e) => {
            return Err(e);
        },
    };
    let foot = match Tensor::filled(dt, foot_dims, item) {
        Ok(t) => t,
        Err(e) => {
            return Err(e);
        },
    };
    proof {
        assert(head@ == filled_value(data@, data@.dims.update(axis as int, before), item));
        assert(foot@ == filled_value(data@, data@.dims.update(axis as int, after), item));
        if joinable(axis, head@, data@, foot@) {
            lemma_joined_frames(axis, data@, before, after, item);
        }
    }
    join(axis, head, data, foot)
}

/// The number of elements that `rows` windows of `fr` by `fc` by `depth`
/// hold, where it and the products on the way to it can be counted.
pub open spec fn patch_count(out: (usize, usize), filter: (usize, usize), depth: usize) -> Option<(usize, usize)> {
    let rows = out.0 * out.1;
    let cols = filter.0 * filter.1 * depth;
    if rows <= usize::MAX && filter.0 * filter.1 <= usize::MAX && cols <= usize::MAX && rows * cols <= usize::MAX {
        Some((rows as usize, cols as usize))
    } else {
        None
    }
}

/// The place in a batch of one image of `height` by `width` by `depth`
/// from which element `p` of the patches is read: the element is number
/// `d` of the depth at `(f_y, f_x)` in the window at `(i_y, i_x)`, which
/// lies at `(i_y * stride + f_y, i_x * stride + f_x)` in the image. It is
/// undefined where that lies outside the image.
pub open spec fn patch_source(
    p: int,
    out_w: int,
    filter_cols: int,
    cols: int,
    stride: int,
    height: int,
    width: int,
    depth: int,
) -> Option<int> {
    let row = p / cols;
    let col = p % cols;
    let i_y = row / out_w;
    let i_x = row % out_w;
    let f_y = col / (filter_cols * depth);
    let rest = col % (filter_cols * depth);
    let f_x = rest / depth;
    let d = rest % depth;
    let y = i_y * stride + f_y;
    let x = i_x * stride + f_x;
    if y < height && x < width {
        Some((y * width + x) * depth + d)
    } else {
        None
    }
}

/// The patches of a batch of one image `source`, for an output of `out`
/// windows of the size `filter` at the stride `stride`: one row for each
/// window, which holds the elements of the window. It is undefined where
/// the source is no batch of one image, the elements cannot be counted, or
/// a window reaches outside the image.
pub open spec fn patches_value(source: TensorValue, out: (usize, usize), filter: (usize, usize), stride: usize) -> Option<
    TensorValue,
> {
    if source.dims.len() == 4 && source.dims[0] == 1 {
        match patch_count(out, filter, source.dims[3]) {
            Some((rows, cols)) => if forall|p: int|
                0 <= p < rows * cols ==> (#[trigger] patch_source(
                    p,
                    out.1 as int,
                    filter.1 as int,
                    cols as int,
                    stride as int,
                    source.dims[1] as int,
                    source.dims[2] as int,
                    source.dims[3] as int,
                )) is Some {
                Some(
                    TensorValue {
                        dt: source.dt,
                        dims: seq![rows, cols],
                        items: Seq::new(
                            (rows * cols) as nat,
                            |p: int|
                                source.items[patch_source(
                                    p,
                                    out.1 as int,
                                    filter.1 as int,
                                    cols as int,
                                    stride as int,
                                    source.dims[1] as int,
                                    source.dims[2] as int,
                                    source.dims[3] as int,
                                ).unwrap()],
                        ),
                    },
                )
            } else {
                None
            },
            None => None,
        }
    } else {
        None
    }
}

/// Gathers the patches of a batch of one image: see `patches_value`.
pub fn gather_patches(source: &Tensor, out: (usize, usize), filter: (usize, usize), stride: usize) -> (r: Result<
    Tensor,
    TractError,
>)
    ensures
        match patches_value(source@, out, filter, stride) {
            Some(v) => r is Ok && r->Ok_0@ == v,
            None => r is Err && r->Err_0 == TractError::EvalError,
        },
{
    let shape = source.shape();
    let items = source.data();
    let count = items.len();
    if shape.len() != 4 || shape[0] != 1 {
        return Err(TractError::EvalError);
    }
    let height = shape[1];
    let width = shape[2];
    let depth = shape[3];
    proof {
        reveal_with_fuel(numel, 5);
        assert(shape@.drop_last().drop_last().drop_last().drop_last() =~= Seq::<usize>::empty());
        assert(numel(shape@) == 1 * 1 * height * width * depth);
        assert(1 * 1 * height * width * depth == height * width * depth) by (nonlinear_arith);
    }
    let rows = match out.0.checked_mul(out.1) {
        Some(r) => r,
        None => {
            return Err(TractError::EvalError);
        },
    };
    let window = match filter.0.checked_mul(filter.1) {
        Some(r) => r,
        None => {
            return Err(TractError::EvalError);
        },
    };
    let cols = match window.checked_mul(depth) {
        Some(r) => r,
        None => {
            return Err(TractError::EvalError);
        },
    };
    let total = match rows.checked_mul(cols) {
        Some(r) => r,
        None => {
            return Err(TractError::EvalError);
        },
    };
    assert(patch_count(out, filter, depth) == Some((rows, cols)));
    let mut data: Vec<i64> = Vec::new();
    let mut p: usize = 0;
    while p < total
        invariant
            p <= total,
            total == rows * cols,
            rows == out.0 * out.1,
            cols == filter.0 * filter.1 * depth,
            shape@ == source@.dims,
            items@ == source@.items,
            shape@.len() == 4,
            shape@[0] == 1,
            height == shape@[1],
            width == shape@[2],
            depth == shape@[3],
            items@.len() == height * width * depth,
            count == items@.len(),
            patch_count(out, filter, depth) == Some((rows, cols)),
            data@.len() == p,
            forall|q: int|
                0 <= q < p ==> (#[trigger] patch_source(
                    q,
                    out.1 as int,
                    filter.1 as int,
                    cols as int,
                    stride as int,
                    height as int,
                    width as int,
                    depth as int,
                )) is Some && data@[q] == items@[patch_source(
                    q,
                    out.1 as int,
                    filter.1 as int,
                    cols as int,
                    stride as int,
                    height as int,
                    width as int,
                    depth as int,
                ).unwrap()],
        decreases total - p,
    {
        // there is an element, so no factor is 0
        assert(cols > 0 && rows > 0 && out.1 > 0 && depth > 0 && filter.1 > 0) by (nonlinear_arith)
            requires
                p < rows * cols,
                rows == out.0 * out.1,
                cols == filter.0 * filter.1 * depth,
        ;
        assert(filter.1 * depth > 0) by (nonlinear_arith)
            requires
                filter.1 > 0,
                depth > 0,
        ;
        assert(filter.1 * depth <= usize::MAX) by (nonlinear_arith)
            requires
                filter.0 * filter.1 * depth <= usize::MAX,
                filter.0 * filter.1 * depth > 0,
                filter.1 > 0,
                depth > 0,
        ;
        let row = p / cols;
        let col = p % cols;
        let i_y = row / out.1;
        let i_x = row % out.1;
        let per_row = filter.1 * depth;
        let f_y = col / per_row;
        let rest = col % per_row;
        let f_x = rest / depth;
        let d = rest % depth;
        assert(i_y * stride <= 0xffff_ffff_ffff_ffff * 0xffff_ffff_ffff_ffff && i_x * stride <= 0xffff_ffff_ffff_ffff
            * 0xffff_ffff_ffff_ffff) by (nonlinear_arith)
            requires
                0 <= i_y <= 0xffff_ffff_ffff_ffff,
                0 <= i_x <= 0xffff_ffff_ffff_ffff,
                0 <= stride <= 0xffff_ffff_ffff_ffff,
        ;
        let y: u128 = (i_y as u128) * (stride as u128) + (f_y as u128);
        let x: u128 = (i_x as u128) * (stride as u128) + (f_x as u128);
        if y >= height as u128 || x >= width as u128 {
            proof {
                assert(patch_source(
                    p as int,
                    out.1 as int,
                    filter.1 as int,
                    cols as int,
                    stride as int,
                    height as int,
                    width as int,
                    depth as int,
                ) is None);
            }
            return Err(TractError::EvalError);
        }
        assert((y * width + x) * depth + d < height * width * depth && y * width + x < height * width && y * width
            <= height * width && (y * width + x) * depth <= height * width * depth && height * width <= height
            * width * depth) by (nonlinear_arith)
            requires
                0 <= y < height,
                0 <= x < width,
                0 <= d < depth,
        ;
        let place = ((y as usize) * width + (x as usize)) * depth + d;
        data.push(items[place]);
        p += 1;
    }
    let mut dims: Vec<usize> = Vec::new();
    dims.push(rows);
    dims.push(cols);
    proof {
        assert(dims@ =~= seq![rows, cols]);
        reveal_with_fuel(numel, 3);
        assert(dims@.drop_last().drop_last() =~= Seq::<usize>::empty());
        assert(numel(dims@) == 1 * rows * cols);
        assert(1 * rows * cols == rows * cols) by (nonlinear_arith);
        assert(data@ =~= patches_value(source@, out, filter, stride).unwrap().items);
    }
    Tensor::new(source.datum_type(), dims, data)
}

impl LocalPatch {
    /// The strides have the form `[1, s, s, 1]`, as far as the operators on
    /// patches ask.
    pub open spec fn strides_fit(&self) -> bool {
        !(self.strides@.len() != 4 || (self.strides@[0] != 1 && self.strides@[3] != 1) || self.strides@[1]
            != self.strides@[2])
    }

    /// What `pad` gives for a batch of images, with the padding `Same`:
    /// the batch padded as `paddings` says. There is none for a tensor that
    /// is no batch of images, without a stride, and where the rows or the
    /// columns cannot be made and joined.
    pub open spec fn padded(&self, data: TensorValue, filter: (usize, usize), item: i64) -> Option<TensorValue> {
        if data.dims.len() == 4 {
            match self.stride() {
                Some(s) => {
                    let v = axis_padding(data.dims[1] as int, filter.0 as int, s as int);
                    let h = axis_padding(data.dims[2] as int, filter.1 as int, s as int);
                    let rows = ((v / 2) as usize, (v - v / 2) as usize);
                    let cols = ((h / 2) as usize, (h - h / 2) as usize);
                    if padding_fits(data, rows, cols, item) {
                        Some(padded_value(data, rows, cols, item))
                    } else {
                        None
                    }
                },
                None => None,
            }
        } else {
            None
        }
    }

    /// The patches of one image, of height, width and depth, for a window
    /// of `filter`: see `patches_value`, on the image as a batch of one,
    /// padded with 0 first where the padding is `Same`. There are none for
    /// strides of another form than `[1, s, s, 1]`, for a tensor that is no
    /// image, where the output has no size, and where the image cannot be
    /// padded.
    pub open spec fn patches(&self, data: TensorValue, filter: (usize, usize)) -> Option<TensorValue> {
        if self.strides_fit() && data.dims.len() == 3 {
            match self.adjusted(data.dims[0], data.dims[1], filter) {
                Some(out) => {
                    let batch = TensorValue { dims: seq![1usize, data.dims[0], data.dims[1], data.dims[2]], ..data };
                    let source = if self.padding == Padding::Same {
                        self.padded(batch, filter, 0)
                    } else {
                        Some(batch)
                    };
                    match source {
                        Some(t) => patches_value(t, out, filter, self.strides@[1]),
                        None => None,
                    }
                },
                None => None,
            }
        } else {
            None
        }
    }

    /// Pads a batch of images with `item` for a window of `filter`: with
    /// the padding `Valid` nothing is padded, and there is no result. With
    /// `Same`, the batch is padded as `paddings` says: see `padded`.
    pub fn pad(&self, data: &Arc<Tensor>, filter: (usize, usize), item: i64) -> (r: Result<Option<Tensor>, TractError>)
        ensures
            self.padding == Padding::Valid ==> r is Ok && r->Ok_0 is None,
            self.padding == Padding::Same ==> match self.padded(data@, filter, item) {
                Some(t) => r is Ok && r->Ok_0 is Some && r->Ok_0->Some_0@ == t,
                None => r == Err::<Option<Tensor>, TractError>(TractError::EvalError),
            },
    {
        match self.padding {
            Padding::Valid => {
                return Ok(None);
            },
            Padding::Same => {},
        }
        if data.rank() != 4 {
            return Err(TractError::EvalError);
        }
        let img = BatchImageWrapper(&**data);
        let (height, width) = (img.height(), img.width());
        let ((top, bottom), (left, right)) = match self.paddings(height, width, filter) {
            Ok(p) => p,
            Err(e) => {
                return Err(e);
            },
        };
        let wide = match frame(2, share(data), left, right, item) {
            Ok(t) => t,
            Err(e) => {
                return Err(e);
            },
        };
        match frame(1, Arc::new(wide), top, bottom, item) {
            Ok(t) => Ok(Some(t)),
            Err(e) => Err(e),
        }
    }

    /// The patches of one image, of height, width and depth, for a window
    /// of `filter`: one row for each place of the window, which holds the
    /// elements of the window there. The image is padded with 0 first where
    /// the padding is `Same`. See `patches`.
    pub fn mk_patches(&self, data: &Tensor, filter: (usize, usize)) -> (r: Result<Tensor, TractError>)
        ensures
            match self.patches(data@, filter) {
                Some(v) => r is Ok && r->Ok_0@ == v,
                None => r == Err::<Tensor, TractError>(TractError::EvalError),
            },
    {
        if self.strides.len() != 4 || (self.strides[0] != 1 && self.strides[3] != 1) || self.strides[1]
            != self.strides[2] {
            return Err(TractError::EvalError);
        }
        if data.rank() != 3 {
            return Err(TractError::EvalError);
        }
        let img = ImageWrapper(data);
        let (height, width, depth) = (img.height(), img.width(), img.depth());
        let stride = self.strides[1];
        let out = match self.adjusted_dim(height, width, filter) {
            Ok(o) => o,
            Err(e) => {
                return Err(e);
            },
        };
        let ghost batch = TensorValue { dims: seq![1usize, height, width, depth], ..data@ };
        let shape4 = dims4(1, height, width, depth);
        proof {
            reveal_with_fuel(numel, 5);
            let d3 = data@.dims;
            assert(d3.drop_last().drop_last().drop_last() =~= Seq::<usize>::empty());
            assert(shape4@.drop_last().drop_last().drop_last().drop_last() =~= Seq::<usize>::empty());
            assert(numel(d3) == 1 * height * width * depth);
            assert(numel(shape4@) == 1 * 1 * height * width * depth);
            assert(1 * 1 * height * width * depth == 1 * height * width * depth) by (nonlinear_arith);
        }
        let count = data.len();
        let data4 = match data.clone().into_shape(shape4) {
            Ok(t) => Arc::new(t),
            Err(e) => {
                return Err(e);
            },
        };
        assert(data4@ == batch);
        match self.pad(&data4, filter, 0) {
            Ok(Some(padded)) => gather_patches(&padded, out, filter, stride),
            Ok(None) => gather_patches(&data4, out, filter, stride),
            Err(e) => Err(e),
        }
    }
}

/// The shape of four axes.
fn dims4(a: usize, b: usize, c: usize, d: usize) -> (r: Vec<usize>)
    ensures
        r@ == seq![a, b, c, d],
{
    let mut out: Vec<usize> = Vec::new();
    out.push(a);
    out.push(b);
    out.push(c);
    out.push(d);
    proof {
        assert(out@ =~= seq![a, b, c, d]);
    }
    out
}

/// Convolution in two dimensions; a numeric kernel that the host
/// evaluates, on the patches that `mk_patches` gathers.
#[derive(Debug)]
pub struct Conv2D(pub LocalPatch);

/// The maximum over each window; a numeric kernel that the host evaluates.
#[derive(Debug)]
pub struct MaxPool(pub LocalPatch, pub (usize, usize));

/// The average over each window; a numeric kernel that the host evaluates.
#[derive(Debug)]
pub struct AvgPool(pub LocalPatch, pub (usize, usize));

/// The window that the attribute `ksize` of a pooling names: its second
/// and third numbers, where it has them and they are sizes.
pub open spec fn window_of(ksize: Option<Vec<i64>>) -> Option<(usize, usize)> {
    match ksize {
        Some(k) => if k@.len() >= 3 && 0 <= k@[1] <= usize::MAX && 0 <= k@[2] <= usize::MAX {
            Some((k@[1] as usize, k@[2] as usize))
        } else {
            None
        },
        None => None,
    }
}

/// The window that the attribute `ksize` names.
fn window(ksize: &Option<Vec<i64>>) -> (r: Option<(usize, usize)>)
    ensures
        r == window_of(*ksize),
{
    match ksize {
        Some(k) => {
            if k.len() < 3 {
                return None;
            }
            let (a, b) = (k[1], k[2]);
            if a < 0 || a as u64 > usize::MAX as u64 || b < 0 || b as u64 > usize::MAX as u64 {
                return None;
            }
            Some((a as usize, b as usize))
        },
        None => None,
    }
}

impl Conv2D {
    /// The convolution that the attributes of an operator give: see
    /// `LocalPatch::build`.
    pub fn build(data_format: Option<Vec<u8>>, strides: Option<Vec<i64>>, padding: Option<Vec<u8>>) -> (r: Result<
        Op,
        TractError,
    >)
        ensures
            buildable(data_format, strides, padding) ==> (r matches Ok(Op::Conv2D(c)) && Some(c.0.padding)
                == padding_of(padding->Some_0@) && c.0.strides@ == Seq::new(
                strides->Some_0@.len(),
                |i: int| strides->Some_0@[i] as usize,
            )),
            !buildable(data_format, strides, padding) ==> r is Err && r->Err_0 == TractError::MalformedGraph,
    {
        match LocalPatch::build(data_format, strides, padding) {
            Ok(patch) => Self::for_patch(patch),
            Err(e) => Err(e),
        }
    }

    /// The convolution with this geometry.
    pub fn for_patch(patch: LocalPatch) -> (r: Result<Op, TractError>)
        ensures
            r == Ok::<Op, TractError>(Op::Conv2D(Conv2D(patch))),
    {
        Ok(Op::Conv2D(Conv2D(patch)))
    }
}

impl MaxPool {
    /// The pooling that the attributes of an operator give: the geometry as
    /// `LocalPatch::build` reads it, and the window from `ksize`.
    pub fn build(
        data_format: Option<Vec<u8>>,
        strides: Option<Vec<i64>>,
        padding: Option<Vec<u8>>,
        ksize: Option<Vec<i64>>,
    ) -> (r: Result<Op, TractError>)
        ensures
            buildable(data_format, strides, padding) && window_of(ksize) is Some ==> (r matches Ok(Op::MaxPool(c))
                && Some(c.0.padding) == padding_of(padding->Some_0@) && c.0.strides@ == Seq::new(
                strides->Some_0@.len(),
                |i: int| strides->Some_0@[i] as usize,
            ) && Some(c.1) == window_of(ksize)),
            !(buildable(data_format, strides, padding) && window_of(ksize) is Some) ==> r is Err && r->Err_0
                == TractError::MalformedGraph,
    {
        let w = match window(&ksize) {
            Some(w) => w,
            None => {
                return Err(TractError::MalformedGraph);
            },
        };
        match LocalPatch::build(data_format, strides, padding) {
            Ok(patch) => Ok(Op::MaxPool(MaxPool(patch, w))),
            Err(e) => Err(e),
        }
    }
}

impl AvgPool {
    /// The pooling that the attributes of an operator give: the geometry as
    /// `LocalPatch::build` reads it, and the window from `ksize`.
    pub fn build(
        data_format: Option<Vec<u8>>,
        strides: Option<Vec<i64>>,
        padding: Option<Vec<u8>>,
        ksize: Option<Vec<i64>>,
    ) -> (r: Result<Op, TractError>)
        ensures
            buildable(data_format, strides, padding) && window_of(ksize) is Some ==> (r matches Ok(Op::AvgPool(c))
                && Some(c.0.padding) == padding_of(padding->Some_0@) && c.0.strides@ == Seq::new(
                strides->Some_0@.len(),
                |i: int| strides->Some_0@[i] as usize,
            ) && Some(c.1) == window_of(ksize)),
            !(buildable(data_format, strides, padding) && window_of(ksize) is Some) ==> r is Err && r->Err_0
                == TractError::MalformedGraph,
    {
        let w = match window(&ksize) {
            Some(w) => w,
            None => {
                return Err(TractError::MalformedGraph);
            },
        };
        match LocalPatch::build(data_format, strides, padding) {
            Ok(patch) => Ok(Op::AvgPool(AvgPool(patch, w))),
            Err(e) => Err(e),
        }
    }
}

} // verus!

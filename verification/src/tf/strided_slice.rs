//! The strided slice: along each axis, the elements from a first index up
//! to an end, step by step; masks may replace either bound by the end of
//! the axis, or keep one element and drop the axis. As in every slicing
//! operator of the library, a bound that lies outside the axis stands for
//! the nearest edge of the axis when a tensor is read (`Dim::clamped`).

use std::sync::Arc;
use vstd::prelude::*;
use crate::array::{along, gather, gathered, window_fits};
use crate::dim::TDim;
use crate::errors::TractError;
use crate::ops::slice::{
    lemma_prune_window, lemma_trimmed_fits, prune_fits, pruned, pruned_dims, pruned_firsts, unit_strides, Slice,
};
use crate::facts::ValueFact;
use crate::solver::{in0, input, out0, Cont, Facts, FactsValue, Rule, Slot};
use crate::ops::Op;
use crate::tensor::{dims_of, i32s_of, lemma_numel_push, numel, DatumType, Tensor, TensorValue};

verus! {

/// The masks of a strided slice. Bit `ix` of a mask speaks of axis `ix`.
#[derive(Debug, Default, Clone, Copy, PartialEq, Eq, Structural)]
pub struct BaseStridedSlice {
    pub begin_mask: i64,
    pub end_mask: i64,
    pub shrink_axis_mask: i64,
}

/// The strided slice of tensors of the element type `dt`.
#[derive(Debug, Clone, Copy, PartialEq, Eq, Structural)]
pub struct StridedSlice {
    pub base: BaseStridedSlice,
    pub dt: DatumType,
}

/// The strided slice of tensors of 32-bit integers or of dimensions.
#[derive(Debug, Default, Clone, Copy, PartialEq, Eq, Structural)]
pub struct StridedSliceD {
    pub base: BaseStridedSlice,
}

/// The strided slice as an operator: for 32-bit integers the one that
/// takes dimensions too, else the one of the element type `dt`.
pub fn build(begin_mask: i64, end_mask: i64, shrink_axis_mask: i64, dt: DatumType) -> (r: Op)
    ensures
        r == if dt == DatumType::I32 {
            Op::StridedSliceD(BaseStridedSlice { begin_mask, end_mask, shrink_axis_mask })
        } else {
            Op::StridedSlice(BaseStridedSlice { begin_mask, end_mask, shrink_axis_mask })
        },
{
    let base = BaseStridedSlice::new(begin_mask, end_mask, shrink_axis_mask);
    if dt == DatumType::I32 {
        Op::StridedSliceD(base)
    } else {
        Op::StridedSlice(base)
    }
}

impl StridedSlice {
    pub fn new(base: BaseStridedSlice, dt: DatumType) -> (r: StridedSlice)
        ensures
            r == (StridedSlice { base, dt }),
    {
        StridedSlice { base, dt }
    }

    /// Evaluates the slice of `input`, which must have the element type
    /// `dt`: see `BaseStridedSlice::sliced`.
    pub fn eval(&self, input: &Tensor, begin: &Tensor, end: &Tensor, strides: &Tensor) -> (r: Result<
        Tensor,
        TractError,
    >)
        ensures
            match (if input@.dt == self.dt {
                self.base.sliced(input@, begin@, end@, strides@)
            } else {
                None
            }) {
                Some(v) => r is Ok && r->Ok_0@ == v,
                None => r == Err::<Tensor, TractError>(TractError::EvalError),
            },
    {
        if input.datum_type() != self.dt {
            return Err(TractError::EvalError);
        }
        self.base.eval_slice(input, begin, end, strides)
    }

    /// Looks for the plain slice that does the same: see
    /// `BaseStridedSlice::specialize`.
    pub fn declutter(&self, dims: &Vec<TDim>, begin: &Tensor, end: &Tensor, strides: &Tensor) -> (r: Result<
        Option<Slice>,
        TractError,
    >)
        ensures
            match self.base.specialized(dims@, begin@, end@, strides@) {
                Specialized::Failed => r is Err && r->Err_0 == TractError::EvalError,
                Specialized::Unchanged => r is Ok && r->Ok_0 is None,
                Specialized::Pruned(p) => r is Ok && r->Ok_0 is Some && r->Ok_0->Some_0.prune@ == p,
            },
    {
        self.base.specialize(dims, begin, end, strides)
    }
}

impl StridedSliceD {
    pub fn new(base: BaseStridedSlice) -> (r: StridedSliceD)
        ensures
            r == (StridedSliceD { base }),
    {
        StridedSliceD { base }
    }

    /// Evaluates the slice of `input`, a tensor of 32-bit integers or of
    /// dimensions: see `BaseStridedSlice::sliced`.
    pub fn eval(&self, input: &Tensor, begin: &Tensor, end: &Tensor, strides: &Tensor) -> (r: Result<
        Tensor,
        TractError,
    >)
        ensures
            match sliced_d(self.base, input@, begin@, end@, strides@) {
                Some(v) => r is Ok && r->Ok_0@ == v,
                None => r == Err::<Tensor, TractError>(TractError::EvalError),
            },
    {
        match input.datum_type() {
            DatumType::TDim | DatumType::I32 => self.base.eval_slice(input, begin, end, strides),
            _ => Err(TractError::EvalError),
        }
    }
}

/// The strided slice of a tensor of 32-bit integers or of dimensions;
/// undefined for other tensors.
pub open spec fn sliced_d(
    base: BaseStridedSlice,
    input: TensorValue,
    begin: TensorValue,
    end: TensorValue,
    strides: TensorValue,
) -> Option<TensorValue> {
    if input.dt == DatumType::TDim || input.dt == DatumType::I32 {
        base.sliced(input, begin, end, strides)
    } else {
        None
    }
}

/// What is read along one axis: from `begin` towards `end`, `stride` by
/// `stride`; `shrink` says that the axis is dropped from the result.
#[derive(Debug, Clone, Copy, PartialEq, Eq, Structural)]
pub struct Dim {
    pub begin: TDim,
    pub end: TDim,
    pub stride: i32,
    pub shrink: bool,
}

/// Bit `ix` of `mask`. A mask has 64 bits.
pub open spec fn mask_bit(mask: i64, ix: usize) -> bool {
    ix < 64 && (mask >> ix) & 1 == 1
}

/// The absolute value.
pub open spec fn abs(x: int) -> int {
    if x < 0 {
        -x
    } else {
        x
    }
}

/// How many steps of `stride` it takes to cover `span`.
pub open spec fn steps(span: int, stride: int) -> int {
    (abs(stride) - 1 + abs(span)) / abs(stride)
}

/// Whether a bound counts from the end of the axis: a negative constant,
/// or a bound that is negative for every stream that is long enough.
pub open spec fn from_end(bound: TDim) -> bool {
    bound.slope < 0 || (bound.slope == 0 && bound.offset < 0)
}

/// A bound of the slice as an index from the start of the axis of size
/// `dim`. It is undefined where it does not fit a dimension.
pub open spec fn anchored(bound: TDim, dim: TDim) -> Option<TDim> {
    if from_end(bound) {
        TDim::fitting(dim.plus(bound))
    } else {
        Some(bound)
    }
}

/// `v`, or the nearer of `low` and `high` where it lies outside them.
pub open spec fn between(v: int, low: int, high: int) -> int {
    if v < low {
        low
    } else if v > high {
        high
    } else {
        v
    }
}

/// `v`, or the nearer of `low` and `high` where it lies outside them.
fn nearest(v: i64, low: i64, high: i64) -> (r: i64)
    ensures
        r == between(v as int, low as int, high as int),
{
    if v < low {
        low
    } else if v > high {
        high
    } else {
        v
    }
}

impl Dim {
    /// The bounds as they are read on an axis of the size `size`: a bound
    /// that lies outside the axis stands for the nearest edge of the axis.
    /// For a walk up the axis the edges are 0 and `size`, for a walk down
    /// `size - 1` and -1. This holds of bounds that run with the stride;
    /// bounds that run against it, and the one index of an axis that is
    /// dropped, are taken as they are, and what they name must lie in the
    /// axis.
    pub open spec fn clamped(self, size: int) -> Dim {
        let b = self.begin.offset as int;
        let e = self.end.offset as int;
        if self.shrink || self.begin.slope != 0 || self.end.slope != 0 {
            self
        } else if self.stride > 0 && b <= e {
            Dim {
                begin: TDim { slope: 0, offset: between(b, 0, size) as i64 },
                end: TDim { slope: 0, offset: between(e, 0, size) as i64 },
                ..self
            }
        } else if self.stride < 0 && e <= b {
            Dim {
                begin: TDim { slope: 0, offset: between(b, -1, size - 1) as i64 },
                end: TDim { slope: 0, offset: between(e, -1, size - 1) as i64 },
                ..self
            }
        } else {
            self
        }
    }

    /// The bounds as they are read on an axis of the size `size`: see
    /// `clamped`.
    pub fn clamp(&self, size: usize) -> (r: Dim)
        requires
            size <= i64::MAX,
        ensures
            r == self.clamped(size as int),
    {
        if self.shrink || self.begin.slope != 0 || self.end.slope != 0 {
            return *self;
        }
        let b = self.begin.offset;
        let e = self.end.offset;
        let top = size as i64;
        if self.stride > 0 && b <= e {
            Dim {
                begin: TDim::constant(nearest(b, 0, top)),
                end: TDim::constant(nearest(e, 0, top)),
                stride: self.stride,
                shrink: self.shrink,
            }
        } else if self.stride < 0 && e <= b {
            Dim {
                begin: TDim::constant(nearest(b, -1, top - 1)),
                end: TDim::constant(nearest(e, -1, top - 1)),
                stride: self.stride,
                shrink: self.shrink,
            }
        } else {
            *self
        }
    }

    /// The number of elements read, where it does not depend on the stream
    /// and the stride is not 0.
    pub open spec fn length(self) -> Option<int> {
        match TDim::fitting(self.end.minus(self.begin)) {
            Some(d) => if d.slope == 0 && self.stride != 0 {
                Some(steps(d.offset as int, self.stride as int))
            } else {
                None
            },
            None => None,
        }
    }

    /// The number of elements read as a dimension: as `length` where that
    /// is defined; for a stride of 1, `end - begin`, which may depend on the
    /// stream.
    pub open spec fn soft_length(self) -> Option<TDim> {
        match TDim::fitting(self.end.minus(self.begin)) {
            Some(d) => if d.slope == 0 {
                if self.stride != 0 && steps(d.offset as int, self.stride as int) <= i64::MAX {
                    Some(TDim { slope: 0, offset: steps(d.offset as int, self.stride as int) as i64 })
                } else {
                    None
                }
            } else if self.stride == 1 {
                Some(d)
            } else {
                None
            },
            None => None,
        }
    }

    /// The steps from `begin` to `end`, for a difference `d` that does not
    /// depend on the stream.
    fn count(d: i64, stride: i32) -> (r: i128)
        requires
            stride != 0,
        ensures
            r == steps(d as int, stride as int),
            0 <= r <= 0x8000_0000_0000_0000,
    {
        let span: i128 = if d < 0 {
            -(d as i128)
        } else {
            d as i128
        };
        let step: i128 = if stride < 0 {
            -(stride as i128)
        } else {
            stride as i128
        };
        let r = (step - 1 + span) / step;
        assert(0 <= (step - 1 + span) / (step as int) <= span) by (nonlinear_arith)
            requires
                step >= 1,
                span >= 0,
        ;
        r
    }

    /// The number of elements read. It fails where that depends on the
    /// stream, where the stride is 0, and where the number is too large.
    pub fn len(&self) -> (r: Result<usize, TractError>)
        ensures
            match self.length() {
                Some(n) => if n <= usize::MAX {
                    r == Ok::<usize, TractError>(n as usize)
                } else {
                    r == Err::<usize, TractError>(TractError::EvalError)
                },
                None => r == Err::<usize, TractError>(TractError::EvalError),
            },
    {
        match self.end.checked_sub(&self.begin) {
            Some(d) => {
                if d.slope != 0 || self.stride == 0 {
                    return Err(TractError::EvalError);
                }
                let n = Self::count(d.offset, self.stride);
                if n <= usize::MAX as i128 {
                    Ok(n as usize)
                } else {
                    Err(TractError::EvalError)
                }
            },
            None => Err(TractError::EvalError),
        }
    }

    /// The number of elements read, as a dimension. With a stride other
    /// than 1 it fails where that depends on the stream.
    pub fn soft_len(&self) -> (r: Result<TDim, TractError>)
        ensures
            match self.soft_length() {
                Some(n) => r == Ok::<TDim, TractError>(n),
                None => r == Err::<TDim, TractError>(TractError::EvalError),
            },
    {
        match self.end.checked_sub(&self.begin) {
            Some(d) => {
                if d.slope == 0 {
                    if self.stride == 0 {
                        return Err(TractError::EvalError);
                    }
                    let n = Self::count(d.offset, self.stride);
                    if n <= i64::MAX as i128 {
                        Ok(TDim::constant(n as i64))
                    } else {
                        Err(TractError::EvalError)
                    }
                } else if self.stride == 1 {
                    Ok(d)
                } else {
                    Err(TractError::EvalError)
                }
            },
            None => Err(TractError::EvalError),
        }
    }
}

/// A bound of the slice as an index from the start of the axis.
fn anchor(bound: TDim, dim: TDim) -> (r: Option<TDim>)
    ensures
        r == anchored(bound, dim),
{
    if bound.slope < 0 || (bound.slope == 0 && bound.offset < 0) {
        dim.checked_add(&bound)
    } else {
        Some(bound)
    }
}

impl BaseStridedSlice {
    pub fn new(begin_mask: i64, end_mask: i64, shrink_axis_mask: i64) -> (r: BaseStridedSlice)
        ensures
            r == (BaseStridedSlice { begin_mask, end_mask, shrink_axis_mask }),
    {
        BaseStridedSlice { begin_mask, end_mask, shrink_axis_mask }
    }

    /// Whether axis `ix` is dropped from the result.
    pub fn must_shrink(&self, ix: usize) -> (r: bool)
        ensures
            r == mask_bit(self.shrink_axis_mask, ix),
    {
        ix < 64 && (self.shrink_axis_mask >> ix) & 1 == 1
    }

    /// Whether the slice starts at the end of axis `ix` that the stride
    /// walks away from, whatever `begin` says.
    pub fn ignore_begin(&self, ix: usize) -> (r: bool)
        ensures
            r == mask_bit(self.begin_mask, ix),
    {
        ix < 64 && (self.begin_mask >> ix) & 1 == 1
    }

    /// Whether the slice goes to the end of axis `ix` that the stride walks
    /// towards, whatever `end` says.
    pub fn ignore_end(&self, ix: usize) -> (r: bool)
        ensures
            r == mask_bit(self.end_mask, ix),
    {
        ix < 64 && (self.end_mask >> ix) & 1 == 1
    }

    /// What is read along axis `ix`, of size `dim`. An axis that `begin`
    /// does not speak of is read whole. It is undefined where `end` or
    /// `strides` are shorter than `begin`, and where a bound does not fit a
    /// dimension.
    pub open spec fn prepared(self, ix: usize, dim: TDim, begin: Seq<TDim>, end: Seq<TDim>, strides: Seq<i32>) -> Option<
        Dim,
    > {
        if ix >= begin.len() {
            Some(Dim { begin: TDim { slope: 0, offset: 0 }, end: dim, stride: 1, shrink: false })
        } else if ix >= end.len() || ix >= strides.len() {
            None
        } else {
            match (anchored(begin[ix as int], dim), anchored(end[ix as int], dim)) {
                (Some(b), Some(e)) => {
                    let s = strides[ix as int];
                    if mask_bit(self.shrink_axis_mask, ix) {
                        match TDim::fitting(b.plus(TDim { slope: 0, offset: 1 })) {
                            Some(next) => Some(Dim { begin: b, end: next, stride: 1, shrink: true }),
                            None => None,
                        }
                    } else {
                        let first = if mask_bit(self.begin_mask, ix) {
                            if s > 0 {
                                Some(TDim { slope: 0, offset: 0 })
                            } else {
                                TDim::fitting(dim.minus(TDim { slope: 0, offset: 1 }))
                            }
                        } else {
                            Some(b)
                        };
                        let last = if mask_bit(self.end_mask, ix) {
                            if s < 0 {
                                TDim { slope: 0, offset: -1i64 }
                            } else {
                                dim
                            }
                        } else {
                            e
                        };
                        match first {
                            Some(f) => Some(Dim { begin: f, end: last, stride: s, shrink: false }),
                            None => None,
                        }
                    }
                },
                _ => None,
            }
        }
    }

    /// What is read along axis `ix`, of size `dim`: see `prepared`.
    pub fn prepare_one_dim(&self, ix: usize, dim: TDim, begin: &Vec<TDim>, end: &Vec<TDim>, strides: &Vec<i32>) -> (r:
        Result<Dim, TractError>)
        ensures
            match self.prepared(ix, dim, begin@, end@, strides@) {
                Some(d) => r == Ok::<Dim, TractError>(d),
                None => r == Err::<Dim, TractError>(TractError::EvalError),
            },
    {
        // deal with too small dim begin/end/stride for input rank
        if ix >= begin.len() {
            return Ok(Dim { begin: TDim::constant(0), end: dim, stride: 1, shrink: false });
        }
        if ix >= end.len() || ix >= strides.len() {
            return Err(TractError::EvalError);
        }
        // deal with negative indexing
        let b = match anchor(begin[ix], dim) {
            Some(b) => b,
            None => {
                return Err(TractError::EvalError);
            },
        };
        let e = match anchor(end[ix], dim) {
            Some(e) => e,
            None => {
                return Err(TractError::EvalError);
            },
        };
        // deal with shrinking
        if self.must_shrink(ix) {
            return match b.checked_add(&TDim::constant(1)) {
                Some(next) => Ok(Dim { begin: b, end: next, stride: 1, shrink: true }),
                None => Err(TractError::EvalError),
            };
        }
        // deal with begin and end masks
        let s = strides[ix];
        let b = if self.ignore_begin(ix) {
            if s > 0 {
                TDim::constant(0)
            } else {
                match dim.checked_sub(&TDim::constant(1)) {
                    Some(d) => d,
                    None => {
                        return Err(TractError::EvalError);
                    },
                }
            }
        } else {
            b
        };
        let e = if self.ignore_end(ix) {
            if s < 0 {
                TDim::constant(-1)
            } else {
                dim
            }
        } else {
            e
        };
        Ok(Dim { begin: b, end: e, stride: s, shrink: false })
    }
}

/// The sizes of the axes that are read.
pub open spec fn mid_shape(bounds: Seq<Dim>) -> Seq<usize> {
    Seq::new(bounds.len(), |ix: int| bounds[ix].length().unwrap() as usize)
}

/// The sizes of the axes that are read and kept.
pub open spec fn end_shape(bounds: Seq<Dim>) -> Seq<usize>
    decreases bounds.len(),
{
    if bounds.len() == 0 {
        Seq::empty()
    } else if bounds.last().shrink {
        end_shape(bounds.drop_last())
    } else {
        end_shape(bounds.drop_last()).push(bounds.last().length().unwrap() as usize)
    }
}

/// The first index read along each axis.
pub open spec fn firsts(bounds: Seq<Dim>) -> Seq<i64> {
    Seq::new(bounds.len(), |ix: int| bounds[ix].begin.offset)
}

/// The stride along each axis.
pub open spec fn strides_of(bounds: Seq<Dim>) -> Seq<i64> {
    Seq::new(bounds.len(), |ix: int| bounds[ix].stride as i64)
}

/// Every axis of `bounds` has a length that a `usize` holds.
pub open spec fn measurable(bounds: Seq<Dim>) -> bool {
    forall|ix: int|
        0 <= ix < bounds.len() ==> (#[trigger] bounds[ix]).length() is Some && bounds[ix].length().unwrap()
            <= usize::MAX
}

/// An axis that is dropped is one of which one element is read.
pub open spec fn shrunk_single(bounds: Seq<Dim>) -> bool {
    forall|ix: int| 0 <= ix < bounds.len() && (#[trigger] bounds[ix]).shrink ==> bounds[ix].length() == Some(1int)
}

/// Dropping axes of size 1 keeps the number of elements.
pub proof fn lemma_end_shape_numel(bounds: Seq<Dim>)
    requires
        shrunk_single(bounds),
    ensures
        numel(end_shape(bounds)) == numel(mid_shape(bounds)),
    decreases bounds.len(),
{
    if bounds.len() == 0 {
        assert(mid_shape(bounds) =~= Seq::<usize>::empty());
    } else {
        let rest = bounds.drop_last();
        assert forall|ix: int| 0 <= ix < rest.len() && (#[trigger] rest[ix]).shrink implies rest[ix].length() == Some(
            1int,
        ) by {
            assert(rest[ix] == bounds[ix]);
        }
        lemma_end_shape_numel(rest);
        assert(mid_shape(bounds).drop_last() =~= mid_shape(rest));
        let n = bounds.last().length().unwrap() as usize;
        assert(mid_shape(bounds).last() == n);
        if bounds.last().shrink {
            assert(bounds[bounds.len() - 1].length() == Some(1int));
            assert(numel(mid_shape(rest)) * 1 == numel(mid_shape(rest))) by (nonlinear_arith);
        } else {
            lemma_numel_push(end_shape(rest), n);
        }
    }
}

impl BaseStridedSlice {
    /// What is read along axis `ix` of an array of shape `dims`: the
    /// bounds that `prepared` gives, as they are read on the axis (see
    /// `Dim::clamped`).
    pub open spec fn bound_at(self, dims: Seq<usize>, begin: Seq<TDim>, end: Seq<TDim>, strides: Seq<i32>, ix: int) -> Option<
        Dim,
    > {
        if dims[ix] <= i64::MAX {
            match self.prepared(ix as usize, TDim { slope: 0, offset: dims[ix] as i64 }, begin, end, strides) {
                Some(d) => Some(d.clamped(dims[ix] as int)),
                None => None,
            }
        } else {
            None
        }
    }

    /// What is read along each axis of an array of shape `dims`, where
    /// that is defined for each axis.
    pub open spec fn bounds(self, dims: Seq<usize>, begin: Seq<TDim>, end: Seq<TDim>, strides: Seq<i32>) -> Option<
        Seq<Dim>,
    > {
        if forall|ix: int| 0 <= ix < dims.len() ==> (#[trigger] self.bound_at(dims, begin, end, strides, ix)) is Some {
            Some(Seq::new(dims.len(), |ix: int| self.bound_at(dims, begin, end, strides, ix).unwrap()))
        } else {
            None
        }
    }

    /// What is read of an array of shape `dims`, given the three tensors
    /// `begin`, `end` and `strides`: defined where the three are lists of
    /// integers, the strides 32-bit ones, and every axis has bounds and a
    /// length.
    pub open spec fn prepared_all(
        self,
        dims: Seq<usize>,
        begin: TensorValue,
        end: TensorValue,
        strides: TensorValue,
    ) -> Option<Seq<Dim>> {
        match (dims_of(begin), dims_of(end), i32s_of(strides)) {
            (Some(b), Some(e), Some(s)) => match self.bounds(dims, b, e, s) {
                Some(bounds) => if measurable(bounds) {
                    Some(bounds)
                } else {
                    None
                },
                None => None,
            },
            _ => None,
        }
    }

    /// The bounds along each axis of the input, the sizes of the axes that
    /// are read, and the sizes of those that are kept.
    pub fn prepare(&self, input_shape: &Vec<usize>, begin_t: &Tensor, end_t: &Tensor, strides_t: &Tensor) -> (r: Result<
        (Vec<Dim>, Vec<usize>, Vec<usize>),
        TractError,
    >)
        ensures
            match self.prepared_all(input_shape@, begin_t@, end_t@, strides_t@) {
                Some(bounds) => r is Ok && r->Ok_0.0@ == bounds && r->Ok_0.1@ == mid_shape(bounds) && r->Ok_0.2@
                    == end_shape(bounds) && shrunk_single(bounds),
                None => r is Err && r->Err_0 == TractError::EvalError,
            },
    {
        let begin = match begin_t.to_dims() {
            Ok(b) => b,
            Err(e) => {
                return Err(e);
            },
        };
        let end = match end_t.to_dims() {
            Ok(b) => b,
            Err(e) => {
                return Err(e);
            },
        };
        let strides = match strides_t.to_i32s() {
            Ok(b) => b,
            Err(e) => {
                return Err(e);
            },
        };
        let ghost dims = input_shape@;
        assert(dims_of(begin_t@) == Some(begin@));
        assert(dims_of(end_t@) == Some(end@));
        assert(i32s_of(strides_t@) == Some(strides@));
        let mut bounds: Vec<Dim> = Vec::new();
        let mut mid: Vec<usize> = Vec::new();
        let mut kept: Vec<usize> = Vec::new();
        let mut ix: usize = 0;
        while ix < input_shape.len()
            invariant
                ix <= input_shape.len(),
                dims == input_shape@,
                dims_of(begin_t@) == Some(begin@),
                dims_of(end_t@) == Some(end@),
                i32s_of(strides_t@) == Some(strides@),
                bounds@.len() == ix,
                forall|k: int| 0 <= k < ix ==> self.bound_at(dims, begin@, end@, strides@, k) == Some(#[trigger] bounds@[k]),
                measurable(bounds@),
                shrunk_single(bounds@),
                mid@ == mid_shape(bounds@),
                kept@ == end_shape(bounds@),
            decreases input_shape.len() - ix,
        {
            let dim = match TDim::from_usize(input_shape[ix]) {
                Some(d) => d,
                None => {
                    proof {
                        assert(self.bound_at(dims, begin@, end@, strides@, ix as int) is None);
                        assert(self.bounds(dims, begin@, end@, strides@) is None);
                    }
                    return Err(TractError::EvalError);
                },
            };
            let d = match self.prepare_one_dim(ix, dim, &begin, &end, &strides) {
                Ok(d) => d.clamp(input_shape[ix]),
                Err(e) => {
                    proof {
                        assert(self.bound_at(dims, begin@, end@, strides@, ix as int) is None);
                        assert(self.bounds(dims, begin@, end@, strides@) is None);
                    }
                    return Err(e);
                },
            };
            let n = match d.len() {
                Ok(n) => n,
                Err(e) => {
                    proof {
                        assert(self.bound_at(dims, begin@, end@, strides@, ix as int) == Some(d));
                        if self.bounds(dims, begin@, end@, strides@) is Some {
                            let all = self.bounds(dims, begin@, end@, strides@).unwrap();
                            assert(all[ix as int] == d);
                            assert(!measurable(all));
                        }
                    }
                    return Err(e);
                },
            };
            proof {
                self.lemma_prepared_shrunk_any(ix, dim, begin@, end@, strides@);
                let raw = self.prepared(ix, dim, begin@, end@, strides@).unwrap();
                assert(raw.shrink ==> d == raw);
                assert(d.shrink == raw.shrink);
            }
            let ghost before = bounds@;
            bounds.push(d);
            mid.push(n);
            if !d.shrink {
                kept.push(n);
            }
            proof {
                assert(bounds@.drop_last() =~= before);
                assert(mid@ =~= mid_shape(bounds@));
                assert forall|k: int| 0 <= k < bounds@.len() implies (#[trigger] bounds@[k]).length() is Some
                    && bounds@[k].length().unwrap() <= usize::MAX by {
                    if k < before.len() {
                        assert(bounds@[k] == before[k]);
                    }
                }
                assert forall|k: int| 0 <= k < bounds@.len() && (#[trigger] bounds@[k]).shrink implies bounds@[k].length()
                    == Some(1int) by {
                    if k < before.len() {
                        assert(bounds@[k] == before[k]);
                    }
                }
            }
            ix += 1;
        }
        proof {
            let all = self.bounds(dims, begin@, end@, strides@);
            assert forall|k: int| 0 <= k < dims.len() implies (#[trigger] self.bound_at(dims, begin@, end@, strides@, k))
                is Some by {
                assert(self.bound_at(dims, begin@, end@, strides@, k) == Some(bounds@[k]));
            }
            assert(all is Some);
            assert(all.unwrap() =~= bounds@);
        }
        Ok((bounds, mid, kept))
    }

    /// A dropped axis is one of which one element is read, where the axis
    /// has bounds at all.
    pub proof fn lemma_prepared_shrunk_any(self, ix: usize, dim: TDim, begin: Seq<TDim>, end: Seq<TDim>, strides: Seq<i32>)
        ensures
            self.prepared(ix, dim, begin, end, strides) matches Some(d) ==> (d.shrink ==> d.length() == Some(1int)),
    {
        if let Some(d) = self.prepared(ix, dim, begin, end, strides) {
            if d.shrink {
                let b = anchored(begin[ix as int], dim).unwrap();
                assert(d.begin == b);
                assert(TDim::fitting(b.plus(TDim { slope: 0, offset: 1 })) == Some(d.end));
                assert(d.end.slope == b.slope);
                assert(d.end.offset == b.offset + 1);
                assert(d.end.minus(d.begin) == (0int, 1int));
                assert(TDim::fitting(d.end.minus(d.begin)) == Some(TDim { slope: 0, offset: 1 }));
                assert(abs(1) == 1);
                assert(steps(1, 1) == 1);
                assert(d.stride == 1);
            }
        }
    }

    /// What the slice of `input` is: defined where the bounds are, the
    /// first index along each axis does not depend on the stream, and every
    /// index to read lies in the input. Its shape is that of the axes kept;
    /// its elements are those read, in row-major order.
    pub open spec fn sliced(self, input: TensorValue, begin: TensorValue, end: TensorValue, strides: TensorValue) -> Option<
        TensorValue,
    > {
        match self.prepared_all(input.dims, begin, end, strides) {
            Some(bounds) => if (forall|ix: int| 0 <= ix < bounds.len() ==> (#[trigger] bounds[ix]).begin.slope == 0)
                && window_fits(input.dims, mid_shape(bounds), firsts(bounds), strides_of(bounds)) && numel(
                mid_shape(bounds),
            ) <= usize::MAX {
                Some(
                    TensorValue {
                        dt: input.dt,
                        dims: end_shape(bounds),
                        items: gathered(input.items, input.dims, mid_shape(bounds), firsts(bounds), strides_of(bounds)),
                    },
                )
            } else {
                None
            },
            None => None,
        }
    }

    /// Evaluates the slice of `input` between `begin` and `end`, at
    /// `strides`: see `sliced`.
    pub fn eval_slice(&self, input: &Tensor, begin: &Tensor, end: &Tensor, strides: &Tensor) -> (r: Result<
        Tensor,
        TractError,
    >)
        ensures
            match self.sliced(input@, begin@, end@, strides@) {
                Some(v) => r is Ok && r->Ok_0@ == v,
                None => r == Err::<Tensor, TractError>(TractError::EvalError),
            },
    {
        let (bounds, mid, kept) = match self.prepare(input.shape(), begin, end, strides) {
            Ok(p) => p,
            Err(e) => {
                return Err(e);
            },
        };
        let mut first: Vec<i64> = Vec::new();
        let mut step: Vec<i64> = Vec::new();
        let mut ix: usize = 0;
        while ix < bounds.len()
            invariant
                ix <= bounds.len(),
                self.prepared_all(input@.dims, begin@, end@, strides@) == Some(bounds@),
                forall|k: int| 0 <= k < ix ==> (#[trigger] bounds@[k]).begin.slope == 0,
                first@ == firsts(bounds@.take(ix as int)),
                step@ == strides_of(bounds@.take(ix as int)),
            decreases bounds.len() - ix,
        {
            match bounds[ix].begin.as_const() {
                Some(b) => {
                    first.push(b);
                },
                None => {
                    proof {
                        assert(bounds@[ix as int].begin.slope != 0);
                    }
                    return Err(TractError::EvalError);
                },
            }
            step.push(bounds[ix].stride as i64);
            ix += 1;
            proof {
                assert(first@ =~= firsts(bounds@.take(ix as int)));
                assert(step@ =~= strides_of(bounds@.take(ix as int)));
            }
        }
        proof {
            assert(bounds@.take(bounds@.len() as int) =~= bounds@);
            lemma_end_shape_numel(bounds@);
        }
        let read = match gather(input, mid, &first, &step) {
            Ok(t) => t,
            Err(e) => {
                return Err(e);
            },
        };
        read.into_shape(kept)
    }
}

/// What a plain slice would cut off along one axis of size `dim` to read
/// what `d` reads: before `d.begin`, and from `d.end` on. It is undefined
/// where either depends on the stream.
pub open spec fn cut(dim: TDim, d: Dim) -> Option<(int, int)> {
    match TDim::fitting(dim.minus(d.end)) {
        Some(rest) => if d.begin.slope == 0 && rest.slope == 0 {
            Some((d.begin.offset as int, rest.offset as int))
        } else {
            None
        },
        None => None,
    }
}

/// A cut is one that a plain slice can make: nothing negative, and no more
/// than the axis holds where its size is known.
pub open spec fn cut_valid(dim: TDim, c: (int, int)) -> bool {
    &&& 0 <= c.0 <= usize::MAX
    &&& 0 <= c.1 <= usize::MAX
    &&& dim.slope == 0 ==> c.0 + c.1 <= dim.offset
}

/// The outcome of looking for a plain slice that does what a strided slice
/// does.
pub enum Specialized {
    /// The bounds cannot be read from what is known.
    Failed,
    /// There is no plain slice that does the same.
    Unchanged,
    /// The plain slice with these cuts does the same.
    Pruned(Seq<(usize, usize)>),
}

impl BaseStridedSlice {
    /// The cut along axis `ix`.
    pub open spec fn cut_at(self, dims: Seq<TDim>, begin: Seq<TDim>, end: Seq<TDim>, strides: Seq<i32>, ix: int) -> Option<
        (int, int),
    > {
        match self.prepared(ix as usize, dims[ix], begin, end, strides) {
            Some(d) => cut(dims[ix], d),
            None => None,
        }
    }

    /// Whether the slice drops one of the first `rank` axes.
    pub open spec fn shrinks(self, rank: nat) -> bool {
        exists|ix: usize| ix < rank && #[trigger] mask_bit(self.shrink_axis_mask, ix)
    }

    /// Which plain slice, if any, gives for an input of shape `dims` what
    /// this strided slice gives, for constant `begin`, `end` and `strides`:
    /// none where a stride is not 1, where the strided slice drops an axis
    /// (a plain slice keeps every axis), or where a cut is not one that a
    /// plain slice can make.
    pub open spec fn specialized(
        self,
        dims: Seq<TDim>,
        begin: TensorValue,
        end: TensorValue,
        strides: TensorValue,
    ) -> Specialized {
        match i32s_of(strides) {
            None => Specialized::Failed,
            Some(s) => if (exists|k: int| 0 <= k < s.len() && #[trigger] s[k] != 1) || self.shrinks(dims.len()) {
                Specialized::Unchanged
            } else {
                match (dims_of(begin), dims_of(end)) {
                    (Some(b), Some(e)) => if exists|ix: int|
                        0 <= ix < dims.len() && (#[trigger] self.cut_at(dims, b, e, s, ix)) is None {
                        Specialized::Failed
                    } else if exists|ix: int|
                        0 <= ix < dims.len() && !cut_valid(dims[ix], (#[trigger] self.cut_at(dims, b, e, s, ix)).unwrap()) {
                        Specialized::Unchanged
                    } else {
                        Specialized::Pruned(
                            Seq::new(
                                dims.len(),
                                |ix: int|
                                    (
                                        self.cut_at(dims, b, e, s, ix).unwrap().0 as usize,
                                        self.cut_at(dims, b, e, s, ix).unwrap().1 as usize,
                                    ),
                            ),
                        )
                    },
                    _ => Specialized::Failed,
                }
            },
        }
    }

    /// Looks for the plain slice that does what this strided slice does on
    /// an input of shape `dims`, with the constants `begin`, `end` and
    /// `strides`: see `specialized`. `Ok(None)` says that there is none.
    #[verifier::loop_isolation(false)]
    pub fn specialize(&self, dims: &Vec<TDim>, begin_t: &Tensor, end_t: &Tensor, strides_t: &Tensor) -> (r: Result<
        Option<Slice>,
        TractError,
    >)
        ensures
            match self.specialized(dims@, begin_t@, end_t@, strides_t@) {
                Specialized::Failed => r is Err && r->Err_0 == TractError::EvalError,
                Specialized::Unchanged => r is Ok && r->Ok_0 is None,
                Specialized::Pruned(p) => r is Ok && r->Ok_0 is Some && r->Ok_0->Some_0.prune@ == p,
            },
    {
        let strides = match strides_t.to_i32s() {
            Ok(s) => s,
            Err(e) => {
                return Err(e);
            },
        };
        let mut k: usize = 0;
        while k < strides.len()
            invariant
                k <= strides.len(),
                forall|j: int| 0 <= j < k ==> strides@[j] == 1,
            decreases strides.len() - k,
        {
            if strides[k] != 1 {
                proof {
                    assert(strides@[k as int] != 1);
                }
                return Ok(None);
            }
            k += 1;
        }
        let mut ax: usize = 0;
        while ax < dims.len()
            invariant
                ax <= dims.len(),
                forall|j: usize| j < ax ==> !(#[trigger] mask_bit(self.shrink_axis_mask, j)),
            decreases dims.len() - ax,
        {
            if self.must_shrink(ax) {
                return Ok(None);
            }
            ax += 1;
        }
        let begin = match begin_t.to_dims() {
            Ok(b) => b,
            Err(e) => {
                return Err(e);
            },
        };
        let end = match end_t.to_dims() {
            Ok(b) => b,
            Err(e) => {
                return Err(e);
            },
        };
        let mut cuts: Vec<(i64, i64)> = Vec::new();
        let mut ix: usize = 0;
        while ix < dims.len()
            invariant
                ix <= dims.len(),
                cuts@.len() == ix,
                forall|j: int|
                    0 <= j < ix ==> (#[trigger] self.cut_at(dims@, begin@, end@, strides@, j)) == Some(
                        (cuts@[j].0 as int, cuts@[j].1 as int),
                    ),
            decreases dims.len() - ix,
        {
            let d = match self.prepare_one_dim(ix, dims[ix], &begin, &end, &strides) {
                Ok(d) => d,
                Err(e) => {
                    proof {
                        assert(self.cut_at(dims@, begin@, end@, strides@, ix as int) is None);
                    }
                    return Err(e);
                },
            };
            let rest = match dims[ix].checked_sub(&d.end) {
                Some(r) => r,
                None => {
                    proof {
                        assert(self.cut_at(dims@, begin@, end@, strides@, ix as int) is None);
                    }
                    return Err(TractError::EvalError);
                },
            };
            if d.begin.is_stream() || rest.is_stream() {
                proof {
                    assert(self.cut_at(dims@, begin@, end@, strides@, ix as int) is None);
                }
                return Err(TractError::EvalError);
            }
            cuts.push((d.begin.offset, rest.offset));
            ix += 1;
        }
        let mut prune: Vec<(usize, usize)> = Vec::new();
        let mut ix: usize = 0;
        while ix < dims.len()
            invariant
                ix <= dims.len(),
                cuts@.len() == dims@.len(),
                forall|j: int|
                    0 <= j < dims@.len() ==> (#[trigger] self.cut_at(dims@, begin@, end@, strides@, j)) == Some(
                        (cuts@[j].0 as int, cuts@[j].1 as int),
                    ),
                forall|j: int|
                    0 <= j < ix ==> cut_valid(
                        dims@[j],
                        (#[trigger] self.cut_at(dims@, begin@, end@, strides@, j)).unwrap(),
                    ),
                prune@ == Seq::new(
                    ix as nat,
                    |j: int|
                        (
                            self.cut_at(dims@, begin@, end@, strides@, j).unwrap().0 as usize,
                            self.cut_at(dims@, begin@, end@, strides@, j).unwrap().1 as usize,
                        ),
                ),
            decreases dims.len() - ix,
        {
            let (head, back) = cuts[ix];
            let dim = dims[ix];
            assert(self.cut_at(dims@, begin@, end@, strides@, ix as int) == Some((head as int, back as int)));
            if head < 0 || back < 0 || head as u64 > usize::MAX as u64 || back as u64 > usize::MAX as u64 {
                proof {
                    assert(!cut_valid(dims@[ix as int], self.cut_at(dims@, begin@, end@, strides@, ix as int).unwrap()));
                }
                return Ok(None);
            }
            if dim.slope == 0 && head as i128 + back as i128 > dim.offset as i128 {
                proof {
                    assert(!cut_valid(dims@[ix as int], self.cut_at(dims@, begin@, end@, strides@, ix as int).unwrap()));
                }
                return Ok(None);
            }
            prune.push((head as usize, back as usize));
            ix += 1;
            proof {
                assert(prune@ =~= Seq::new(
                    ix as nat,
                    |j: int|
                        (
                            self.cut_at(dims@, begin@, end@, strides@, j).unwrap().0 as usize,
                            self.cut_at(dims@, begin@, end@, strides@, j).unwrap().1 as usize,
                        ),
                ));
            }
        }
        Ok(Some(Slice::new(prune)))
    }
}

/// The sizes of a shape as constant dimensions.
pub open spec fn constant_dims(dims: Seq<usize>) -> Seq<TDim> {
    Seq::new(dims.len(), |ix: int| TDim { slope: 0, offset: dims[ix] as i64 })
}

/// Where no axis is dropped, the axes kept are the axes read.
pub proof fn lemma_nothing_shrunk(bounds: Seq<Dim>)
    requires
        forall|ix: int| 0 <= ix < bounds.len() ==> !(#[trigger] bounds[ix]).shrink,
    ensures
        end_shape(bounds) == mid_shape(bounds),
    decreases bounds.len(),
{
    if bounds.len() == 0 {
        assert(mid_shape(bounds) =~= Seq::<usize>::empty());
    } else {
        let rest = bounds.drop_last();
        assert forall|ix: int| 0 <= ix < rest.len() implies !(#[trigger] rest[ix]).shrink by {
            assert(rest[ix] == bounds[ix]);
        }
        lemma_nothing_shrunk(rest);
        assert(!bounds[bounds.len() - 1].shrink);
        assert(mid_shape(bounds).drop_last() =~= mid_shape(rest));
        assert(end_shape(bounds) =~= mid_shape(bounds));
    }
}

/// A strided slice with constant bounds and unit strides, and the plain
/// slice that `specialize` puts in its place, give the same tensor for the
/// same input: the same shape, and the same elements one by one.
pub proof fn lemma_specialized_same_output(
    op: BaseStridedSlice,
    input: TensorValue,
    begin: TensorValue,
    end: TensorValue,
    strides: TensorValue,
    prune: Seq<(usize, usize)>,
)
    requires
        numel(input.dims) == input.items.len(),
        input.items.len() <= usize::MAX,
        input.dims.len() <= usize::MAX,
        forall|ix: int| 0 <= ix < input.dims.len() ==> input.dims[ix] <= i64::MAX,
        op.specialized(constant_dims(input.dims), begin, end, strides) == Specialized::Pruned(prune),
    ensures
        pruned(prune, input) is Some,
        op.sliced(input, begin, end, strides) == pruned(prune, input),
{
    let dims = input.dims;
    let cdims = constant_dims(dims);
    let s = i32s_of(strides).unwrap();
    let b = dims_of(begin).unwrap();
    let e = dims_of(end).unwrap();
    assert(!op.shrinks(cdims.len()));
    assert forall|ix: int| 0 <= ix < dims.len() implies {
        &&& (#[trigger] op.bound_at(dims, b, e, s, ix)) is Some
        &&& op.cut_at(cdims, b, e, s, ix) is Some
        &&& cut_valid(cdims[ix], op.cut_at(cdims, b, e, s, ix).unwrap())
        &&& op.bound_at(dims, b, e, s, ix).unwrap().stride == 1
        &&& !op.bound_at(dims, b, e, s, ix).unwrap().shrink
        &&& op.bound_at(dims, b, e, s, ix).unwrap().begin.slope == 0
        &&& op.bound_at(dims, b, e, s, ix).unwrap().begin.offset == prune[ix].0
        &&& op.bound_at(dims, b, e, s, ix).unwrap().length() == Some((dims[ix] - prune[ix].0 - prune[ix].1) as int)
        &&& prune[ix].0 + prune[ix].1 <= dims[ix]
    } by {
        let c = op.cut_at(cdims, b, e, s, ix);
        assert(c is Some);
        assert(cut_valid(cdims[ix], c.unwrap()));
        let d = op.prepared(ix as usize, cdims[ix], b, e, s).unwrap();
        assert(op.bound_at(dims, b, e, s, ix) == Some(d));
        assert(!mask_bit(op.shrink_axis_mask, ix as usize));
        if ix < b.len() {
            assert(ix < s.len());
            assert(s[ix] == 1);
        }
        assert(d.stride == 1);
        let rest = TDim::fitting(cdims[ix].minus(d.end)).unwrap();
        assert(d.end.slope == 0);
        assert(d.end.offset == dims[ix] - rest.offset);
        assert(d.end.minus(d.begin) == (0int, dims[ix] - rest.offset - d.begin.offset));
        assert(abs(1) == 1);
        let span = dims[ix] - rest.offset - d.begin.offset;
        assert(steps(span, 1) == span) by {
            assert(abs(span) == span);
            assert((1 - 1 + span) / 1 == span);
        }
    }
    let bounds = op.bounds(dims, b, e, s).unwrap();
    assert(measurable(bounds));
    assert(op.prepared_all(dims, begin, end, strides) == Some(bounds));
    lemma_nothing_shrunk(bounds);
    assert(prune_fits(prune, dims));
    lemma_trimmed_fits(prune, dims);
    lemma_prune_window(prune, dims);
    assert(mid_shape(bounds) =~= pruned_dims(prune, dims));
    assert(firsts(bounds) =~= pruned_firsts(prune));
    assert(strides_of(bounds) =~= unit_strides(prune.len()));
}

/// The cuts of the plain slice that reads from `begin` up to `end` along
/// each axis of an array of shape `dims`: `begin` at the start of the
/// axis, and the size less `end` at its end.
pub open spec fn plain_cuts(dims: Seq<usize>, begin: Seq<TDim>, end: Seq<TDim>) -> Seq<(usize, usize)> {
    Seq::new(dims.len(), |ix: int| (begin[ix].offset as usize, (dims[ix] - end[ix].offset) as usize))
}

/// No bit of the mask 0 is set.
proof fn lemma_no_bit(ix: usize)
    ensures
        !mask_bit(0, ix),
{
    if ix < 64 {
        assert((0i64 >> ix) & 1 == 0) by (bit_vector)
            requires
                ix < 64,
        ;
    }
}

/// The rewrite of a strided slice is right: a strided slice without
/// masks, with one pair of constant bounds for each axis of its input,
/// each within the axis and the end no less than the begin, and with unit
/// strides, has a plain slice that does the same, the one with the cuts
/// `plain_cuts`; and the two give the same tensor for the same input: the
/// same type, the same shape, and the same elements one by one.
pub proof fn lemma_rewrite_is_right(
    op: BaseStridedSlice,
    input: TensorValue,
    begin: TensorValue,
    end: TensorValue,
    strides: TensorValue,
)
    requires
        op.begin_mask == 0,
        op.end_mask == 0,
        op.shrink_axis_mask == 0,
        numel(input.dims) == input.items.len(),
        input.items.len() <= usize::MAX,
        input.dims.len() <= usize::MAX,
        forall|ix: int| 0 <= ix < input.dims.len() ==> input.dims[ix] <= i64::MAX,
        dims_of(begin) is Some,
        dims_of(end) is Some,
        i32s_of(strides) is Some,
        dims_of(begin).unwrap().len() == input.dims.len(),
        dims_of(end).unwrap().len() == input.dims.len(),
        i32s_of(strides).unwrap().len() == input.dims.len(),
        forall|ix: int| 0 <= ix < input.dims.len() ==> i32s_of(strides).unwrap()[ix] == 1,
        forall|ix: int|
            0 <= ix < input.dims.len() ==> 0 <= (#[trigger] dims_of(begin).unwrap()[ix]).offset <= dims_of(
                end,
            ).unwrap()[ix].offset <= input.dims[ix],
    ensures
        op.specialized(constant_dims(input.dims), begin, end, strides) == Specialized::Pruned(
            plain_cuts(input.dims, dims_of(begin).unwrap(), dims_of(end).unwrap()),
        ),
        pruned(plain_cuts(input.dims, dims_of(begin).unwrap(), dims_of(end).unwrap()), input) is Some,
        op.sliced(input, begin, end, strides) == pruned(
            plain_cuts(input.dims, dims_of(begin).unwrap(), dims_of(end).unwrap()),
            input,
        ),
{
    let dims = input.dims;
    let cdims = constant_dims(dims);
    let b = dims_of(begin).unwrap();
    let e = dims_of(end).unwrap();
    let s = i32s_of(strides).unwrap();
    let cuts = plain_cuts(dims, b, e);
    assert forall|ix: usize| !(#[trigger] mask_bit(0, ix)) by {
        lemma_no_bit(ix);
    }
    assert(!op.shrinks(cdims.len()));
    assert forall|ix: int| 0 <= ix < dims.len() implies (#[trigger] op.cut_at(cdims, b, e, s, ix)) == Some(
        (b[ix].offset as int, dims[ix] - e[ix].offset),
    ) && cut_valid(cdims[ix], op.cut_at(cdims, b, e, s, ix).unwrap()) by {
        assert(0 <= b[ix].offset <= e[ix].offset <= dims[ix]);
        assert(b[ix].slope == 0 && e[ix].slope == 0);
        assert(!mask_bit(op.shrink_axis_mask, ix as usize));
        assert(!mask_bit(op.begin_mask, ix as usize));
        assert(!mask_bit(op.end_mask, ix as usize));
        assert(!from_end(b[ix]) && !from_end(e[ix]));
        let d = op.prepared(ix as usize, cdims[ix], b, e, s).unwrap();
        assert(d == Dim { begin: b[ix], end: e[ix], stride: 1, shrink: false });
    }
    assert(Seq::new(
        cdims.len(),
        |ix: int|
            (op.cut_at(cdims, b, e, s, ix).unwrap().0 as usize, op.cut_at(cdims, b, e, s, ix).unwrap().1 as usize),
    ) =~= cuts);
    lemma_specialized_same_output(op, input, begin, end, strides, cuts);
}

/// The rules of a strided slice: input and output have one element type;
/// the three lists of bounds and strides have rank 1 and one length; once
/// the shape of the input and the three lists are known, the shape of the
/// output is.
pub open spec fn slice_rules(base: BaseStridedSlice) -> Seq<Rule> {
    seq![
        Rule::SameType(in0(), out0()),
        Rule::RankIs(input(1), 1),
        Rule::RankIs(input(2), 1),
        Rule::RankIs(input(3), 1),
        Rule::SameDim(input(1), 0, input(2), 0),
        Rule::SameDim(input(2), 0, input(3), 0),
        Rule::Given(Cont::StridedSlice(base)),
    ]
}

impl BaseStridedSlice {
    /// The sizes of the axes that the slice keeps, of the first `upto`
    /// axes of an input of shape `dims`, as dimensions: a size may depend
    /// on the stream. It is undefined where an axis has no bounds or no
    /// size.
    pub open spec fn kept_sizes(self, dims: Seq<TDim>, begin: Seq<TDim>, end: Seq<TDim>, strides: Seq<i32>, upto: nat) -> Option<
        Seq<TDim>,
    >
        decreases upto,
    {
        if upto == 0 {
            Some(Seq::empty())
        } else {
            let ix = (upto - 1) as usize;
            match self.kept_sizes(dims, begin, end, strides, (upto - 1) as nat) {
                Some(rest) => if mask_bit(self.shrink_axis_mask, ix) {
                    Some(rest)
                } else {
                    match self.prepared(ix, dims[ix as int], begin, end, strides) {
                        Some(d) => match d.soft_length() {
                            Some(n) => Some(rest.push(n)),
                            None => None,
                        },
                        None => None,
                    }
                },
                None => None,
            }
        }
    }

    /// The rules of the strided slice for an operator with this many
    /// inputs and outputs: see `slice_rules`. It wants four inputs and one
    /// output.
    pub fn rules(&self, n_inputs: usize, n_outputs: usize) -> (r: Result<Vec<Rule>, TractError>)
        ensures
            n_inputs == 4 && n_outputs == 1 ==> r is Ok && r->Ok_0@ == slice_rules(*self),
            !(n_inputs == 4 && n_outputs == 1) ==> r is Err && r->Err_0 == TractError::MalformedGraph,
    {
        if n_inputs != 4 || n_outputs != 1 {
            return Err(TractError::MalformedGraph);
        }
        let mut out: Vec<Rule> = Vec::new();
        out.push(Rule::SameType(Slot::input(0), Slot::output(0)));
        out.push(Rule::RankIs(Slot::input(1), 1));
        out.push(Rule::RankIs(Slot::input(2), 1));
        out.push(Rule::RankIs(Slot::input(3), 1));
        out.push(Rule::SameDim(Slot::input(1), 0, Slot::input(2), 0));
        out.push(Rule::SameDim(Slot::input(2), 0, Slot::input(3), 0));
        out.push(Rule::Given(Cont::StridedSlice(*self)));
        proof {
            assert(out@ =~= slice_rules(*self));
        }
        Ok(out)
    }
}

/// The rules that fix the shape of the first output at the sizes `sizes`.
pub open spec fn sizes_rules(sizes: Seq<TDim>) -> Seq<Rule> {
    Seq::new(sizes.len(), |i: int| Rule::DimIs(out0(), i as usize, sizes[i])).push(
        Rule::RankIs(out0(), sizes.len() as usize),
    )
}

/// What the conditional rule of a strided slice states: nothing before the
/// shape of the input and the three lists are known; then the size of each
/// axis that is kept, and the rank. It fails where the lists cannot be
/// read, or an axis has no size.
pub open spec fn slice_expansion(base: BaseStridedSlice, f: FactsValue) -> Option<Result<Seq<Rule>, TractError>> {
    if f.inputs.len() < 4 {
        Some(Err(TractError::MalformedGraph))
    } else {
        match (f.inputs[0].shape.concrete(), f.inputs[1].value, f.inputs[2].value, f.inputs[3].value) {
            (Some(dims), Some(b), Some(e), Some(s)) => match (dims_of(b), dims_of(e), i32s_of(s)) {
                (Some(begin), Some(end), Some(strides)) => match base.kept_sizes(
                    dims,
                    begin,
                    end,
                    strides,
                    dims.len(),
                ) {
                    Some(sizes) => Some(Ok(sizes_rules(sizes))),
                    None => Some(Err(TractError::EvalError)),
                },
                _ => Some(Err(TractError::EvalError)),
            },
            _ => None,
        }
    }
}

/// States what the conditional rule of a strided slice has to state, if
/// the shape of the input and the three lists are known: see
/// `slice_expansion`.
#[verifier::loop_isolation(false)]
pub fn expand(base: &BaseStridedSlice, f: &Facts) -> (r: Result<Option<Vec<Rule>>, TractError>)
    ensures
        match slice_expansion(*base, f@) {
            None => r is Ok && r->Ok_0 is None,
            Some(Ok(rules)) => r is Ok && r->Ok_0 is Some && r->Ok_0->Some_0@ == rules,
            Some(Err(e)) => r is Err && r->Err_0 == e,
        },
{
    if f.inputs.len() < 4 {
        return Err(TractError::MalformedGraph);
    }
    let dims = match f.inputs[0].shape.concrete() {
        Some(s) => s,
        None => {
            return Ok(None);
        },
    };
    let (b, e, s) = match (&f.inputs[1].value, &f.inputs[2].value, &f.inputs[3].value) {
        (ValueFact::Only(b), ValueFact::Only(e), ValueFact::Only(s)) => (b, e, s),
        _ => {
            return Ok(None);
        },
    };
    let begin = match b.to_dims() {
        Ok(v) => v,
        Err(e) => {
            return Err(e);
        },
    };
    let end = match e.to_dims() {
        Ok(v) => v,
        Err(e) => {
            return Err(e);
        },
    };
    let strides = match s.to_i32s() {
        Ok(v) => v,
        Err(e) => {
            return Err(e);
        },
    };
    let o = Slot::output(0);
    let mut out: Vec<Rule> = Vec::new();
    let ghost mut sizes: Seq<TDim> = Seq::empty();
    let mut current_out_dim: usize = 0;
    let mut ix: usize = 0;
    while ix < dims.len()
        invariant
            ix <= dims.len(),
            current_out_dim <= ix,
            base.kept_sizes(dims@, begin@, end@, strides@, ix as nat) == Some(sizes),
            sizes.len() == current_out_dim,
            out@ == Seq::new(sizes.len(), |i: int| Rule::DimIs(out0(), i as usize, sizes[i])),
        decreases dims.len() - ix,
    {
        if !base.must_shrink(ix) {
            let preped = match base.prepare_one_dim(ix, dims[ix], &begin, &end, &strides) {
                Ok(d) => d,
                Err(e) => {
                    proof {
                        lemma_kept_sizes_fails(*base, dims@, begin@, end@, strides@, (ix + 1) as nat, dims@.len());
                    }
                    return Err(e);
                },
            };
            let n = match preped.soft_len() {
                Ok(n) => n,
                Err(e) => {
                    proof {
                        lemma_kept_sizes_fails(*base, dims@, begin@, end@, strides@, (ix + 1) as nat, dims@.len());
                    }
                    return Err(e);
                },
            };
            out.push(Rule::DimIs(o, current_out_dim, n));
            proof {
                sizes = sizes.push(n);
                assert(out@ =~= Seq::new(sizes.len(), |i: int| Rule::DimIs(out0(), i as usize, sizes[i])));
            }
            current_out_dim += 1;
        }
        ix += 1;
    }
    out.push(Rule::RankIs(o, current_out_dim));
    proof {
        assert(out@ =~= sizes_rules(sizes));
    }
    Ok(Some(out))
}

/// Sizes that are undefined for some axes stay so for more of them.
proof fn lemma_kept_sizes_fails(
    base: BaseStridedSlice,
    dims: Seq<TDim>,
    begin: Seq<TDim>,
    end: Seq<TDim>,
    strides: Seq<i32>,
    k: nat,
    n: nat,
)
    requires
        k <= n,
        base.kept_sizes(dims, begin, end, strides, k) is None,
    ensures
        base.kept_sizes(dims, begin, end, strides, n) is None,
    decreases n - k,
{
    if k < n {
        lemma_kept_sizes_fails(base, dims, begin, end, strides, k, (n - 1) as nat);
    }
}

} // verus!

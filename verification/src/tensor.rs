//! Tensors: a typed n-dimensional array with a shape and an element type.
//!
//! The library moves elements around and does integer arithmetic on them. A
//! floating-point element is carried as its bit pattern and never computed
//! with here.

use vstd::prelude::*;
use crate::dim::TDim;
use crate::errors::TractError;

verus! {

/// The element types of a tensor.
#[derive(Clone, Copy, Debug, PartialEq, Eq, Structural, Hash)]
pub enum DatumType {
    Bool,
    U8,
    I8,
    I32,
    I64,
    /// 32-bit floating point; an element is held as its bit pattern.
    F32,
    /// 64-bit floating point; an element is held as its bit pattern.
    F64,
    /// A dimension; an element is held as its value.
    TDim,
    /// Bytes of a string.
    String,
}

impl DatumType {
    /// Whether the elements are floating-point numbers.
    pub open spec fn is_float(self) -> bool {
        self == DatumType::F32 || self == DatumType::F64
    }

    /// Whether the elements are floating-point numbers.
    pub fn floating(self) -> (r: bool)
        ensures
            r == self.is_float(),
    {
        match self {
            DatumType::F32 | DatumType::F64 => true,
            _ => false,
        }
    }
}

/// The number of elements of an array of shape `dims`.
pub open spec fn numel(dims: Seq<usize>) -> nat
    decreases dims.len(),
{
    if dims.len() == 0 {
        1
    } else {
        numel(dims.drop_last()) * dims.last() as nat
    }
}

/// What a tensor is: its element type, its shape, and its elements in
/// row-major order.
pub struct TensorValue {
    pub dt: DatumType,
    pub dims: Seq<usize>,
    pub items: Seq<i64>,
}

/// A tensor. Its elements are as many as its shape says.
#[derive(Debug, PartialEq, Eq)]
pub struct Tensor {
    dt: DatumType,
    shape: Vec<usize>,
    data: Vec<i64>,
}

impl View for Tensor {
    type V = TensorValue;

    closed spec fn view(&self) -> TensorValue {
        TensorValue { dt: self.dt, dims: self.shape@, items: self.data@ }
    }
}

pub proof fn lemma_numel_push(dims: Seq<usize>, d: usize)
    ensures
        numel(dims.push(d)) == numel(dims) * d as nat,
{
    assert(dims.push(d).drop_last() =~= dims);
}

pub proof fn lemma_numel_take(dims: Seq<usize>, i: int)
    requires
        0 <= i < dims.len(),
    ensures
        numel(dims.take(i + 1)) == numel(dims.take(i)) * dims[i] as nat,
{
    assert(dims.take(i + 1).drop_last() =~= dims.take(i));
}

/// A shape with an axis of size 0 has no element.
pub proof fn lemma_numel_zero(dims: Seq<usize>, i: int)
    requires
        0 <= i < dims.len(),
        dims[i] == 0,
    ensures
        numel(dims) == 0,
    decreases dims.len(),
{
    if i < dims.len() - 1 {
        lemma_numel_zero(dims.drop_last(), i);
        assert(numel(dims.drop_last()) * dims.last() as nat == 0) by (nonlinear_arith)
            requires
                numel(dims.drop_last()) == 0,
        ;
    } else {
        assert(numel(dims.drop_last()) * dims.last() as nat == 0) by (nonlinear_arith)
            requires
                dims.last() == 0,
        ;
    }
}

/// Without an axis of size 0, the leading axes hold no more elements than
/// all of them.
pub proof fn lemma_numel_prefix(dims: Seq<usize>, i: int)
    requires
        0 <= i <= dims.len(),
        forall|k: int| 0 <= k < dims.len() ==> dims[k] >= 1,
    ensures
        1 <= numel(dims.take(i)) <= numel(dims),
    decreases dims.len() - i,
{
    if i == dims.len() {
        assert(dims.take(i) =~= dims);
        lemma_numel_positive(dims);
    } else {
        lemma_numel_prefix(dims, i + 1);
        lemma_numel_take(dims, i);
        lemma_numel_positive(dims.take(i));
        assert(numel(dims.take(i)) <= numel(dims.take(i)) * dims[i] as nat) by (nonlinear_arith)
            requires
                dims[i] >= 1,
        ;
    }
}

pub proof fn lemma_numel_positive(dims: Seq<usize>)
    requires
        forall|k: int| 0 <= k < dims.len() ==> dims[k] >= 1,
    ensures
        numel(dims) >= 1,
    decreases dims.len(),
{
    if dims.len() > 0 {
        lemma_numel_positive(dims.drop_last());
        assert(numel(dims.drop_last()) * dims.last() as nat >= 1) by (nonlinear_arith)
            requires
                numel(dims.drop_last()) >= 1,
                dims.last() >= 1,
        ;
    }
}

/// The number of elements of an array of this shape, where a `usize` can
/// hold it.
pub fn shape_len(shape: &Vec<usize>) -> (r: Option<usize>)
    ensures
        r == (if numel(shape@) <= usize::MAX {
            Some(numel(shape@) as usize)
        } else {
            None
        }),
{
    let mut i: usize = 0;
    while i < shape.len()
        invariant
            i <= shape.len(),
            forall|k: int| 0 <= k < i ==> shape@[k] >= 1,
        decreases shape.len() - i,
    {
        if shape[i] == 0 {
            proof {
                lemma_numel_zero(shape@, i as int);
            }
            return Some(0);
        }
        i += 1;
    }
    let mut acc: usize = 1;
    let mut j: usize = 0;
    while j < shape.len()
        invariant
            j <= shape.len(),
            forall|k: int| 0 <= k < shape.len() ==> shape@[k] >= 1,
            acc == numel(shape@.take(j as int)),
        decreases shape.len() - j,
    {
        proof {
            lemma_numel_take(shape@, j as int);
            lemma_numel_prefix(shape@, j + 1);
        }
        match acc.checked_mul(shape[j]) {
            Some(next) => {
                acc = next;
            },
            None => {
                return None;
            },
        }
        j += 1;
    }
    proof {
        assert(shape@.take(shape@.len() as int) =~= shape@);
    }
    Some(acc)
}

/// Whether two lists of sizes are the same.
pub fn same_sizes(a: &Vec<usize>, b: &Vec<usize>) -> (r: bool)
    ensures
        r == (a@ == b@),
{
    if a.len() != b.len() {
        return false;
    }
    let mut i: usize = 0;
    while i < a.len()
        invariant
            i <= a.len(),
            a.len() == b.len(),
            forall|k: int| 0 <= k < i ==> a@[k] == b@[k],
        decreases a.len() - i,
    {
        if a[i] != b[i] {
            return false;
        }
        i += 1;
    }
    proof {
        assert(a@ =~= b@);
    }
    true
}

/// Whether two lists of elements are the same.
pub fn same_items(a: &Vec<i64>, b: &Vec<i64>) -> (r: bool)
    ensures
        r == (a@ == b@),
{
    if a.len() != b.len() {
        return false;
    }
    let mut i: usize = 0;
    while i < a.len()
        invariant
            i <= a.len(),
            a.len() == b.len(),
            forall|k: int| 0 <= k < i ==> a@[k] == b@[k],
        decreases a.len() - i,
    {
        if a[i] != b[i] {
            return false;
        }
        i += 1;
    }
    proof {
        assert(a@ =~= b@);
    }
    true
}

/// A copy of a list of sizes.
pub fn copy_sizes(a: &Vec<usize>) -> (r: Vec<usize>)
    ensures
        r@ == a@,
{
    let mut out: Vec<usize> = Vec::new();
    let mut i: usize = 0;
    while i < a.len()
        invariant
            i <= a.len(),
            out@ == a@.take(i as int),
        decreases a.len() - i,
    {
        out.push(a[i]);
        proof {
            assert(a@.take(i as int).push(a@[i as int]) =~= a@.take(i + 1));
        }
        i += 1;
    }
    proof {
        assert(a@.take(a@.len() as int) =~= a@);
    }
    out
}

/// A copy of a list of elements.
pub fn copy_items(a: &Vec<i64>) -> (r: Vec<i64>)
    ensures
        r@ == a@,
{
    let mut out: Vec<i64> = Vec::new();
    let mut i: usize = 0;
    while i < a.len()
        invariant
            i <= a.len(),
            out@ == a@.take(i as int),
        decreases a.len() - i,
    {
        out.push(a[i]);
        proof {
            assert(a@.take(i as int).push(a@[i as int]) =~= a@.take(i + 1));
        }
        i += 1;
    }
    proof {
        assert(a@.take(a@.len() as int) =~= a@);
    }
    out
}

impl Tensor {
    #[verifier::type_invariant]
    spec fn inv(self) -> bool {
        numel(self.shape@) == self.data@.len()
    }

    /// The tensor of type `dt` and shape `shape` with the elements `data`,
    /// given in row-major order. It is refused where the shape asks for
    /// another number of elements.
    pub fn new(dt: DatumType, shape: Vec<usize>, data: Vec<i64>) -> (r: Result<Tensor, TractError>)
        ensures
            numel(shape@) == data@.len() ==> r is Ok && r->Ok_0@ == (TensorValue {
                dt,
                dims: shape@,
                items: data@,
            }),
            numel(shape@) != data@.len() ==> r == Err::<Tensor, TractError>(TractError::EvalError),
    {
        let count = data.len();
        match shape_len(&shape) {
            Some(n) => {
                if n == count {
                    Ok(Tensor { dt, shape, data })
                } else {
                    Err(TractError::EvalError)
                }
            },
            None => Err(TractError::EvalError),
        }
    }

    /// The tensor of type `dt` and shape `shape` of which every element is
    /// `item`. It is refused where the elements cannot be counted.
    pub fn filled(dt: DatumType, shape: Vec<usize>, item: i64) -> (r: Result<Tensor, TractError>)
        ensures
            numel(shape@) <= usize::MAX ==> r is Ok && r->Ok_0@ == (TensorValue {
                dt,
                dims: shape@,
                items: Seq::new(numel(shape@), |i: int| item),
            }),
            numel(shape@) > usize::MAX ==> r == Err::<Tensor, TractError>(TractError::EvalError),
    {
        let n = match shape_len(&shape) {
            Some(n) => n,
            None => {
                return Err(TractError::EvalError);
            },
        };
        let mut data: Vec<i64> = Vec::new();
        let mut i: usize = 0;
        while i < n
            invariant
                i <= n,
                data@ == Seq::new(i as nat, |k: int| item),
            decreases n - i,
        {
            data.push(item);
            i += 1;
            proof {
                assert(data@ =~= Seq::new(i as nat, |k: int| item));
            }
        }
        Ok(Tensor { dt, shape, data })
    }

    /// The tensor of rank 0 that holds `v`.
    pub fn scalar(dt: DatumType, v: i64) -> (r: Tensor)
        ensures
            r@ == (TensorValue { dt, dims: Seq::<usize>::empty(), items: seq![v] }),
    {
        let shape: Vec<usize> = Vec::new();
        let mut data: Vec<i64> = Vec::new();
        data.push(v);
        proof {
            assert(data@ =~= seq![v]);
            assert(shape@ =~= Seq::<usize>::empty());
        }
        Tensor { dt, shape, data }
    }

    /// The tensor of rank 1 that holds `data`.
    pub fn vector(dt: DatumType, data: Vec<i64>) -> (r: Tensor)
        ensures
            r@ == (TensorValue { dt, dims: seq![data@.len() as usize], items: data@ }),
    {
        let mut shape: Vec<usize> = Vec::new();
        shape.push(data.len());
        proof {
            assert(shape@ =~= seq![data@.len() as usize]);
            assert(shape@.drop_last() =~= Seq::<usize>::empty());
            assert(numel(shape@) == 1 * data@.len()) by {
                reveal_with_fuel(numel, 2);
            }
        }
        Tensor { dt, shape, data }
    }

    /// The element type.
    pub fn datum_type(&self) -> (r: DatumType)
        ensures
            r == self@.dt,
    {
        self.dt
    }

    /// The shape. It asks for as many elements as the tensor holds.
    pub fn shape(&self) -> (r: &Vec<usize>)
        ensures
            r@ == self@.dims,
            numel(self@.dims) == self@.items.len(),
    {
        proof {
            use_type_invariant(self);
        }
        &self.shape
    }

    /// The number of axes.
    pub fn rank(&self) -> (r: usize)
        ensures
            r == self@.dims.len(),
    {
        self.shape.len()
    }

    /// The number of elements.
    pub fn len(&self) -> (r: usize)
        ensures
            r == self@.items.len(),
            r == numel(self@.dims),
    {
        proof {
            use_type_invariant(self);
        }
        self.data.len()
    }

    /// The elements, in row-major order.
    pub fn data(&self) -> (r: &Vec<i64>)
        ensures
            r@ == self@.items,
            numel(self@.dims) == self@.items.len(),
    {
        proof {
            use_type_invariant(self);
        }
        &self.data
    }

    /// The same elements under the shape `shape`. It is refused where the
    /// shape asks for another number of elements.
    pub fn into_shape(self, shape: Vec<usize>) -> (r: Result<Tensor, TractError>)
        ensures
            numel(shape@) == self@.items.len() ==> r is Ok && r->Ok_0@ == (TensorValue { dims: shape@, ..self@ }),
            numel(shape@) != self@.items.len() ==> r == Err::<Tensor, TractError>(TractError::EvalError),
    {
        Tensor::new(self.dt, shape, self.data)
    }

    /// The elements of a tensor of rank 1 as dimensions. It fails for
    /// another rank, and for elements that are no integers.
    pub fn to_dims(&self) -> (r: Result<Vec<TDim>, TractError>)
        ensures
            match dims_of(self@) {
                Some(d) => r is Ok && r->Ok_0@ == d,
                None => r == Err::<Vec<TDim>, TractError>(TractError::EvalError),
            },
    {
        if self.shape.len() != 1 {
            return Err(TractError::EvalError);
        }
        match self.dt {
            DatumType::U8 | DatumType::I8 | DatumType::I32 | DatumType::I64 | DatumType::TDim => {},
            _ => {
                return Err(TractError::EvalError);
            },
        }
        let mut out: Vec<TDim> = Vec::new();
        let mut i: usize = 0;
        while i < self.data.len()
            invariant
                i <= self.data.len(),
                out@ == Seq::new(i as nat, |k: int| TDim { slope: 0, offset: self.data@[k] }),
            decreases self.data.len() - i,
        {
            out.push(TDim::constant(self.data[i]));
            i += 1;
            proof {
                assert(out@ =~= Seq::new(i as nat, |k: int| TDim { slope: 0, offset: self.data@[k] }));
            }
        }
        Ok(out)
    }

    /// The elements of a tensor of rank 1 and of type `I32`. It fails for
    /// another rank or type, and for an element that is no 32-bit integer.
    pub fn to_i32s(&self) -> (r: Result<Vec<i32>, TractError>)
        ensures
            match i32s_of(self@) {
                Some(d) => r is Ok && r->Ok_0@ == d,
                None => r == Err::<Vec<i32>, TractError>(TractError::EvalError),
            },
    {
        if self.shape.len() != 1 || self.dt != DatumType::I32 {
            return Err(TractError::EvalError);
        }
        let mut out: Vec<i32> = Vec::new();
        let mut i: usize = 0;
        while i < self.data.len()
            invariant
                i <= self.data.len(),
                forall|k: int| 0 <= k < i ==> i32::MIN <= (#[trigger] self.data@[k]) <= i32::MAX,
                out@ == Seq::new(i as nat, |k: int| self.data@[k] as i32),
            decreases self.data.len() - i,
        {
            let v = self.data[i];
            if v < i32::MIN as i64 || v > i32::MAX as i64 {
                return Err(TractError::EvalError);
            }
            out.push(v as i32);
            i += 1;
            proof {
                assert(out@ =~= Seq::new(i as nat, |k: int| self.data@[k] as i32));
            }
        }
        Ok(out)
    }

    /// Whether two tensors have the same type, shape and elements.
    pub fn same(&self, other: &Tensor) -> (r: bool)
        ensures
            r == (self@ == other@),
    {
        self.dt == other.dt && same_sizes(&self.shape, &other.shape) && same_items(&self.data, &other.data)
    }
}

/// The elements of a tensor of rank 1 as dimensions, where they are
/// integers.
pub open spec fn dims_of(t: TensorValue) -> Option<Seq<TDim>> {
    if t.dims.len() == 1 && (t.dt == DatumType::U8 || t.dt == DatumType::I8 || t.dt == DatumType::I32 || t.dt
        == DatumType::I64 || t.dt == DatumType::TDim) {
        Some(Seq::new(t.items.len(), |k: int| TDim { slope: 0, offset: t.items[k] }))
    } else {
        None
    }
}

/// The elements of a tensor of rank 1 and of type `I32`, where they are
/// 32-bit integers.
pub open spec fn i32s_of(t: TensorValue) -> Option<Seq<i32>> {
    if t.dims.len() == 1 && t.dt == DatumType::I32 && (forall|k: int|
        0 <= k < t.items.len() ==> i32::MIN <= #[trigger] t.items[k] <= i32::MAX) {
        Some(Seq::new(t.items.len(), |k: int| t.items[k] as i32))
    } else {
        None
    }
}

impl Clone for Tensor {
    fn clone(&self) -> (r: Tensor)
        ensures
            r@ == self@,
    {
        proof {
            use_type_invariant(self);
        }
        Tensor { dt: self.dt, shape: copy_sizes(&self.shape), data: copy_items(&self.data) }
    }
}

} // verus!

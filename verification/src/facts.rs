//! What is known of a tensor before the model runs: its element type, its
//! shape and, where it is constant, its value. A fact only ever becomes more
//! specific; two facts that force different exact values contradict.

use std::sync::Arc;
use vstd::prelude::*;
use crate::dim::TDim;
use crate::errors::TractError;
use crate::share::share;
use crate::tensor::{DatumType, Tensor, TensorValue};

verus! {

/// What is known of an element type.
#[derive(Clone, Copy, Debug, PartialEq, Eq, Structural)]
pub enum TypeFact {
    Any,
    Only(DatumType),
}

/// What is known of the size of one axis.
#[derive(Clone, Copy, Debug, PartialEq, Eq, Structural)]
pub enum DimFact {
    Any,
    Only(TDim),
}

/// What is known of a number, such as a rank.
#[derive(Clone, Copy, Debug, PartialEq, Eq, Structural)]
pub enum IntFact {
    Any,
    Only(i64),
}

/// What is known of a shape: the leading axes, and whether there may be
/// more of them (`open`).
#[derive(Debug, PartialEq, Eq)]
pub struct ShapeFact {
    pub open: bool,
    pub dims: Vec<DimFact>,
}

/// What a shape fact says.
pub struct ShapeValue {
    pub open: bool,
    pub dims: Seq<DimFact>,
}

/// What is known of a constant value.
#[derive(Debug, PartialEq, Eq)]
pub enum ValueFact {
    Any,
    Only(Arc<Tensor>),
}

/// What is known of one tensor.
#[derive(Debug, PartialEq, Eq)]
pub struct TensorFact {
    pub datum_type: TypeFact,
    pub shape: ShapeFact,
    pub value: ValueFact,
}

/// What a tensor fact says.
pub struct FactValue {
    pub datum_type: TypeFact,
    pub shape: ShapeValue,
    pub value: Option<TensorValue>,
}

impl TypeFact {
    /// The more specific of two facts, where they agree.
    pub open spec fn unified(self, other: TypeFact) -> Option<TypeFact> {
        match (self, other) {
            (TypeFact::Any, _) => Some(other),
            (_, TypeFact::Any) => Some(self),
            (TypeFact::Only(a), TypeFact::Only(b)) => if a == b {
                Some(self)
            } else {
                None
            },
        }
    }

    /// `self` says all that `other` says.
    pub open spec fn refines(self, other: TypeFact) -> bool {
        other == TypeFact::Any || other == self
    }

    /// Unifies two facts: the more specific one, or a contradiction where
    /// both are exact and differ.
    pub fn unify(&self, other: &TypeFact) -> (r: Result<TypeFact, TractError>)
        ensures
            match self.unified(*other) {
                Some(u) => r == Ok::<TypeFact, TractError>(u),
                None => r == Err::<TypeFact, TractError>(TractError::InferenceContradiction),
            },
    {
        match (*self, *other) {
            (TypeFact::Any, _) => Ok(*other),
            (_, TypeFact::Any) => Ok(*self),
            (TypeFact::Only(a), TypeFact::Only(b)) => if a == b {
                Ok(*self)
            } else {
                Err(TractError::InferenceContradiction)
            },
        }
    }
}

impl DimFact {
    /// The more specific of two facts, where they agree.
    pub open spec fn unified(self, other: DimFact) -> Option<DimFact> {
        match (self, other) {
            (DimFact::Any, _) => Some(other),
            (_, DimFact::Any) => Some(self),
            (DimFact::Only(a), DimFact::Only(b)) => if a == b {
                Some(self)
            } else {
                None
            },
        }
    }

    /// `self` says all that `other` says.
    pub open spec fn refines(self, other: DimFact) -> bool {
        other == DimFact::Any || other == self
    }

    /// Unifies two facts: the more specific one, or a contradiction where
    /// both are exact and differ.
    pub fn unify(&self, other: &DimFact) -> (r: Result<DimFact, TractError>)
        ensures
            match self.unified(*other) {
                Some(u) => r == Ok::<DimFact, TractError>(u),
                None => r == Err::<DimFact, TractError>(TractError::InferenceContradiction),
            },
    {
        match (*self, *other) {
            (DimFact::Any, _) => Ok(*other),
            (_, DimFact::Any) => Ok(*self),
            (DimFact::Only(a), DimFact::Only(b)) => if a == b {
                Ok(*self)
            } else {
                Err(TractError::InferenceContradiction)
            },
        }
    }
}

impl IntFact {
    /// The more specific of two facts, where they agree.
    pub open spec fn unified(self, other: IntFact) -> Option<IntFact> {
        match (self, other) {
            (IntFact::Any, _) => Some(other),
            (_, IntFact::Any) => Some(self),
            (IntFact::Only(a), IntFact::Only(b)) => if a == b {
                Some(self)
            } else {
                None
            },
        }
    }

    /// `self` says all that `other` says.
    pub open spec fn refines(self, other: IntFact) -> bool {
        other == IntFact::Any || other == self
    }

    /// Unifies two facts: the more specific one, or a contradiction where
    /// both are exact and differ.
    pub fn unify(&self, other: &IntFact) -> (r: Result<IntFact, TractError>)
        ensures
            match self.unified(*other) {
                Some(u) => r == Ok::<IntFact, TractError>(u),
                None => r == Err::<IntFact, TractError>(TractError::InferenceContradiction),
            },
    {
        match (*self, *other) {
            (IntFact::Any, _) => Ok(*other),
            (_, IntFact::Any) => Ok(*self),
            (IntFact::Only(a), IntFact::Only(b)) => if a == b {
                Ok(*self)
            } else {
                Err(TractError::InferenceContradiction)
            },
        }
    }
}

impl View for ShapeFact {
    type V = ShapeValue;

    open spec fn view(&self) -> ShapeValue {
        ShapeValue { open: self.open, dims: self.dims@ }
    }
}

impl ShapeValue {
    /// Two shape facts agree: axis by axis where both speak of the axis,
    /// and the longer one has no more axes than the shorter one allows.
    pub open spec fn agrees(self, other: ShapeValue) -> bool {
        &&& forall|i: int|
            0 <= i < self.dims.len() && i < other.dims.len() ==> (#[trigger] self.dims[i]).unified(other.dims[i])
                is Some
        &&& self.dims.len() > other.dims.len() ==> other.open
        &&& other.dims.len() > self.dims.len() ==> self.open
    }

    /// What two agreeing shape facts say together.
    pub open spec fn unified(self, other: ShapeValue) -> ShapeValue {
        ShapeValue {
            open: self.open && other.open,
            dims: Seq::new(
                if self.dims.len() >= other.dims.len() {
                    self.dims.len()
                } else {
                    other.dims.len()
                },
                |i: int|
                    if i < self.dims.len() && i < other.dims.len() {
                        self.dims[i].unified(other.dims[i]).unwrap()
                    } else if i < self.dims.len() {
                        self.dims[i]
                    } else {
                        other.dims[i]
                    },
            ),
        }
    }

    /// `self` says all that `other` says.
    pub open spec fn refines(self, other: ShapeValue) -> bool {
        &&& self.dims.len() >= other.dims.len()
        &&& forall|i: int| 0 <= i < other.dims.len() ==> (#[trigger] self.dims[i]).refines(other.dims[i])
        &&& self.dims.len() > other.dims.len() ==> other.open
        &&& self.open ==> other.open
    }

    /// The axes, where the rank and every axis are known.
    pub open spec fn concrete(self) -> Option<Seq<TDim>> {
        if !self.open && (forall|i: int| 0 <= i < self.dims.len() ==> (#[trigger] self.dims[i]) is Only) {
            Some(Seq::new(self.dims.len(), |i: int| self.dims[i]->Only_0))
        } else {
            None
        }
    }

    /// What is known of the size of axis `axis`.
    pub open spec fn dim(self, axis: int) -> DimFact {
        if 0 <= axis < self.dims.len() {
            self.dims[axis]
        } else {
            DimFact::Any
        }
    }

    /// The fact once the rank is known to be `r`, where that does not
    /// contradict it: the shape is closed, with `r` axes.
    pub open spec fn with_rank(self, r: nat) -> Option<ShapeValue> {
        if self.open {
            if self.dims.len() <= r {
                Some(
                    ShapeValue {
                        open: false,
                        dims: Seq::new(
                            r,
                            |i: int|
                                if i < self.dims.len() {
                                    self.dims[i]
                                } else {
                                    DimFact::Any
                                },
                        ),
                    },
                )
            } else {
                None
            }
        } else if self.dims.len() == r {
            Some(self)
        } else {
            None
        }
    }

    /// The fact once axis `axis` is known to have the size `d`, where that
    /// does not contradict it. An open shape grows up to the axis.
    pub open spec fn with_dim(self, axis: nat, d: TDim) -> Option<ShapeValue> {
        if axis < self.dims.len() {
            match self.dims[axis as int] {
                DimFact::Any => Some(ShapeValue { open: self.open, dims: self.dims.update(axis as int, DimFact::Only(d)) }),
                DimFact::Only(x) => if x == d {
                    Some(self)
                } else {
                    None
                },
            }
        } else if self.open {
            Some(
                ShapeValue {
                    open: true,
                    dims: Seq::new(
                        axis + 1,
                        |i: int|
                            if i < self.dims.len() {
                                self.dims[i]
                            } else if i == axis {
                                DimFact::Only(d)
                            } else {
                                DimFact::Any
                            },
                    ),
                },
            )
        } else {
            None
        }
    }

    /// The rank that the fact fixes: that of a closed shape.
    pub open spec fn rank(self) -> IntFact {
        if self.open {
            IntFact::Any
        } else {
            IntFact::Only(self.dims.len() as i64)
        }
    }
}

impl ShapeFact {
    /// The fact that says nothing of the shape.
    pub fn any() -> (r: ShapeFact)
        ensures
            r@ == (ShapeValue { open: true, dims: Seq::<DimFact>::empty() }),
    {
        ShapeFact { open: true, dims: Vec::new() }
    }

    /// The fact that the shape has exactly these axes.
    pub fn closed(dims: Vec<DimFact>) -> (r: ShapeFact)
        ensures
            r@ == (ShapeValue { open: false, dims: dims@ }),
    {
        ShapeFact { open: false, dims }
    }

    /// The fact that the shape starts with these axes.
    pub fn open(dims: Vec<DimFact>) -> (r: ShapeFact)
        ensures
            r@ == (ShapeValue { open: true, dims: dims@ }),
    {
        ShapeFact { open: true, dims }
    }

    /// The fact that the shape is exactly `shape`. It is refused where a
    /// size is too large for a dimension.
    pub fn from_sizes(shape: &Vec<usize>) -> (r: Option<ShapeFact>)
        ensures
            (forall|i: int| 0 <= i < shape@.len() ==> shape@[i] <= i64::MAX) ==> r is Some && !r->Some_0@.open
                && r->Some_0@.dims == Seq::new(
                shape@.len(),
                |i: int| DimFact::Only(TDim { slope: 0, offset: shape@[i] as i64 }),
            ),
            !(forall|i: int| 0 <= i < shape@.len() ==> shape@[i] <= i64::MAX) ==> r is None,
    {
        let mut dims: Vec<DimFact> = Vec::new();
        let mut i: usize = 0;
        while i < shape.len()
            invariant
                i <= shape.len(),
                forall|k: int| 0 <= k < i ==> shape@[k] <= i64::MAX,
                dims@ == Seq::new(i as nat, |k: int| DimFact::Only(TDim { slope: 0, offset: shape@[k] as i64 })),
            decreases shape.len() - i,
        {
            match TDim::from_usize(shape[i]) {
                Some(d) => {
                    dims.push(DimFact::Only(d));
                },
                None => {
                    return None;
                },
            }
            i += 1;
            proof {
                assert(dims@ =~= Seq::new(
                    i as nat,
                    |k: int| DimFact::Only(TDim { slope: 0, offset: shape@[k] as i64 }),
                ));
            }
        }
        Some(ShapeFact { open: false, dims })
    }

    /// The rank, where the shape is closed.
    pub fn rank(&self) -> (r: IntFact)
        requires
            self.dims@.len() <= i64::MAX,
        ensures
            r == self@.rank(),
    {
        if self.open {
            IntFact::Any
        } else {
            IntFact::Only(self.dims.len() as i64)
        }
    }

    /// What is known of the size of axis `axis`.
    pub fn dim(&self, axis: usize) -> (r: DimFact)
        ensures
            r == self@.dim(axis as int),
    {
        if axis < self.dims.len() {
            self.dims[axis]
        } else {
            DimFact::Any
        }
    }

    /// The fact once the rank is known to be `r`; a contradiction where it
    /// says otherwise.
    pub fn with_rank(&self, r: usize) -> (out: Result<ShapeFact, TractError>)
        ensures
            match self@.with_rank(r as nat) {
                Some(v) => out is Ok && out->Ok_0@ == v,
                None => out is Err && out->Err_0 == TractError::InferenceContradiction,
            },
    {
        if self.open {
            if self.dims.len() > r {
                return Err(TractError::InferenceContradiction);
            }
        } else if self.dims.len() != r {
            return Err(TractError::InferenceContradiction);
        }
        let mut dims: Vec<DimFact> = Vec::new();
        let mut i: usize = 0;
        while i < r
            invariant
                i <= r,
                self.dims@.len() <= r,
                dims@.len() == i,
                forall|k: int|
                    0 <= k < i ==> dims@[k] == if k < self.dims@.len() {
                        self.dims@[k]
                    } else {
                        DimFact::Any
                    },
            decreases r - i,
        {
            if i < self.dims.len() {
                dims.push(self.dims[i]);
            } else {
                dims.push(DimFact::Any);
            }
            i += 1;
        }
        proof {
            assert(dims@ =~= self@.with_rank(r as nat).unwrap().dims);
        }
        Ok(ShapeFact { open: false, dims })
    }

    /// The fact once axis `axis` is known to have the size `d`; a
    /// contradiction where it says otherwise.
    pub fn with_dim(&self, axis: usize, d: TDim) -> (out: Result<ShapeFact, TractError>)
        requires
            axis < usize::MAX,
        ensures
            match self@.with_dim(axis as nat, d) {
                Some(v) => out is Ok && out->Ok_0@ == v,
                None => out is Err && out->Err_0 == TractError::InferenceContradiction,
            },
    {
        if axis < self.dims.len() {
            match self.dims[axis] {
                DimFact::Only(x) => {
                    if x != d {
                        return Err(TractError::InferenceContradiction);
                    }
                },
                DimFact::Any => {},
            }
        } else if !self.open {
            return Err(TractError::InferenceContradiction);
        }
        let n = if axis < self.dims.len() {
            self.dims.len()
        } else {
            axis + 1
        };
        let ghost want = self@.with_dim(axis as nat, d).unwrap();
        let mut dims: Vec<DimFact> = Vec::new();
        let mut i: usize = 0;
        while i < n
            invariant
                i <= n,
                n == want.dims.len(),
                self@.with_dim(axis as nat, d) == Some(want),
                dims@.len() == i,
                forall|k: int| 0 <= k < i ==> dims@[k] == want.dims[k],
            decreases n - i,
        {
            if i == axis {
                dims.push(DimFact::Only(d));
            } else if i < self.dims.len() {
                dims.push(self.dims[i]);
            } else {
                dims.push(DimFact::Any);
            }
            i += 1;
        }
        proof {
            assert(dims@ =~= want.dims);
        }
        Ok(ShapeFact { open: self.open, dims })
    }

    /// The axes of a shape of which the rank and every axis are known.
    pub fn concrete(&self) -> (r: Option<Vec<TDim>>)
        ensures
            match self@.concrete() {
                Some(d) => r is Some && r->Some_0@ == d,
                None => r is None,
            },
    {
        if self.open {
            return None;
        }
        let mut out: Vec<TDim> = Vec::new();
        let mut i: usize = 0;
        while i < self.dims.len()
            invariant
                i <= self.dims.len(),
                forall|k: int| 0 <= k < i ==> (#[trigger] self.dims@[k]) is Only,
                out@ == Seq::new(i as nat, |k: int| self.dims@[k]->Only_0),
            decreases self.dims.len() - i,
        {
            match self.dims[i] {
                DimFact::Only(d) => {
                    out.push(d);
                },
                DimFact::Any => {
                    return None;
                },
            }
            i += 1;
            proof {
                assert(out@ =~= Seq::new(i as nat, |k: int| self.dims@[k]->Only_0));
            }
        }
        Some(out)
    }

    /// A copy of the fact.
    pub fn duplicate(&self) -> (r: ShapeFact)
        ensures
            r@ == self@,
    {
        let mut dims: Vec<DimFact> = Vec::new();
        let mut i: usize = 0;
        while i < self.dims.len()
            invariant
                i <= self.dims.len(),
                dims@ == self.dims@.take(i as int),
            decreases self.dims.len() - i,
        {
            dims.push(self.dims[i]);
            proof {
                assert(self.dims@.take(i as int).push(self.dims@[i as int]) =~= self.dims@.take(i + 1));
            }
            i += 1;
        }
        proof {
            assert(self.dims@.take(self.dims@.len() as int) =~= self.dims@);
        }
        ShapeFact { open: self.open, dims }
    }

    /// Whether two facts say the same.
    pub fn same(&self, other: &ShapeFact) -> (r: bool)
        ensures
            r == (self@ == other@),
    {
        if self.open != other.open || self.dims.len() != other.dims.len() {
            return false;
        }
        let mut i: usize = 0;
        while i < self.dims.len()
            invariant
                i <= self.dims.len(),
                self.dims.len() == other.dims.len(),
                forall|k: int| 0 <= k < i ==> self.dims@[k] == other.dims@[k],
            decreases self.dims.len() - i,
        {
            if self.dims[i] != other.dims[i] {
                return false;
            }
            i += 1;
        }
        proof {
            assert(self.dims@ =~= other.dims@);
        }
        true
    }

    /// Unifies two shape facts: what both say together, or a contradiction
    /// where they do not agree.
    pub fn unify(&self, other: &ShapeFact) -> (r: Result<ShapeFact, TractError>)
        ensures
            self@.agrees(other@) ==> r is Ok && r->Ok_0@ == self@.unified(other@),
            !self@.agrees(other@) ==> r == Err::<ShapeFact, TractError>(TractError::InferenceContradiction),
    {
        let la = self.dims.len();
        let lb = other.dims.len();
        if (la > lb && !other.open) || (lb > la && !self.open) {
            return Err(TractError::InferenceContradiction);
        }
        let n = if la >= lb {
            la
        } else {
            lb
        };
        let ghost want = self@.unified(other@);
        let mut dims: Vec<DimFact> = Vec::new();
        let mut i: usize = 0;
        while i < n
            invariant
                i <= n,
                la == self.dims@.len(),
                lb == other.dims@.len(),
                n == want.dims.len(),
                want == self@.unified(other@),
                dims@.len() == i,
                forall|k: int| 0 <= k < i && k < la && k < lb ==> (#[trigger] self.dims@[k]).unified(other.dims@[k])
                    is Some,
                forall|k: int| 0 <= k < i ==> dims@[k] == want.dims[k],
            decreases n - i,
        {
            if i < la && i < lb {
                match self.dims[i].unify(&other.dims[i]) {
                    Ok(d) => {
                        dims.push(d);
                    },
                    Err(e) => {
                        return Err(e);
                    },
                }
            } else if i < la {
                dims.push(self.dims[i]);
            } else {
                dims.push(other.dims[i]);
            }
            i += 1;
        }
        proof {
            assert(dims@ =~= want.dims);
        }
        Ok(ShapeFact { open: self.open && other.open, dims })
    }
}

impl ValueFact {
    /// What the fact says: the tensor, where it is known.
    pub open spec fn known(self) -> Option<TensorValue> {
        match self {
            ValueFact::Any => None,
            ValueFact::Only(t) => Some(t@),
        }
    }

    /// A copy of the fact; a known tensor is shared, not copied.
    pub fn duplicate(&self) -> (r: ValueFact)
        ensures
            r == *self,
    {
        match self {
            ValueFact::Any => ValueFact::Any,
            ValueFact::Only(t) => ValueFact::Only(share(t)),
        }
    }

    /// Unifies two facts: the more specific one, or a contradiction where
    /// both are known and differ.
    pub fn unify(&self, other: &ValueFact) -> (r: Result<ValueFact, TractError>)
        ensures
            unified_values(self.known(), other.known()) is Some ==> r is Ok && r->Ok_0.known() == unified_values(
                self.known(),
                other.known(),
            )->Some_0,
            unified_values(self.known(), other.known()) is None ==> r == Err::<ValueFact, TractError>(
                TractError::InferenceContradiction,
            ),
    {
        match (self, other) {
            (ValueFact::Any, _) => Ok(other.duplicate()),
            (_, ValueFact::Any) => Ok(self.duplicate()),
            (ValueFact::Only(a), ValueFact::Only(b)) => if a.same(b) {
                Ok(self.duplicate())
            } else {
                Err(TractError::InferenceContradiction)
            },
        }
    }
}

/// The more specific of two value facts, where they agree.
pub open spec fn unified_values(a: Option<TensorValue>, b: Option<TensorValue>) -> Option<Option<TensorValue>> {
    match (a, b) {
        (None, _) => Some(b),
        (_, None) => Some(a),
        (Some(x), Some(y)) => if x == y {
            Some(a)
        } else {
            None
        },
    }
}

/// `a` says all that `b` says.
pub open spec fn value_refines(a: Option<TensorValue>, b: Option<TensorValue>) -> bool {
    b is None || a == b
}

impl View for TensorFact {
    type V = FactValue;

    open spec fn view(&self) -> FactValue {
        FactValue { datum_type: self.datum_type, shape: self.shape@, value: self.value.known() }
    }
}

impl FactValue {
    /// Two facts agree in type, shape and value.
    pub open spec fn agrees(self, other: FactValue) -> bool {
        &&& self.datum_type.unified(other.datum_type) is Some
        &&& self.shape.agrees(other.shape)
        &&& unified_values(self.value, other.value) is Some
    }

    /// What two agreeing facts say together.
    pub open spec fn unified(self, other: FactValue) -> FactValue {
        FactValue {
            datum_type: self.datum_type.unified(other.datum_type).unwrap(),
            shape: self.shape.unified(other.shape),
            value: unified_values(self.value, other.value).unwrap(),
        }
    }

    /// `self` says all that `other` says.
    pub open spec fn refines(self, other: FactValue) -> bool {
        &&& self.datum_type.refines(other.datum_type)
        &&& self.shape.refines(other.shape)
        &&& value_refines(self.value, other.value)
    }
}

impl TensorFact {
    /// The fact that says nothing.
    pub fn any() -> (r: TensorFact)
        ensures
            r@ == (FactValue {
                datum_type: TypeFact::Any,
                shape: ShapeValue { open: true, dims: Seq::<DimFact>::empty() },
                value: None,
            }),
    {
        TensorFact { datum_type: TypeFact::Any, shape: ShapeFact::any(), value: ValueFact::Any }
    }

    /// The fact of an element type and a shape.
    pub fn dt_shape(dt: DatumType, shape: ShapeFact) -> (r: TensorFact)
        ensures
            r@ == (FactValue { datum_type: TypeFact::Only(dt), shape: shape@, value: None }),
    {
        TensorFact { datum_type: TypeFact::Only(dt), shape, value: ValueFact::Any }
    }

    /// The same fact with the element type `dt`.
    pub fn with_datum_type(self, dt: DatumType) -> (r: TensorFact)
        ensures
            r@ == (FactValue { datum_type: TypeFact::Only(dt), ..self@ }),
    {
        TensorFact { datum_type: TypeFact::Only(dt), shape: self.shape, value: self.value }
    }

    /// The same fact with the shape fact `shape`.
    pub fn with_shape(self, shape: ShapeFact) -> (r: TensorFact)
        ensures
            r@ == (FactValue { shape: shape@, ..self@ }),
    {
        TensorFact { datum_type: self.datum_type, shape, value: self.value }
    }

    /// All that is known of a constant tensor: its type, its shape and
    /// itself. It is refused where a size is too large for a dimension.
    pub fn from_tensor(t: Arc<Tensor>) -> (r: Option<TensorFact>)
        ensures
            (forall|i: int| 0 <= i < t@.dims.len() ==> t@.dims[i] <= i64::MAX) <==> r is Some,
            r matches Some(f) ==> f@.datum_type == TypeFact::Only(t@.dt) && f@.value == Some(t@) && !f@.shape.open
                && f@.shape.dims == Seq::new(
                t@.dims.len(),
                |i: int| DimFact::Only(TDim { slope: 0, offset: t@.dims[i] as i64 }),
            ),
    {
        match ShapeFact::from_sizes(t.shape()) {
            Some(shape) => Some(
                TensorFact { datum_type: TypeFact::Only(t.datum_type()), shape, value: ValueFact::Only(t) },
            ),
            None => None,
        }
    }

    /// A copy of the fact; a known tensor is shared, not copied.
    pub fn duplicate(&self) -> (r: TensorFact)
        ensures
            r@ == self@,
    {
        TensorFact { datum_type: self.datum_type, shape: self.shape.duplicate(), value: self.value.duplicate() }
    }

    /// Unifies two facts: what both say together, or a contradiction where
    /// they force different exact values.
    pub fn unify(&self, other: &TensorFact) -> (r: Result<TensorFact, TractError>)
        ensures
            self@.agrees(other@) ==> r is Ok && r->Ok_0@ == self@.unified(other@),
            !self@.agrees(other@) ==> r == Err::<TensorFact, TractError>(TractError::InferenceContradiction),
    {
        let datum_type = match self.datum_type.unify(&other.datum_type) {
            Ok(t) => t,
            Err(e) => {
                return Err(e);
            },
        };
        let shape = match self.shape.unify(&other.shape) {
            Ok(s) => s,
            Err(e) => {
                return Err(e);
            },
        };
        let value = match self.value.unify(&other.value) {
            Ok(v) => v,
            Err(e) => {
                return Err(e);
            },
        };
        Ok(TensorFact { datum_type, shape, value })
    }
}

/// What two agreeing facts say together says all that each of them says:
/// unifying never takes knowledge back.
pub proof fn lemma_unified_refines(a: FactValue, b: FactValue)
    requires
        a.agrees(b),
    ensures
        a.unified(b).refines(a),
        a.unified(b).refines(b),
{
    let u = a.unified(b);
    assert forall|i: int| 0 <= i < a.shape.dims.len() implies (#[trigger] u.shape.dims[i]).refines(a.shape.dims[i]) by {
        if i < b.shape.dims.len() {
            assert(a.shape.dims[i].unified(b.shape.dims[i]) is Some);
        }
    }
    assert forall|i: int| 0 <= i < b.shape.dims.len() implies (#[trigger] u.shape.dims[i]).refines(b.shape.dims[i]) by {
        if i < a.shape.dims.len() {
            assert(a.shape.dims[i].unified(b.shape.dims[i]) is Some);
        }
    }
}

/// Two facts that fix one rank at different numbers do not agree, so their
/// unification is a contradiction and never one of the two.
pub proof fn lemma_ranks_contradict(a: FactValue, b: FactValue)
    requires
        !a.shape.open,
        !b.shape.open,
        a.shape.dims.len() != b.shape.dims.len(),
    ensures
        !a.agrees(b),
{
}

} // verus!

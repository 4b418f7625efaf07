//! Size: the number of elements of a tensor, as a scalar.

use std::sync::Arc;
use vstd::prelude::*;
use crate::errors::TractError;
use crate::solver::{out0, Rule, Slot};
use crate::tensor::{DatumType, Tensor, TensorValue};

verus! {

/// The number of elements of its input, as a scalar of the type `dt`.
#[derive(Debug, Clone, Copy, PartialEq, Eq, Structural)]
pub struct Size {
    pub dt: DatumType,
}

/// `AsPrimitive::<i32>::as_` of num-traits on a `usize`: the cast that
/// `as` does, which keeps the low 32 bits.
#[verifier::external_body]
fn as_i32(size: usize) -> (r: i32)
    ensures
        r == size as i32,
{
    num_traits::AsPrimitive::<i32>::as_(size)
}

/// `AsPrimitive::<i64>::as_` of num-traits on a `usize`: the cast that
/// `as` does, which keeps the low 64 bits.
#[verifier::external_body]
fn as_i64(size: usize) -> (r: i64)
    ensures
        r == size as i64,
{
    num_traits::AsPrimitive::<i64>::as_(size)
}

/// `AsPrimitive::<u8>::as_` of num-traits on a `usize`: the cast that `as`
/// does, which keeps the low 8 bits.
#[verifier::external_body]
fn as_u8(size: usize) -> (r: u8)
    ensures
        r == size as u8,
{
    num_traits::AsPrimitive::<u8>::as_(size)
}

/// `AsPrimitive::<i8>::as_` of num-traits on a `usize`: the cast that `as`
/// does, which keeps the low 8 bits.
#[verifier::external_body]
fn as_i8(size: usize) -> (r: i8)
    ensures
        r == size as i8,
{
    num_traits::AsPrimitive::<i8>::as_(size)
}

/// The number `size` as an element of the type `dt`: cast as `as` casts.
/// There is none where `dt` is a boolean or a string; where it is a
/// floating-point type the element is the host's to make.
pub open spec fn coerced(dt: DatumType, size: usize) -> Option<i64> {
    match dt {
        DatumType::I32 => Some((size as i32) as i64),
        DatumType::I64 => Some(size as i64),
        DatumType::TDim => Some(size as i64),
        DatumType::U8 => Some((size as u8) as i64),
        DatumType::I8 => Some((size as i8) as i64),
        _ => None,
    }
}

/// The rules of the operator: the output is a scalar.
pub open spec fn size_rules() -> Seq<Rule> {
    seq![Rule::RankIs(out0(), 0)]
}

impl Size {
    pub fn new(dt: DatumType) -> (r: Size)
        ensures
            r.dt == dt,
    {
        Size { dt }
    }

    /// The scalar of the type `dt` that holds `size`: see `coerced`.
    pub fn coerce_to(dt: DatumType, size: usize) -> (r: Result<Arc<Tensor>, TractError>)
        ensures
            match coerced(dt, size) {
                Some(v) => r is Ok && r->Ok_0@ == (TensorValue { dt, dims: Seq::<usize>::empty(), items: seq![v] }),
                None => r is Err && r->Err_0 == TractError::EvalError,
            },
    {
        let v: i64 = match dt {
            DatumType::I32 => as_i32(size) as i64,
            DatumType::I64 => as_i64(size),
            DatumType::TDim => as_i64(size),
            DatumType::U8 => as_u8(size) as i64,
            DatumType::I8 => as_i8(size) as i64,
            _ => {
                return Err(TractError::EvalError);
            },
        };
        Ok(Arc::new(Tensor::scalar(dt, v)))
    }

    /// Evaluates the operation given the input tensor, for a type of
    /// integers: see `coerced`.
    pub fn eval_size(&self, input: &Tensor) -> (r: Result<Arc<Tensor>, TractError>)
        ensures
            match coerced(self.dt, input@.items.len() as usize) {
                Some(v) => r is Ok && r->Ok_0@ == (TensorValue {
                    dt: self.dt,
                    dims: Seq::<usize>::empty(),
                    items: seq![v],
                }),
                None => r is Err && r->Err_0 == TractError::EvalError,
            },
    {
        Self::coerce_to(self.dt, input.len())
    }

    /// The rules of the operator for this many inputs and outputs: see
    /// `size_rules`. It wants one input and one output.
    pub fn rules(&self, n_inputs: usize, n_outputs: usize) -> (r: Result<Vec<Rule>, TractError>)
        ensures
            n_inputs == 1 && n_outputs == 1 ==> r is Ok && r->Ok_0@ == size_rules(),
            !(n_inputs == 1 && n_outputs == 1) ==> r is Err && r->Err_0 == TractError::MalformedGraph,
    {
        if n_inputs != 1 || n_outputs != 1 {
            return Err(TractError::MalformedGraph);
        }
        let mut out: Vec<Rule> = Vec::new();
        out.push(Rule::RankIs(Slot::output(0), 0));
        proof {
            assert(out@ =~= size_rules());
        }
        Ok(out)
    }
}

} // verus!

//! Arithmetic on tensors of integers. On floating-point numbers it is the
//! host's.

use vstd::prelude::*;
use crate::errors::TractError;
use crate::tensor::{copy_sizes, same_sizes, DatumType, Tensor, TensorValue};

verus! {

/// Whether the integer `v` is an element of the type `dt`. A type that is
/// no type of integers has none.
pub open spec fn fits_type(dt: DatumType, v: int) -> bool {
    match dt {
        DatumType::U8 => 0 <= v <= u8::MAX,
        DatumType::I8 => i8::MIN <= v <= i8::MAX,
        DatumType::I32 => i32::MIN <= v <= i32::MAX,
        DatumType::I64 => i64::MIN <= v <= i64::MAX,
        _ => false,
    }
}

/// The sum of two tensors of integers, element by element. There is none
/// for tensors of different types or shapes, for a type that is no type of
/// integers, and where a sum is no element of the type.
pub open spec fn integer_sum(a: TensorValue, b: TensorValue) -> Option<TensorValue> {
    if a.dt == b.dt && a.dims == b.dims && a.items.len() == b.items.len() && forall|i: int|
        0 <= i < a.items.len() ==> fits_type(a.dt, #[trigger] a.items[i] + b.items[i]) {
        Some(
            TensorValue { dt: a.dt, dims: a.dims, items: Seq::new(a.items.len(), |i: int| (a.items[i] + b.items[i]) as i64) },
        )
    } else {
        None
    }
}

/// Whether `v` is an element of the type `dt`.
fn in_type(dt: DatumType, v: i128) -> (r: bool)
    ensures
        r == fits_type(dt, v as int),
{
    match dt {
        DatumType::U8 => 0 <= v && v <= 255,
        DatumType::I8 => -128 <= v && v <= 127,
        DatumType::I32 => -2147483648 <= v && v <= 2147483647,
        DatumType::I64 => -9223372036854775808 <= v && v <= 9223372036854775807,
        _ => false,
    }
}

/// Adds two tensors of integers, element by element: see `integer_sum`.
pub fn add_integers(a: &Tensor, b: &Tensor) -> (r: Result<Tensor, TractError>)
    ensures
        match integer_sum(a@, b@) {
            Some(v) => r is Ok && r->Ok_0@ == v,
            None => r == Err::<Tensor, TractError>(TractError::EvalError),
        },
{
    let dt = a.datum_type();
    if dt != b.datum_type() || !same_sizes(a.shape(), b.shape()) {
        return Err(TractError::EvalError);
    }
    let xs = a.data();
    let ys = b.data();
    let n = xs.len();
    let mut out: Vec<i64> = Vec::new();
    let mut i: usize = 0;
    while i < n
        invariant
            i <= n,
            n == xs@.len(),
            n == ys@.len(),
            xs@ == a@.items,
            ys@ == b@.items,
            dt == a@.dt,
            out@.len() == i,
            forall|k: int| 0 <= k < i ==> fits_type(dt, #[trigger] xs@[k] + ys@[k]),
            forall|k: int| 0 <= k < i ==> out@[k] == (xs@[k] + ys@[k]) as i64,
        decreases n - i,
    {
        let sum: i128 = xs[i] as i128 + ys[i] as i128;
        if !in_type(dt, sum) {
            proof {
                assert(!fits_type(a@.dt, a@.items[i as int] + b@.items[i as int]));
            }
            return Err(TractError::EvalError);
        }
        out.push(sum as i64);
        i += 1;
    }
    proof {
        assert(out@ =~= Seq::new(a@.items.len(), |k: int| (a@.items[k] + b@.items[k]) as i64));
    }
    Tensor::new(dt, copy_sizes(a.shape()), out)
}

} // verus!

//! The plain slice: from each axis, a number of leading and of trailing
//! elements is cut off. As in every slicing operator of the library, a
//! bound that lies outside the axis stands for the nearest edge of the
//! axis: no more is cut off than the axis holds.

use vstd::prelude::*;
use crate::array::{along, gather, gathered, window_fits};
use crate::errors::TractError;
use crate::tensor::{lemma_numel_zero, numel, Tensor, TensorValue};

verus! {

/// Cuts off, from axis `d`, the first `prune[d].0` and the last
/// `prune[d].1` elements.
#[derive(Debug)]
pub struct Slice {
    pub prune: Vec<(usize, usize)>,
}

/// The sizes that are left of `dims`.
pub open spec fn pruned_dims(prune: Seq<(usize, usize)>, dims: Seq<usize>) -> Seq<usize> {
    Seq::new(dims.len(), |d: int| (dims[d] - prune[d].0 - prune[d].1) as usize)
}

/// The first index that is kept along each axis.
pub open spec fn pruned_firsts(prune: Seq<(usize, usize)>) -> Seq<i64> {
    Seq::new(prune.len(), |d: int| prune[d].0 as i64)
}

/// A stride of 1 along each of `n` axes.
pub open spec fn unit_strides(n: nat) -> Seq<i64> {
    Seq::new(n, |d: int| 1i64)
}

/// The cuts fit an array of shape `dims`: one pair for each axis, which
/// leaves a size of 0 or more.
pub open spec fn prune_fits(prune: Seq<(usize, usize)>, dims: Seq<usize>) -> bool {
    &&& prune.len() == dims.len()
    &&& forall|d: int| 0 <= d < dims.len() ==> (#[trigger] prune[d]).0 + prune[d].1 <= dims[d] && prune[d].0 <= i64::MAX
}

/// The cuts as they are made of an array of shape `dims`: of an axis that
/// holds less than is to be cut off, all that it holds is cut off, from
/// its start first.
pub open spec fn trimmed(prune: Seq<(usize, usize)>, dims: Seq<usize>) -> Seq<(usize, usize)> {
    Seq::new(
        prune.len(),
        |d: int|
            {
                let head = if prune[d].0 > dims[d] {
                    dims[d]
                } else {
                    prune[d].0
                };
                let back = if prune[d].1 > dims[d] - head {
                    (dims[d] - head) as usize
                } else {
                    prune[d].1
                };
                (head, back)
            },
    )
}

/// What is left of `input`, once the cuts are made as `trimmed` says;
/// undefined where there is not one pair of cuts for each axis.
pub open spec fn pruned(prune: Seq<(usize, usize)>, input: TensorValue) -> Option<TensorValue> {
    let cuts = trimmed(prune, input.dims);
    if prune_fits(cuts, input.dims) {
        Some(
            TensorValue {
                dt: input.dt,
                dims: pruned_dims(cuts, input.dims),
                items: gathered(
                    input.items,
                    input.dims,
                    pruned_dims(cuts, input.dims),
                    pruned_firsts(cuts),
                    unit_strides(cuts.len()),
                ),
            },
        )
    } else {
        None
    }
}

/// Cuts that fit are made as they are.
pub proof fn lemma_trimmed_fits(prune: Seq<(usize, usize)>, dims: Seq<usize>)
    requires
        prune_fits(prune, dims),
    ensures
        trimmed(prune, dims) == prune,
{
    assert(trimmed(prune, dims) =~= prune) by {
        assert forall|d: int| 0 <= d < prune.len() implies trimmed(prune, dims)[d] == prune[d] by {
            assert(prune[d].0 + prune[d].1 <= dims[d]);
        }
    }
}

/// An array whose axes are no longer than those of another has no more
/// elements, unless the other has an axis of size 0 that it has not.
pub proof fn lemma_numel_monotone(a: Seq<usize>, b: Seq<usize>)
    requires
        a.len() == b.len(),
        forall|d: int| 0 <= d < a.len() ==> a[d] <= b[d],
    ensures
        numel(a) <= numel(b),
    decreases a.len(),
{
    if a.len() > 0 {
        lemma_numel_monotone(a.drop_last(), b.drop_last());
        let x = numel(a.drop_last());
        let y = numel(b.drop_last());
        let p = a.last() as nat;
        let q = b.last() as nat;
        assert(x * p <= y * q) by (nonlinear_arith)
            requires
                x <= y,
                p <= q,
        ;
    }
}

/// Cuts that fit leave a window that lies in the input.
pub proof fn lemma_prune_window(prune: Seq<(usize, usize)>, dims: Seq<usize>)
    requires
        prune_fits(prune, dims),
    ensures
        window_fits(dims, pruned_dims(prune, dims), pruned_firsts(prune), unit_strides(prune.len())),
        numel(pruned_dims(prune, dims)) <= numel(dims),
{
    let out = pruned_dims(prune, dims);
    assert forall|d: int, c: int| 0 <= d < out.len() && 0 <= c < out[d] implies 0 <= #[trigger] along(
        pruned_firsts(prune)[d],
        unit_strides(prune.len())[d],
        c,
    ) < dims[d] by {
        assert(prune[d].0 + prune[d].1 <= dims[d]);
    }
    assert forall|d: int| 0 <= d < out.len() implies out[d] <= dims[d] by {
        assert(prune[d].0 + prune[d].1 <= dims[d]);
    }
    lemma_numel_monotone(out, dims);
}

impl Slice {
    pub fn new(prune: Vec<(usize, usize)>) -> (r: Slice)
        ensures
            r.prune == prune,
    {
        Slice { prune }
    }

    /// Evaluates the slice of `input`: see `pruned`. It fails where there
    /// is not one pair of cuts for each axis of the input.
    pub fn eval_slice(&self, input: &Tensor) -> (r: Result<Tensor, TractError>)
        ensures
            match pruned(self.prune@, input@) {
                Some(v) => r is Ok && r->Ok_0@ == v,
                None => r == Err::<Tensor, TractError>(TractError::EvalError),
            },
    {
        let shape = input.shape();
        let count = input.len();
        if self.prune.len() != shape.len() {
            return Err(TractError::EvalError);
        }
        let ghost cuts = trimmed(self.prune@, shape@);
        let mut out: Vec<usize> = Vec::new();
        let mut firsts: Vec<i64> = Vec::new();
        let mut steps: Vec<i64> = Vec::new();
        let mut d: usize = 0;
        while d < shape.len()
            invariant
                d <= shape.len(),
                shape@ == input@.dims,
                self.prune@.len() == shape@.len(),
                cuts == trimmed(self.prune@, shape@),
                cuts.len() == shape@.len(),
                forall|k: int| 0 <= k < d ==> (#[trigger] cuts[k]).0 + cuts[k].1 <= shape@[k] && cuts[k].0 <= i64::MAX,
                out@ == Seq::new(d as nat, |k: int| (shape@[k] - cuts[k].0 - cuts[k].1) as usize),
                firsts@ == Seq::new(d as nat, |k: int| cuts[k].0 as i64),
                steps@ == unit_strides(d as nat),
            decreases shape.len() - d,
        {
            let (head, back) = self.prune[d];
            let head = if head > shape[d] {
                shape[d]
            } else {
                head
            };
            let back = if back > shape[d] - head {
                shape[d] - head
            } else {
                back
            };
            assert(cuts[d as int] == (head, back));
            if head as u64 > i64::MAX as u64 {
                proof {
                    assert(!(cuts[d as int].0 <= i64::MAX));
                }
                return Err(TractError::EvalError);
            }
            out.push(shape[d] - head - back);
            firsts.push(head as i64);
            steps.push(1);
            d += 1;
            proof {
                assert(out@ =~= Seq::new(d as nat, |k: int| (shape@[k] - cuts[k].0 - cuts[k].1) as usize));
                assert(firsts@ =~= Seq::new(d as nat, |k: int| cuts[k].0 as i64));
                assert(steps@ =~= unit_strides(d as nat));
            }
        }
        proof {
            assert(out@ =~= pruned_dims(cuts, shape@));
            assert(firsts@ =~= pruned_firsts(cuts));
            lemma_prune_window(cuts, shape@);
        }
        gather(input, out, &firsts, &steps)
    }
}

} // verus!

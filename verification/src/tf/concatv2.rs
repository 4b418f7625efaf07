//! Concatenation of `n` tensors along an axis, which a last input gives.

use vstd::prelude::*;
use crate::errors::TractError;
use crate::facts::ValueFact;
use crate::solver::{in0, input, out0, Cont, Facts, FactsValue, Rule, Slot};
use std::sync::Arc;
use crate::nd::{axis_total, concat_dims, concatenated, nd_concatenate, concatenable};
use crate::ops::trivial::values_of;
use crate::share::share;
use crate::tensor::{DatumType, Tensor, TensorValue};

verus! {

/// Concatenation of `n` tensors of the element type `dt`. The axis is a
/// scalar of the type `tidx`.
#[derive(Debug, Clone, Copy, PartialEq, Eq, Structural)]
pub struct ConcatV2 {
    pub n: usize,
    pub dt: DatumType,
    pub tidx: DatumType,
}

/// The concatenation of `n` tensors of the element type `dt`, as an
/// operator. A negative number of tensors, or one that cannot be counted,
/// is refused.
pub fn build(n: i64, dt: DatumType, tidx: DatumType) -> (r: Result<crate::ops::Op, TractError>)
    ensures
        0 <= n <= usize::MAX ==> r == Ok::<crate::ops::Op, TractError>(
            crate::ops::Op::ConcatV2(ConcatV2 { n: n as usize, dt, tidx }),
        ),
        !(0 <= n <= usize::MAX) ==> r is Err && r->Err_0 == TractError::MalformedGraph,
{
    if n < 0 || n as u64 > usize::MAX as u64 {
        return Err(TractError::MalformedGraph);
    }
    Ok(crate::ops::Op::ConcatV2(ConcatV2 { n: n as usize, dt, tidx }))
}

/// Each of the first `n` inputs has the element type of the next.
pub open spec fn chain_types(n: nat) -> Seq<Rule> {
    Seq::new(
        if n >= 1 {
            (n - 1) as nat
        } else {
            0
        },
        |i: int| Rule::SameType(input(i as usize), input((i + 1) as usize)),
    )
}

/// Each of the first `n` inputs has the rank of the next.
pub open spec fn chain_ranks(n: nat) -> Seq<Rule> {
    Seq::new(
        if n >= 1 {
            (n - 1) as nat
        } else {
            0
        },
        |i: int| Rule::SameRank(input(i as usize), input((i + 1) as usize)),
    )
}

/// Along axis `d`, each of the first `n` inputs has the size of the next,
/// and the output has the size of the first input.
pub open spec fn per_axis(n: nat, d: usize) -> Seq<Rule> {
    Seq::new(
        if n >= 1 {
            (n - 1) as nat
        } else {
            0
        },
        |i: int| Rule::SameDim(input(i as usize), d, input((i + 1) as usize), d),
    ).push(Rule::SameDim(in0(), d, out0(), d))
}

/// `per_axis` for each axis from `from` up to `to`.
pub open spec fn axes_rules(n: nat, from: nat, to: nat) -> Seq<Rule>
    decreases to,
{
    if to <= from {
        Seq::empty()
    } else {
        axes_rules(n, from, (to - 1) as nat) + per_axis(n, (to - 1) as usize)
    }
}

/// The rules of a concatenation of `n` tensors: they have one element type
/// and one rank, which are those of the output; the axis is a scalar
/// 32-bit integer; once it is known, the sizes are related.
pub open spec fn concat_rules(n: usize) -> Seq<Rule> {
    chain_types(n as nat) + seq![Rule::SameType(out0(), in0()), Rule::TypeIs(input(n), DatumType::I32)] + chain_ranks(
        n as nat,
    ) + seq![Rule::RankIs(input(n), 0), Rule::SameRank(out0(), in0()), Rule::Given(Cont::ConcatAxis(n))]
}

/// The axis that a scalar 32-bit integer names.
pub open spec fn scalar_axis(v: TensorValue) -> Option<usize> {
    if v.dt == DatumType::I32 && v.dims.len() == 0 && v.items.len() == 1 && 0 <= v.items[0] < usize::MAX {
        Some(v.items[0] as usize)
    } else {
        None
    }
}

/// What a concatenation states once its axis is known: before the axis,
/// all inputs and the output have the same sizes; along the axis, the size
/// of the output is the sum of those of the inputs; and more once the rank
/// is known.
pub open spec fn axis_expansion(n: usize, f: FactsValue) -> Option<Result<Seq<Rule>, TractError>> {
    if f.inputs.len() <= n {
        Some(Err(TractError::MalformedGraph))
    } else {
        match f.inputs[n as int].value {
            None => None,
            Some(v) => match scalar_axis(v) {
                None => Some(Err(TractError::EvalError)),
                Some(axis) => Some(
                    Ok(
                        axes_rules(n as nat, 0, axis as nat) + seq![
                            Rule::Given(Cont::ConcatTail(n, axis)),
                            Rule::SumDims { n, axis },
                        ],
                    ),
                ),
            },
        }
    }
}

/// What a concatenation along `axis` states once the rank of its first
/// input is known: after the axis, all inputs and the output have the same
/// sizes.
pub open spec fn tail_expansion(n: usize, axis: usize, f: FactsValue) -> Option<Result<Seq<Rule>, TractError>> {
    if f.inputs.len() == 0 {
        Some(Err(TractError::MalformedGraph))
    } else if f.inputs[0].shape.open {
        None
    } else {
        Some(Ok(axes_rules(n as nat, (axis + 1) as nat, f.inputs[0].shape.dims.len())))
    }
}

/// The axis along which the inputs, of which the last names it, are ready
/// to be concatenated: the last input is a scalar 32-bit integer that is
/// no less than 0; the others have one element type and each have that
/// axis; and the sizes along the axis add up to a number that can be
/// counted.
pub open spec fn ready(inputs: Seq<TensorValue>) -> Option<usize> {
    match scalar_axis(inputs.last()) {
        Some(axis) => if (forall|j: int|
            0 <= j < inputs.len() - 1 ==> (#[trigger] inputs[j]).dt == inputs[0].dt && axis < inputs[j].dims.len())
            && axis_total(inputs.drop_last(), axis as int, (inputs.len() - 1) as nat) <= usize::MAX {
            Some(axis)
        } else {
            None
        },
        None => None,
    }
}

/// What the concatenation of `n` tensors gives for `inputs`: with another
/// number of inputs than `n + 1`, or with an `n` of 0, the graph is
/// malformed; inputs that are not `ready`, or not `nd::concatenable`,
/// fail; else the result has the element type of the first input, the
/// shape `nd::concat_dims` and the elements `nd::concatenated`.
pub open spec fn concat_result(n: usize, inputs: Seq<TensorValue>) -> Result<TensorValue, TractError> {
    if !(n >= 1 && inputs.len() == n + 1) {
        Err(TractError::MalformedGraph)
    } else {
        match ready(inputs) {
            None => Err(TractError::EvalError),
            Some(axis) => if concatenable(axis, inputs.drop_last()) {
                Ok(
                    TensorValue {
                        dt: inputs[0].dt,
                        dims: concat_dims(axis, inputs.drop_last()),
                        items: concatenated(axis, inputs.drop_last()),
                    },
                )
            } else {
                Err(TractError::EvalError)
            },
        }
    }
}

/// A sum of sizes grows with more of them.
proof fn lemma_total_grows(parts: Seq<TensorValue>, axis: int, k: nat, n: nat)
    requires
        k <= n,
    ensures
        axis_total(parts, axis, k) <= axis_total(parts, axis, n),
    decreases n - k,
{
    if k < n {
        lemma_total_grows(parts, axis, k, (n - 1) as nat);
    }
}

/// Adds `per_axis(n, d)` to the rules.
fn push_axis(out: &mut Vec<Rule>, n: usize, d: usize)
    ensures
        final(out)@ == old(out)@ + per_axis(n as nat, d),
{
    let ghost before = out@;
    let links = if n >= 1 {
        n - 1
    } else {
        0
    };
    let mut i: usize = 0;
    while i < links
        invariant
            i <= links,
            links == if n >= 1 {
                n - 1
            } else {
                0
            },
            out@.len() == before.len() + i,
            forall|k: int| 0 <= k < before.len() ==> out@[k] == before[k],
            forall|k: int| 0 <= k < i ==> out@[before.len() + k] == per_axis(n as nat, d)[k],
        decreases links - i,
    {
        out.push(Rule::SameDim(Slot::input(i), d, Slot::input(i + 1), d));
        i += 1;
    }
    out.push(Rule::SameDim(Slot::input(0), d, Slot::output(0), d));
    proof {
        let want = before + per_axis(n as nat, d);
        assert(out@.len() == want.len());
        assert forall|k: int| 0 <= k < out@.len() implies out@[k] == want[k] by {
            if k >= before.len() && k < before.len() + links {
                assert(out@[before.len() + (k - before.len())] == per_axis(n as nat, d)[k - before.len()]);
            }
        }
        assert(out@ =~= want);
    }
}

/// Adds `axes_rules(n, from, to)` to the rules.
fn push_axes(out: &mut Vec<Rule>, n: usize, from: usize, to: usize)
    ensures
        final(out)@ == old(out)@ + axes_rules(n as nat, from as nat, to as nat),
{
    let ghost before = out@;
    if to <= from {
        proof {
            assert(out@ =~= before + axes_rules(n as nat, from as nat, to as nat));
        }
        return ;
    }
    let mut d: usize = from;
    proof {
        assert(out@ =~= before + axes_rules(n as nat, from as nat, d as nat));
    }
    while d < to
        invariant
            from <= d <= to,
            out@ == before + axes_rules(n as nat, from as nat, d as nat),
        decreases to - d,
    {
        push_axis(out, n, d);
        d += 1;
        proof {
            assert(out@ =~= before + axes_rules(n as nat, from as nat, d as nat));
        }
    }
}

impl ConcatV2 {
    pub fn new(n: usize, dt: DatumType, tidx: DatumType) -> (r: ConcatV2)
        ensures
            r == (ConcatV2 { n, dt, tidx }),
    {
        ConcatV2 { n, dt, tidx }
    }

    /// Evaluates the concatenation: the last input names the axis, the
    /// others are concatenated along it. It is malformed with another
    /// number of inputs than `n + 1`, or with an `n` of 0. It fails where
    /// the inputs are not `ready`, and where the arrays cannot be
    /// concatenated, as when they differ along other axes: see
    /// `concat_result`.
    #[verifier::loop_isolation(false)]
    pub fn eval_concat(&self, inputs: &Vec<Arc<Tensor>>) -> (r: Result<Tensor, TractError>)
        ensures
            match concat_result(self.n, values_of(inputs@)) {
                Ok(v) => r is Ok && r->Ok_0@ == v,
                Err(e) => r == Err::<Tensor, TractError>(e),
            },
    {
        let n = self.n;
        let count = inputs.len();
        if n < 1 || n == usize::MAX || count != n + 1 {
            return Err(TractError::MalformedGraph);
        }
        let ghost all = values_of(inputs@);
        let v = &inputs[n];
        if v.datum_type() != DatumType::I32 || v.rank() != 0 || v.len() != 1 {
            return Err(TractError::EvalError);
        }
        let a = v.data()[0];
        if a < 0 || a as u64 >= usize::MAX as u64 {
            return Err(TractError::EvalError);
        }
        let axis = a as usize;
        assert(scalar_axis(all[n as int]) == Some(axis));
        let dt = inputs[0].datum_type();
        let mut parts: Vec<Arc<Tensor>> = Vec::new();
        let mut total: usize = 0;
        let mut k: usize = 0;
        while k < n
            invariant
                k <= n,
                n + 1 == inputs@.len(),
                all == values_of(inputs@),
                dt == inputs@[0]@.dt,
                parts@ == inputs@.take(k as int),
                forall|j: int| 0 <= j < k ==> (#[trigger] all[j]).dt == dt && axis < all[j].dims.len(),
                total == axis_total(all.drop_last(), axis as int, k as nat),
            decreases n - k,
        {
            let t = &inputs[k];
            if t.datum_type() != dt || t.rank() <= axis {
                proof {
                    assert(!(all[k as int].dt == dt && axis < all[k as int].dims.len()));
                }
                return Err(TractError::EvalError);
            }
            proof {
                assert(all.drop_last()[k as int] == all[k as int]);
            }
            total = match total.checked_add(t.shape()[axis]) {
                Some(s) => s,
                None => {
                    proof {
                        lemma_total_grows(all.drop_last(), axis as int, (k + 1) as nat, n as nat);
                    }
                    return Err(TractError::EvalError);
                },
            };
            parts.push(share(t));
            proof {
                assert(inputs@.take(k as int).push(inputs@[k as int]) =~= inputs@.take(k + 1));
            }
            k += 1;
        }
        proof {
            assert(inputs@.take(n as int) =~= inputs@.drop_last());
            assert(values_of(parts@) =~= all.drop_last());
            assert(ready(all) == Some(axis));
            assert forall|j: int| 0 <= j < parts@.len() implies axis < (#[trigger] parts@[j])@.dims.len() by {
                assert(all[j].dt == dt && axis < all[j].dims.len());
            }
        }
        match nd_concatenate(axis, &parts) {
            Ok((dims, items)) => Tensor::new(dt, dims, items),
            Err(_) => Err(TractError::EvalError),
        }
    }

    /// The rules of the concatenation for an operator with this many inputs
    /// and outputs: see `concat_rules`. It wants its `n` tensors, at least
    /// one, and the axis as inputs, and one output.
    pub fn rules(&self, n_inputs: usize, n_outputs: usize) -> (r: Result<Vec<Rule>, TractError>)
        ensures
            self.n >= 1 && n_inputs == self.n + 1 && n_outputs == 1 ==> r is Ok && r->Ok_0@ == concat_rules(self.n),
            !(self.n >= 1 && n_inputs == self.n + 1 && n_outputs == 1) ==> r is Err && r->Err_0
                == TractError::MalformedGraph,
    {
        let n = self.n;
        if n < 1 || n == usize::MAX || n_inputs != n + 1 || n_outputs != 1 {
            return Err(TractError::MalformedGraph);
        }
        let links = n - 1;
        let mut out: Vec<Rule> = Vec::new();
        let mut i: usize = 0;
        while i < links
            invariant
                i <= links,
                links == n - 1,
                out@.len() == i,
                forall|k: int| 0 <= k < i ==> out@[k] == chain_types(n as nat)[k],
            decreases links - i,
        {
            out.push(Rule::SameType(Slot::input(i), Slot::input(i + 1)));
            i += 1;
        }
        proof {
            assert(out@ =~= chain_types(n as nat));
        }
        out.push(Rule::SameType(Slot::output(0), Slot::input(0)));
        out.push(Rule::TypeIs(Slot::input(n), DatumType::I32));
        let ghost head = out@;
        proof {
            assert(head =~= chain_types(n as nat) + seq![
                Rule::SameType(out0(), in0()),
                Rule::TypeIs(input(n), DatumType::I32),
            ]);
        }
        let mut j: usize = 0;
        while j < links
            invariant
                j <= links,
                links == n - 1,
                out@.len() == head.len() + j,
                forall|k: int| 0 <= k < head.len() ==> out@[k] == head[k],
                forall|k: int| 0 <= k < j ==> out@[head.len() + k] == chain_ranks(n as nat)[k],
            decreases links - j,
        {
            out.push(Rule::SameRank(Slot::input(j), Slot::input(j + 1)));
            j += 1;
        }
        proof {
            assert(out@ =~= head + chain_ranks(n as nat)) by {
                assert forall|k: int| 0 <= k < out@.len() implies out@[k] == (head + chain_ranks(n as nat))[k] by {
                    if k >= head.len() {
                        assert(out@[head.len() + (k - head.len())] == chain_ranks(n as nat)[k - head.len()]);
                    }
                }
            }
        }
        let ghost body = out@;
        out.push(Rule::RankIs(Slot::input(n), 0));
        out.push(Rule::SameRank(Slot::output(0), Slot::input(0)));
        out.push(Rule::Given(Cont::ConcatAxis(n)));
        proof {
            assert(out@ =~= body + seq![
                Rule::RankIs(input(n), 0),
                Rule::SameRank(out0(), in0()),
                Rule::Given(Cont::ConcatAxis(n)),
            ]);
        }
        Ok(out)
    }
}

/// States what a concatenation has to state once its axis is known: see
/// `axis_expansion`.
pub fn expand_axis(n: usize, f: &Facts) -> (r: Result<Option<Vec<Rule>>, TractError>)
    ensures
        match axis_expansion(n, f@) {
            None => r is Ok && r->Ok_0 is None,
            Some(Ok(rules)) => r is Ok && r->Ok_0 is Some && r->Ok_0->Some_0@ == rules,
            Some(Err(e)) => r is Err && r->Err_0 == e,
        },
{
    if f.inputs.len() <= n {
        return Err(TractError::MalformedGraph);
    }
    let v = match &f.inputs[n].value {
        ValueFact::Only(t) => t,
        ValueFact::Any => {
            return Ok(None);
        },
    };
    if v.datum_type() != DatumType::I32 || v.rank() != 0 || v.len() != 1 {
        return Err(TractError::EvalError);
    }
    let a = v.data()[0];
    if a < 0 || a as u64 >= usize::MAX as u64 {
        return Err(TractError::EvalError);
    }
    let axis = a as usize;
    let mut out: Vec<Rule> = Vec::new();
    push_axes(&mut out, n, 0, axis);
    out.push(Rule::Given(Cont::ConcatTail(n, axis)));
    out.push(Rule::SumDims { n, axis });
    proof {
        assert(out@ =~= axes_rules(n as nat, 0, axis as nat) + seq![
            Rule::Given(Cont::ConcatTail(n, axis)),
            Rule::SumDims { n, axis },
        ]);
    }
    Ok(Some(out))
}

/// States what a concatenation along `axis` has to state once the rank of
/// its first input is known: see `tail_expansion`.
pub fn expand_tail(n: usize, axis: usize, f: &Facts) -> (r: Result<Option<Vec<Rule>>, TractError>)
    ensures
        match tail_expansion(n, axis, f@) {
            None => r is Ok && r->Ok_0 is None,
            Some(Ok(rules)) => r is Ok && r->Ok_0 is Some && r->Ok_0->Some_0@ == rules,
            Some(Err(e)) => r is Err && r->Err_0 == e,
        },
{
    if f.inputs.len() == 0 {
        return Err(TractError::MalformedGraph);
    }
    if f.inputs[0].shape.open {
        return Ok(None);
    }
    let rank = f.inputs[0].shape.dims.len();
    let mut out: Vec<Rule> = Vec::new();
    if axis < rank {
        push_axes(&mut out, n, axis + 1, rank);
    } else {
        proof {
            assert(axes_rules(n as nat, (axis + 1) as nat, rank as nat) =~= Seq::<Rule>::empty());
        }
    }
    Ok(Some(out))
}

} // verus!

//! Global pooling: every axis but the first two is reduced to one element.
//! The kernels are the host's; the library knows the shapes.

use vstd::prelude::*;
use crate::dim::TDim;
use crate::errors::TractError;
use crate::facts::IntFact;
use crate::solver::{in0, out0, Cont, Facts, FactsValue, Rule, Slot};

verus! {

/// The average over each channel.
#[derive(Debug, Clone, Copy, Default, PartialEq, Eq, Structural)]
pub struct GlobalAvgPool {}

/// The `p`-norm over each channel, divided by the number of elements.
#[derive(Debug, Clone, Copy, Default, PartialEq, Eq, Structural)]
pub struct GlobalLpPool {
    pub p: usize,
}

/// The maximum over each channel.
#[derive(Debug, Clone, Copy, Default, PartialEq, Eq, Structural)]
pub struct GlobalMaxPool {}

/// The rules of a global pooling: the output has the type and the rank of
/// the input, and its first two axes; once the rank is known, every other
/// axis of the output has the size 1.
pub open spec fn pool_rules() -> Seq<Rule> {
    seq![
        Rule::SameType(out0(), in0()),
        Rule::SameRank(out0(), in0()),
        Rule::SameDim(out0(), 0, in0(), 0),
        Rule::SameDim(out0(), 1, in0(), 1),
        Rule::Given(Cont::PoolAxes),
    ]
}

/// What a global pooling states once the rank of its input is known to be
/// `rank`: the size 1 for each axis of the output from the third on.
pub open spec fn pool_axes(rank: nat) -> Seq<Rule> {
    Seq::new(
        if rank >= 2 {
            (rank - 2) as nat
        } else {
            0
        },
        |k: int| Rule::DimIs(out0(), (k + 2) as usize, TDim { slope: 0, offset: 1 }),
    )
}

/// What the conditional rule of a global pooling states: nothing before
/// the rank of the input is known, `pool_axes` then. It is an error where
/// the operator has no input.
pub open spec fn pool_expansion(f: FactsValue) -> Option<Result<Seq<Rule>, TractError>> {
    if f.inputs.len() == 0 {
        Some(Err(TractError::MalformedGraph))
    } else {
        match f.inputs[0].shape.rank() {
            IntFact::Only(_) => Some(Ok(pool_axes(f.inputs[0].shape.dims.len()))),
            IntFact::Any => None,
        }
    }
}

/// The rules of a global pooling with this many inputs and outputs. It
/// wants exactly one output, and an input.
pub fn rules(n_inputs: usize, n_outputs: usize) -> (r: Result<Vec<Rule>, TractError>)
    ensures
        n_outputs == 1 && n_inputs >= 1 ==> r is Ok && r->Ok_0@ == pool_rules(),
        !(n_outputs == 1 && n_inputs >= 1) ==> r is Err && r->Err_0 == TractError::MalformedGraph,
{
    if n_outputs != 1 || n_inputs < 1 {
        return Err(TractError::MalformedGraph);
    }
    let i = Slot { output: false, index: 0 };
    let o = Slot { output: true, index: 0 };
    let mut out: Vec<Rule> = Vec::new();
    out.push(Rule::SameType(o, i));
    out.push(Rule::SameRank(o, i));
    out.push(Rule::SameDim(o, 0, i, 0));
    out.push(Rule::SameDim(o, 1, i, 1));
    out.push(Rule::Given(Cont::PoolAxes));
    proof {
        assert(out@ =~= pool_rules());
    }
    Ok(out)
}

/// States what the conditional rule of a global pooling has to state, if
/// the rank of the input is known: see `pool_expansion`.
pub fn expand(f: &Facts) -> (r: Result<Option<Vec<Rule>>, TractError>)
    ensures
        match pool_expansion(f@) {
            None => r is Ok && r->Ok_0 is None,
            Some(Ok(rules)) => r is Ok && r->Ok_0 is Some && r->Ok_0->Some_0@ == rules,
            Some(Err(e)) => r is Err && r->Err_0 == e,
        },
{
    if f.inputs.len() == 0 {
        return Err(TractError::MalformedGraph);
    }
    if f.inputs[0].shape.open {
        return Ok(None);
    }
    let rank = f.inputs[0].shape.dims.len();
    let o = Slot { output: true, index: 0 };
    let mut out: Vec<Rule> = Vec::new();
    let mut axis: usize = 2;
    while axis < rank
        invariant
            2 <= axis,
            axis <= rank || rank < 2,
            o == out0(),
            out@.len() == if rank >= 2 {
                axis - 2
            } else {
                0
            },
            forall|k: int| 0 <= k < out@.len() ==> out@[k] == pool_axes(rank as nat)[k],
        decreases rank - axis,
    {
        out.push(Rule::DimIs(o, axis, TDim::constant(1)));
        axis += 1;
    }
    proof {
        assert(out@ =~= pool_axes(rank as nat));
    }
    Ok(Some(out))
}

} // verus!

//! The operators: one closed set of variants behind one interface.

pub mod global_pools;
pub mod local_patch;
pub mod math;
pub mod size;
pub mod slice;
pub mod trivial;

use std::sync::Arc;
use vstd::prelude::*;
use crate::errors::TractError;
use crate::ops::global_pools::{pool_rules, GlobalAvgPool, GlobalLpPool, GlobalMaxPool};
use crate::ops::local_patch::{AvgPool, Conv2D, MaxPool};
use crate::ops::size::{coerced, size_rules, Size};
use crate::ops::slice::{pruned, Slice};
use crate::ops::trivial::{identity_rules, values_of, Identity};
use crate::share::share;
use crate::facts::TensorFact;
use crate::solver::{solve, solved, Facts, FactsValue, Rule};
use crate::tensor::{Tensor, TensorValue};
use crate::tf::concatv2::{concat_result, concat_rules, ConcatV2};
use crate::tf::reshape::{reshape_rules, reshaped, Reshape};
use crate::tf::strided_slice::{slice_rules, sliced_d, BaseStridedSlice, StridedSliceD};

verus! {

/// An operator of the graph.
#[derive(Debug)]
pub enum Op {
    /// A graph source: the host seeds its value.
    Source,
    /// A constant tensor.
    Const(Arc<Tensor>),
    /// Hands its inputs on.
    Identity,
    /// The number of elements of its input.
    Size(Size),
    /// The elements of its first input under the shape that its second
    /// input asks for.
    Reshape(Reshape),
    /// The concatenation of its inputs but the last, along the axis that
    /// the last names.
    ConcatV2(ConcatV2),
    /// The strided slice of its first input, between the bounds and at the
    /// strides that its other three inputs give.
    StridedSlice(BaseStridedSlice),
    /// The same, for tensors of 32-bit integers or of dimensions only.
    StridedSliceD(BaseStridedSlice),
    /// The plain slice of its input.
    Slice(Slice),
    /// The slice of the exchange format.
    OnnxSlice(crate::onnx::slice::Slice),
    /// Global average pooling; a numeric kernel that the host evaluates.
    GlobalAvgPool(GlobalAvgPool),
    /// Global p-norm pooling; a numeric kernel that the host evaluates.
    GlobalLpPool(GlobalLpPool),
    /// Global maximum pooling; a numeric kernel that the host evaluates.
    GlobalMaxPool(GlobalMaxPool),
    /// Convolution in two dimensions; a numeric kernel that the host
    /// evaluates.
    Conv2D(Conv2D),
    /// The maximum over each window; a numeric kernel that the host
    /// evaluates.
    MaxPool(MaxPool),
    /// The average over each window; a numeric kernel that the host
    /// evaluates.
    AvgPool(AvgPool),
    /// Element-wise sum; a numeric kernel that the host evaluates.
    Add,
    /// An operator that the library does not know. It keeps the name and the
    /// raw definition that it was imported from, for diagnostics.
    Unimplemented { name: String, payload: String },
}

/// The numeric kernels, which the host of the library brings. The library
/// knows these operators by name and shape only, and asks the host for
/// their values.
pub trait Kernels {
    /// Evaluates the operator `op`, which is none that the library
    /// evaluates itself, on `inputs`.
    fn eval(&self, op: &Op, inputs: &Vec<Arc<Tensor>>) -> Result<Vec<Arc<Tensor>>, TractError>;
}

/// What an evaluation may give: tensors, or a failure.
pub enum Outcome {
    Tensors(Seq<TensorValue>),
    Failure(TractError),
}

/// `r` is the outcome `o`.
pub open spec fn is_outcome(r: Result<Vec<Arc<Tensor>>, TractError>, o: Outcome) -> bool {
    match o {
        Outcome::Tensors(t) => r is Ok && values_of(r->Ok_0@) == t,
        Outcome::Failure(e) => r == Err::<Vec<Arc<Tensor>>, TractError>(e),
    }
}

/// The outcome of an operator that gives one tensor, or fails to.
pub open spec fn one(t: Option<TensorValue>) -> Outcome {
    match t {
        Some(v) => Outcome::Tensors(seq![v]),
        None => Outcome::Failure(TractError::EvalError),
    }
}

impl Op {
    /// Whether the library evaluates the operator itself. The others are
    /// the host's: the numeric kernels, and the size of a tensor as a
    /// floating-point number.
    pub open spec fn native(&self) -> bool {
        !(self is Add || self is GlobalAvgPool || self is GlobalLpPool || self is GlobalMaxPool || self is Conv2D
            || self is MaxPool || self is AvgPool || (self matches Op::Size(s) && s.dt.is_float()))
    }

    /// What the operator gives for `inputs`, for an operator that the
    /// library evaluates itself.
    pub open spec fn output(&self, inputs: Seq<TensorValue>) -> Outcome {
        match self {
            Op::Source => Outcome::Failure(TractError::EvalError),
            Op::Const(t) => Outcome::Tensors(seq![t@]),
            Op::Identity => Outcome::Tensors(inputs),
            Op::Size(s) => if inputs.len() != 1 {
                Outcome::Failure(TractError::MalformedGraph)
            } else {
                match coerced(s.dt, inputs[0].items.len() as usize) {
                    Some(v) => Outcome::Tensors(
                        seq![TensorValue { dt: s.dt, dims: Seq::<usize>::empty(), items: seq![v] }],
                    ),
                    None => Outcome::Failure(TractError::EvalError),
                }
            },
            Op::Reshape(_) => if inputs.len() != 2 {
                Outcome::Failure(TractError::MalformedGraph)
            } else {
                one(reshaped(inputs[0], inputs[1]))
            },
            Op::ConcatV2(c) => match concat_result(c.n, inputs) {
                Ok(t) => Outcome::Tensors(seq![t]),
                Err(e) => Outcome::Failure(e),
            },
            Op::StridedSlice(base) => if inputs.len() != 4 {
                Outcome::Failure(TractError::MalformedGraph)
            } else {
                one(base.sliced(inputs[0], inputs[1], inputs[2], inputs[3]))
            },
            Op::StridedSliceD(base) => if inputs.len() != 4 {
                Outcome::Failure(TractError::MalformedGraph)
            } else {
                one(sliced_d(*base, inputs[0], inputs[1], inputs[2], inputs[3]))
            },
            Op::Slice(s) => if inputs.len() != 1 {
                Outcome::Failure(TractError::MalformedGraph)
            } else {
                one(pruned(s.prune@, inputs[0]))
            },
            Op::OnnxSlice(s) => if inputs.len() != 1 {
                Outcome::Failure(TractError::MalformedGraph)
            } else {
                one(s.sliced_upto(inputs[0], s.pairs()))
            },
            _ => Outcome::Failure(TractError::EvalError),
        }
    }

    /// The operator's name.
    pub open spec fn name_spec(&self) -> Seq<char> {
        match self {
            Op::Source => "Source"@,
            Op::Const(_) => "Const"@,
            Op::Identity => "Identity"@,
            Op::Size(_) => "Size"@,
            Op::Reshape(_) => "tf.Reshape"@,
            Op::ConcatV2(_) => "tf.ConvatV2"@,
            Op::StridedSlice(_) => "tf.StridedSlice"@,
            Op::StridedSliceD(_) => "tf.StridedSliceD"@,
            Op::Slice(_) => "Slice"@,
            Op::OnnxSlice(_) => "Slice"@,
            Op::GlobalAvgPool(_) => "GlobalAvgPool"@,
            Op::GlobalLpPool(_) => "GlobalLpPool"@,
            Op::GlobalMaxPool(_) => "GlobalMaxPool"@,
            Op::Conv2D(_) => "Conv2D"@,
            Op::MaxPool(_) => "MaxPool"@,
            Op::AvgPool(_) => "AvgPool"@,
            Op::Add => "Add"@,
            Op::Unimplemented { name, .. } => name@,
        }
    }

    /// The operator's name.
    pub fn name(&self) -> (r: String)
        ensures
            r@ == self.name_spec(),
    {
        match self {
            Op::Source => "Source".to_owned(),
            Op::Const(_) => "Const".to_owned(),
            Op::Identity => "Identity".to_owned(),
            Op::Size(_) => "Size".to_owned(),
            Op::Reshape(_) => "tf.Reshape".to_owned(),
            Op::ConcatV2(_) => "tf.ConvatV2".to_owned(),
            Op::StridedSlice(_) => "tf.StridedSlice".to_owned(),
            Op::StridedSliceD(_) => "tf.StridedSliceD".to_owned(),
            Op::Slice(_) => "Slice".to_owned(),
            Op::OnnxSlice(_) => "Slice".to_owned(),
            Op::GlobalAvgPool(_) => "GlobalAvgPool".to_owned(),
            Op::GlobalLpPool(_) => "GlobalLpPool".to_owned(),
            Op::GlobalMaxPool(_) => "GlobalMaxPool".to_owned(),
            Op::Conv2D(_) => "Conv2D".to_owned(),
            Op::MaxPool(_) => "MaxPool".to_owned(),
            Op::AvgPool(_) => "AvgPool".to_owned(),
            Op::Add => "Add".to_owned(),
            Op::Unimplemented { name, .. } => name.clone(),
        }
    }

    /// Evaluates the operator on `inputs`. An operator of the library gives
    /// its `output`. For a numeric kernel the host is asked, and what it
    /// answers is handed on.
    pub fn eval<K: Kernels>(&self, inputs: Vec<Arc<Tensor>>, host: &K) -> (r: Result<Vec<Arc<Tensor>>, TractError>)
        ensures
            self.native() ==> is_outcome(r, self.output(values_of(inputs@))),
    {
        match self {
            Op::Source => Err(TractError::EvalError),
            Op::Const(t) => {
                let mut out: Vec<Arc<Tensor>> = Vec::new();
                out.push(share(t));
                proof {
                    assert(values_of(out@) =~= seq![t@]);
                }
                Ok(out)
            },
            Op::Identity => Ok(inputs),
            Op::Size(s) => {
                if s.dt.floating() {
                    return host.eval(self, &inputs);
                }
                if inputs.len() != 1 {
                    return Err(TractError::MalformedGraph);
                }
                match s.eval_size(&inputs[0]) {
                    Ok(t) => {
                        let mut out: Vec<Arc<Tensor>> = Vec::new();
                        out.push(t);
                        proof {
                            assert(values_of(out@) =~= seq![t@]);
                        }
                        Ok(out)
                    },
                    Err(e) => Err(e),
                }
            },
            Op::Reshape(s) => {
                if inputs.len() != 2 {
                    return Err(TractError::MalformedGraph);
                }
                match s.eval_reshape(&inputs[0], &inputs[1]) {
                    Ok(t) => Ok(single(t)),
                    Err(e) => Err(e),
                }
            },
            Op::ConcatV2(s) => {
                match s.eval_concat(&inputs) {
                    Ok(t) => {
                        let out = single(t);
                        proof {
                            assert(values_of(out@).len() == out@.len());
                            assert(seq![t@].len() == 1);
                            assert(values_of(out@)[0] == out@[0]@);
                            assert(seq![t@][0] == t@);
                        }
                        Ok(out)
                    },
                    Err(e) => Err(e),
                }
            },
            Op::StridedSlice(base) => {
                if inputs.len() != 4 {
                    return Err(TractError::MalformedGraph);
                }
                match base.eval_slice(&inputs[0], &inputs[1], &inputs[2], &inputs[3]) {
                    Ok(t) => Ok(single(t)),
                    Err(e) => Err(e),
                }
            },
            Op::StridedSliceD(base) => {
                if inputs.len() != 4 {
                    return Err(TractError::MalformedGraph);
                }
                match StridedSliceD::new(*base).eval(&inputs[0], &inputs[1], &inputs[2], &inputs[3]) {
                    Ok(t) => Ok(single(t)),
                    Err(e) => Err(e),
                }
            },
            Op::Slice(s) => {
                if inputs.len() != 1 {
                    return Err(TractError::MalformedGraph);
                }
                match s.eval_slice(&inputs[0]) {
                    Ok(t) => Ok(single(t)),
                    Err(e) => Err(e),
                }
            },
            Op::OnnxSlice(s) => {
                if inputs.len() != 1 {
                    return Err(TractError::MalformedGraph);
                }
                match s.eval_slice(&inputs[0]) {
                    Ok(t) => Ok(single(t)),
                    Err(e) => Err(e),
                }
            },
            Op::Unimplemented { .. } => Err(TractError::EvalError),
            _ => host.eval(self, &inputs),
        }
    }

    /// The rules that the operator states over its inputs and outputs, by
    /// their numbers; a number that the operator does not take is a
    /// malformed graph. An operator of which no rule is known states none.
    pub open spec fn rules_spec(&self, n_inputs: usize, n_outputs: usize) -> Result<Seq<Rule>, TractError> {
        match self {
            Op::Identity => if n_inputs == n_outputs {
                Ok(identity_rules(n_inputs as nat))
            } else {
                Err(TractError::MalformedGraph)
            },
            Op::Size(_) => if n_inputs == 1 && n_outputs == 1 {
                Ok(size_rules())
            } else {
                Err(TractError::MalformedGraph)
            },
            Op::Reshape(s) => if n_inputs == 2 && n_outputs == 1 {
                Ok(reshape_rules(s.dt))
            } else {
                Err(TractError::MalformedGraph)
            },
            Op::ConcatV2(s) => if s.n >= 1 && n_inputs == s.n + 1 && n_outputs == 1 {
                Ok(concat_rules(s.n))
            } else {
                Err(TractError::MalformedGraph)
            },
            Op::StridedSlice(base) => if n_inputs == 4 && n_outputs == 1 {
                Ok(slice_rules(*base))
            } else {
                Err(TractError::MalformedGraph)
            },
            Op::StridedSliceD(base) => if n_inputs == 4 && n_outputs == 1 {
                Ok(slice_rules(*base))
            } else {
                Err(TractError::MalformedGraph)
            },
            Op::OnnxSlice(s) => if n_inputs == 1 && n_outputs == 1 {
                if s.measurable() {
                    Ok(s.slice_rules())
                } else {
                    Err(TractError::EvalError)
                }
            } else {
                Err(TractError::MalformedGraph)
            },
            Op::GlobalAvgPool(_) | Op::GlobalLpPool(_) | Op::GlobalMaxPool(_) => if n_outputs == 1 && n_inputs >= 1 {
                Ok(pool_rules())
            } else {
                Err(TractError::MalformedGraph)
            },
            _ => Ok(Seq::empty()),
        }
    }

    /// The rules that the operator states: see `rules_spec`.
    pub fn rules(&self, n_inputs: usize, n_outputs: usize) -> (r: Result<Vec<Rule>, TractError>)
        ensures
            match self.rules_spec(n_inputs, n_outputs) {
                Ok(rules) => r is Ok && r->Ok_0@ == rules,
                Err(e) => r is Err && r->Err_0 == e,
            },
    {
        match self {
            Op::Identity => Identity::new().rules(n_inputs, n_outputs),
            Op::Size(s) => s.rules(n_inputs, n_outputs),
            Op::Reshape(s) => s.rules(n_inputs, n_outputs),
            Op::ConcatV2(s) => s.rules(n_inputs, n_outputs),
            Op::StridedSlice(base) => base.rules(n_inputs, n_outputs),
            Op::StridedSliceD(base) => base.rules(n_inputs, n_outputs),
            Op::OnnxSlice(s) => s.rules(n_inputs, n_outputs),
            Op::GlobalAvgPool(_) | Op::GlobalLpPool(_) | Op::GlobalMaxPool(_) => crate::ops::global_pools::rules(
                n_inputs,
                n_outputs,
            ),
            _ => Ok(Vec::new()),
        }
    }
}

/// How many passes the solver makes over the rules of one operator before
/// it gives up on settling.
pub const SOLVER_PASSES: usize = 64;

impl Op {
    /// Infers what can be known of the inputs and outputs of the operator
    /// from what is known of them already: the rules of the operator are
    /// solved. It returns the facts, and whether the solving has settled.
    pub fn infer_facts(&self, inputs: Vec<TensorFact>, outputs: Vec<TensorFact>) -> (r: Result<
        (Facts, bool),
        TractError,
    >)
        ensures
            match self.rules_spec(inputs@.len() as usize, outputs@.len() as usize) {
                Err(e) => r is Err && r->Err_0 == e,
                Ok(rules) => match solved(rules, (Facts { inputs, outputs })@, SOLVER_PASSES as nat) {
                    Ok(s) => r is Ok && r->Ok_0.0@ == s.facts && r->Ok_0.1 == s.settled,
                    Err(e) => r is Err && r->Err_0 == e,
                },
            },
    {
        let rules = match self.rules(inputs.len(), outputs.len()) {
            Ok(r) => r,
            Err(e) => {
                return Err(e);
            },
        };
        let mut facts = Facts::new(inputs, outputs);
        match solve(rules, &mut facts, SOLVER_PASSES) {
            Ok(settled) => Ok((facts, settled)),
            Err(e) => Err(e),
        }
    }
}

/// The list of the one tensor `t`.
pub fn single(t: Tensor) -> (r: Vec<Arc<Tensor>>)
    ensures
        values_of(r@) == seq![t@],
{
    let mut out: Vec<Arc<Tensor>> = Vec::new();
    out.push(Arc::new(t));
    proof {
        assert(values_of(out@) =~= seq![t@]);
    }
    out
}

} // verus!

//! The operators that compute nothing: the identity, the placeholder that
//! the host fills, and the constant.

use std::sync::Arc;
use vstd::prelude::*;
use crate::errors::TractError;
use crate::matrix::{read, TensorProto};
use crate::share::share;
use crate::solver::{input, Rule, Slot};
use crate::tensor::{Tensor, TensorValue};

verus! {

/// The values of a list of shared tensors.
pub open spec fn values_of(tensors: Seq<Arc<Tensor>>) -> Seq<TensorValue> {
    Seq::new(tensors.len(), |i: int| tensors[i]@)
}

/// Hands its inputs on.
#[derive(Debug, Clone, Copy, PartialEq, Eq, Structural)]
pub struct Identity {}

/// The rules of the identity on `n` tensors: each output has the element
/// type, the shape and the value of the input at its place.
pub open spec fn identity_rules(n: nat) -> Seq<Rule>
    decreases n,
{
    if n == 0 {
        Seq::empty()
    } else {
        let i = input((n - 1) as usize);
        let o = Slot { output: true, index: (n - 1) as usize };
        identity_rules((n - 1) as nat).push(Rule::SameType(i, o)).push(Rule::SameShape(i, o)).push(
            Rule::SameValue(i, o),
        )
    }
}

impl Identity {
    pub fn new() -> (r: Identity) {
        Identity {  }
    }

    /// The identity, which has no attribute to read.
    pub fn build() -> (r: Result<Identity, TractError>)
        ensures
            r is Ok,
    {
        Ok(Identity {  })
    }

    /// The rules of the identity for this many inputs and outputs: see
    /// `identity_rules`. It wants as many outputs as inputs.
    pub fn rules(&self, n_inputs: usize, n_outputs: usize) -> (r: Result<Vec<Rule>, TractError>)
        ensures
            n_inputs == n_outputs ==> r is Ok && r->Ok_0@ == identity_rules(n_inputs as nat),
            n_inputs != n_outputs ==> r is Err && r->Err_0 == TractError::MalformedGraph,
    {
        if n_inputs != n_outputs {
            return Err(TractError::MalformedGraph);
        }
        let mut out: Vec<Rule> = Vec::new();
        let mut k: usize = 0;
        while k < n_inputs
            invariant
                k <= n_inputs,
                out@ == identity_rules(k as nat),
            decreases n_inputs - k,
        {
            let i = Slot::input(k);
            let o = Slot::output(k);
            out.push(Rule::SameType(i, o));
            out.push(Rule::SameShape(i, o));
            out.push(Rule::SameValue(i, o));
            k += 1;
        }
        Ok(out)
    }

    /// The inputs, as they are.
    pub fn eval(&self, inputs: Vec<Arc<Tensor>>) -> (r: Result<Vec<Arc<Tensor>>, TractError>)
        ensures
            r == Ok::<Vec<Arc<Tensor>>, TractError>(inputs),
    {
        Ok(inputs)
    }
}

/// Holds the tensor that the host has set, if any.
#[derive(Debug)]
pub struct Placeholder {
    value: Option<Arc<Tensor>>,
}

impl Placeholder {
    /// The tensor that was set last.
    pub closed spec fn held(&self) -> Option<Arc<Tensor>> {
        self.value
    }

    /// A placeholder that holds nothing yet.
    pub fn new() -> (r: Placeholder)
        ensures
            r.held() is None,
    {
        Placeholder { value: None }
    }

    /// A placeholder that holds nothing yet; it has no attribute to read.
    pub fn build() -> (r: Result<Placeholder, TractError>)
        ensures
            r is Ok,
            r->Ok_0.held() is None,
    {
        Ok(Placeholder { value: None })
    }

    /// Sets the tensor that the placeholder gives.
    pub fn set(&mut self, v: Arc<Tensor>)
        ensures
            final(self).held() == Some(v),
    {
        self.value = Some(v);
    }

    /// The tensor that was set; a failure where none was.
    pub fn eval(&self, _inputs: Vec<Arc<Tensor>>) -> (r: Result<Vec<Arc<Tensor>>, TractError>)
        ensures
            match self.held() {
                Some(v) => r is Ok && r->Ok_0@ == seq![v],
                None => r == Err::<Vec<Arc<Tensor>>, TractError>(TractError::EvalError),
            },
    {
        match &self.value {
            Some(v) => {
                let mut out: Vec<Arc<Tensor>> = Vec::new();
                out.push(share(v));
                proof {
                    assert(out@ =~= seq![*v]);
                }
                Ok(out)
            },
            None => Err(TractError::EvalError),
        }
    }
}

/// Gives one constant tensor.
#[derive(Debug)]
pub struct Const {
    value: Arc<Tensor>,
}

impl Const {
    /// The constant.
    pub closed spec fn held(&self) -> Arc<Tensor> {
        self.value
    }

    pub fn new(value: Arc<Tensor>) -> (r: Const)
        ensures
            r.held() == value,
    {
        Const { value }
    }

    /// The constant that a model file holds as the attribute `value` of a
    /// node: see `matrix::read`.
    pub fn build(value: &TensorProto) -> (r: Result<Const, TractError>)
        ensures
            match read(*value) {
                Some(v) => r is Ok && r->Ok_0.held()@ == v,
                None => r is Err && r->Err_0 == TractError::EvalError,
            },
    {
        match Tensor::from_pb(value) {
            Ok(t) => Ok(Const { value: Arc::new(t) }),
            Err(e) => Err(e),
        }
    }

    /// The constant; it is shared, not copied.
    pub fn value(&self) -> (r: Arc<Tensor>)
        ensures
            r == self.held(),
    {
        share(&self.value)
    }

    /// The constant, whatever the inputs.
    pub fn eval(&self, _inputs: Vec<Arc<Tensor>>) -> (r: Result<Vec<Arc<Tensor>>, TractError>)
        ensures
            r is Ok,
            r->Ok_0@ == seq![self.held()],
    {
        let mut out: Vec<Arc<Tensor>> = Vec::new();
        out.push(share(&self.value));
        proof {
            assert(out@ =~= seq![self.held()]);
        }
        Ok(out)
    }
}

} // verus!

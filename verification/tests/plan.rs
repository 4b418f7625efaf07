use std::cell::Cell;
use std::sync::Arc;

use tfdeploy::errors::TractError;
use tfdeploy::model::{InletId, Model, OutletId};
use tfdeploy::ops::slice::Slice;
use tfdeploy::ops::{Kernels, Op};
use tfdeploy::plan::SimpleState;
use tfdeploy::tensor::{DatumType, Tensor};
use tfdeploy::tf::concatv2::ConcatV2;

fn ints(data: &[i64]) -> Arc<Tensor> {
    Arc::new(Tensor::vector(DatumType::I64, data.to_vec()))
}

/// A host whose one kernel adds its two inputs element by element, and
/// counts how often it is asked.
struct Counting {
    calls: Cell<usize>,
}

impl Kernels for Counting {
    fn eval(&self, op: &Op, inputs: &Vec<Arc<Tensor>>) -> Result<Vec<Arc<Tensor>>, TractError> {
        self.calls.set(self.calls.get() + 1);
        match op {
            Op::Add => {
                let a = inputs[0].data();
                let b = inputs[1].data();
                let sum: Vec<i64> = a.iter().zip(b.iter()).map(|(x, y)| x + y).collect();
                Ok(vec![Arc::new(Tensor::new(inputs[0].datum_type(), inputs[0].shape().clone(), sum)?)])
            }
            _ => Err(TractError::EvalError),
        }
    }
}

fn adder() -> Model {
    let mut model = Model::new();
    model.add_source_default("a").unwrap();
    model.chain_default("add", Op::Add).unwrap();
    model.add_const("b", ints(&[10, 20])).unwrap();
    model.add_edge(OutletId::new(2, 0), InletId::new(1, 1)).unwrap();
    model
}

#[test]
fn compute_one_is_memoized() {
    let model = adder();
    let host = Counting { calls: Cell::new(0) };
    let mut state = SimpleState::new(&model);
    state.set_value(0, ints(&[1, 2])).unwrap();
    state.compute_one(&model, 2, &host).unwrap();
    state.compute_one(&model, 1, &host).unwrap();
    state.compute_one(&model, 1, &host).unwrap();
    assert_eq!(host.calls.get(), 1);
    assert_eq!(state.take(1).unwrap(), vec![ints(&[11, 22])]);
}

#[test]
fn run_follows_the_plan() {
    let model = adder();
    let host = Counting { calls: Cell::new(0) };
    let plan = model.eval_order().unwrap();
    assert_eq!(plan, vec![0, 2, 1]);
    let mut state = SimpleState::new(&model);
    state.set_values(vec![(0, ints(&[1, 2]))]).unwrap();
    state.run(&model, &plan, &host).unwrap();
    assert_eq!(state.take(1).unwrap(), vec![ints(&[11, 22])]);
    // a second run computes nothing again
    state.run(&model, &plan, &host).unwrap();
    assert_eq!(host.calls.get(), 1);
}

#[test]
fn a_node_is_not_ready_before_its_inputs() {
    let model = adder();
    let host = Counting { calls: Cell::new(0) };
    let mut state = SimpleState::new(&model);
    assert_eq!(state.compute_one(&model, 1, &host), Err(TractError::NotReady));
    assert_eq!(host.calls.get(), 0);
    assert!(!state.is_computed(1));
    assert_eq!(state.compute_one(&model, 7, &host), Err(TractError::MalformedGraph));
}

#[test]
fn take_before_compute_is_an_error() {
    let model = adder();
    let mut state = SimpleState::new(&model);
    assert_eq!(state.take(0), Err(TractError::NotComputed));
    assert_eq!(state.take(12), Err(TractError::NotComputed));
    state.set_value(0, ints(&[1])).unwrap();
    assert_eq!(state.take(0).unwrap(), vec![ints(&[1])]);
    // the tensors stay in the session
    assert_eq!(state.take(0).unwrap(), vec![ints(&[1])]);
}

#[test]
fn seeding_a_node_that_is_none_is_refused() {
    let model = adder();
    let mut state = SimpleState::new(&model);
    assert_eq!(state.set_value(3, ints(&[1])), Err(TractError::MalformedGraph));
    assert_eq!(state.set_values(vec![(0, ints(&[1])), (9, ints(&[2]))]), Err(TractError::MalformedGraph));
    assert!(state.is_computed(0));
    assert_eq!(state.set_outputs(1, vec![ints(&[5]), ints(&[6])]), Ok(()));
    assert_eq!(state.take(1).unwrap().len(), 2);
}

#[test]
fn an_unseeded_source_fails_to_evaluate() {
    let model = adder();
    let host = Counting { calls: Cell::new(0) };
    let mut state = SimpleState::new(&model);
    assert_eq!(state.compute_one(&model, 0, &host), Err(TractError::EvalError));
    assert!(!state.is_computed(0));
}

#[test]
fn a_failure_keeps_what_was_computed() {
    let mut model = Model::new();
    model.add_source_default("a").unwrap();
    // cuts for two axes, of a tensor that has one
    model.chain_default("cut", Op::Slice(Slice::new(vec![(1, 0), (0, 1)]))).unwrap();
    model.chain_default("same", Op::Identity).unwrap();
    let host = Counting { calls: Cell::new(0) };
    let mut state = SimpleState::new(&model);
    state.set_value(0, ints(&[1, 2, 3])).unwrap();
    assert_eq!(state.run(&model, &vec![0, 1, 2], &host), Err(TractError::EvalError));
    assert!(state.is_computed(0));
    assert!(!state.is_computed(1));
    assert!(!state.is_computed(2));
    // a plan of nodes that are computed succeeds, and asks for nothing
    assert_eq!(state.run(&model, &vec![0, 0], &host), Ok(()));
    // a node that reads one that is not computed is not ready
    assert_eq!(state.run(&model, &vec![0, 2], &host), Err(TractError::NotReady));
    assert_eq!(state.run(&model, &vec![0, 7], &host), Err(TractError::MalformedGraph));
    assert_eq!(host.calls.get(), 0);
}

#[test]
fn a_kernel_that_is_computed_is_not_asked_for_again() {
    let model = adder();
    let host = Counting { calls: Cell::new(0) };
    let mut state = SimpleState::new(&model);
    state.set_value(0, ints(&[1, 2])).unwrap();
    assert_eq!(state.run(&model, &vec![0, 2, 1], &host), Ok(()));
    assert_eq!(host.calls.get(), 1);
    assert_eq!(state.run(&model, &vec![0, 2, 1], &host), Ok(()));
    assert_eq!(state.run(&model, &vec![1, 1, 0], &host), Ok(()));
    assert_eq!(host.calls.get(), 1);
    assert_eq!(state.take(1).unwrap(), vec![ints(&[11, 22])]);
}

#[test]
fn library_operators_need_no_host() {
    let mut model = Model::new();
    model.add_source_default("a").unwrap();
    model.chain_default("cut", Op::Slice(Slice::new(vec![(1, 1)]))).unwrap();
    model.chain_default("same", Op::Identity).unwrap();
    let host = Counting { calls: Cell::new(0) };
    let mut state = SimpleState::new(&model);
    state.set_value(0, ints(&[1, 2, 3, 4])).unwrap();
    state.run(&model, &model.eval_order().unwrap(), &host).unwrap();
    assert_eq!(state.take(2).unwrap(), vec![ints(&[2, 3])]);
    assert_eq!(host.calls.get(), 0);
}

#[test]
fn the_concatenation_needs_no_host() {
    let mut model = Model::new();
    model.add_source_default("a").unwrap();
    model.chain_default("both", Op::ConcatV2(ConcatV2::new(2, DatumType::I64, DatumType::I32))).unwrap();
    model.add_const("b", ints(&[7])).unwrap();
    model.add_const("axis", Arc::new(Tensor::scalar(DatumType::I32, 0))).unwrap();
    model.add_edge(OutletId::new(2, 0), InletId::new(1, 1)).unwrap();
    model.add_edge(OutletId::new(3, 0), InletId::new(1, 2)).unwrap();
    let host = Counting { calls: Cell::new(0) };
    let mut state = SimpleState::new(&model);
    state.set_value(0, ints(&[1, 2])).unwrap();
    state.compute_one(&model, 2, &host).unwrap();
    state.compute_one(&model, 3, &host).unwrap();
    state.compute_one(&model, 1, &host).unwrap();
    assert_eq!(state.take(1).unwrap(), vec![ints(&[1, 2, 7])]);
    assert_eq!(host.calls.get(), 0);
}

use std::cell::Cell;
use std::sync::Arc;

use tfdeploy::errors::TractError;
use tfdeploy::model::{InletId, Model, OutletId};
use tfdeploy::ops::size::Size;
use tfdeploy::ops::{Kernels, Op};
use tfdeploy::tensor::{DatumType, Tensor};

fn f32_scalar(v: f32) -> Tensor {
    Tensor::scalar(DatumType::F32, v.to_bits() as i64)
}

#[test]
fn test_simple() {
    let mut model = Model::default();
    model.add_source_default("a").unwrap();
    model.chain_default("add", Op::Add).unwrap();
    model.add_const("b", Arc::new(f32_scalar(12.0f32))).unwrap();
    model.add_edge(OutletId::new(2, 0), InletId::new(1, 1)).unwrap();
    assert_eq!(model.eval_order().unwrap(), vec!(0, 2, 1));
}

#[test]
fn test_diamond() {
    let mut model = Model::default();
    model.add_source_default("a").unwrap();
    model.chain_default("add", Op::Add).unwrap();
    model.add_edge(OutletId::new(0, 0), InletId::new(1, 1)).unwrap();
    assert_eq!(model.eval_order().unwrap(), vec!(0, 1));
}

struct Counting {
    calls: Cell<usize>,
}

impl Kernels for Counting {
    fn eval(&self, _op: &Op, inputs: &Vec<Arc<Tensor>>) -> Result<Vec<Arc<Tensor>>, TractError> {
        self.calls.set(self.calls.get() + 1);
        Ok(inputs.clone())
    }
}

#[test]
fn the_host_is_asked_for_its_kernels_only() {
    let k = Counting { calls: Cell::new(0) };
    let t = Arc::new(f32_scalar(1.0));
    // an operator of the library is evaluated without the host
    assert_eq!(Op::Identity.eval(vec![t.clone()], &k), Ok(vec![t.clone()]));
    assert_eq!(Op::Source.eval(vec![], &k), Err(TractError::EvalError));
    assert_eq!(k.calls.get(), 0);
    // a numeric kernel is the host's, and its answer is handed on
    let out = Op::Add.eval(vec![t.clone(), t.clone()], &k).unwrap();
    assert_eq!(out, vec![t.clone(), t.clone()]);
    assert_eq!(k.calls.get(), 1);
    // the size of a tensor is the library's as an integer, and the host's as a floating-point number
    let size = Op::Size(Size::new(DatumType::I32)).eval(vec![t.clone()], &k).unwrap();
    assert_eq!(size, vec![Arc::new(Tensor::scalar(DatumType::I32, 1))]);
    assert_eq!(k.calls.get(), 1);
    assert_eq!(Op::Size(Size::new(DatumType::F32)).eval(vec![t.clone()], &k), Ok(vec![t.clone()]));
    assert_eq!(k.calls.get(), 2);
    assert_eq!(Op::Size(Size::new(DatumType::Bool)).eval(vec![t.clone()], &k), Err(TractError::EvalError));
    assert_eq!(k.calls.get(), 2);
}

use std::cell::Cell;
use std::sync::Arc;

use tfdeploy::declutter::{analyse_and_declutter, declutter, propose};
use tfdeploy::dim::TDim;
use tfdeploy::errors::TractError;
use tfdeploy::facts::{DimFact, ShapeFact, TensorFact};
use tfdeploy::model::{InletId, Model, OutletId};
use tfdeploy::ops::size::Size;
use tfdeploy::ops::slice::Slice;
use tfdeploy::ops::{Kernels, Op};
use tfdeploy::order::is_acyclic;
use tfdeploy::patch::{ModelPatch, PatchNode};
use tfdeploy::plan::SimpleState;
use tfdeploy::tensor::{DatumType, Tensor};
use tfdeploy::tf::strided_slice::{BaseStridedSlice, StridedSlice};

struct NoKernels {
    calls: Cell<usize>,
}

impl Kernels for NoKernels {
    fn eval(&self, _op: &Op, _inputs: &Vec<Arc<Tensor>>) -> Result<Vec<Arc<Tensor>>, TractError> {
        self.calls.set(self.calls.get() + 1);
        Err(TractError::EvalError)
    }
}

fn ints(data: &[i32]) -> Arc<Tensor> {
    Arc::new(Tensor::vector(DatumType::I32, data.iter().map(|v| *v as i64).collect()))
}

fn image() -> Tensor {
    Tensor::new(DatumType::I32, vec![3, 2, 3], (0..18).collect()).unwrap()
}

fn shape(dims: &[i64]) -> ShapeFact {
    ShapeFact::closed(dims.iter().map(|d| DimFact::Only(TDim::constant(*d))).collect())
}

/// source -> strided slice (with three constants) -> identity
fn sliced_model(base: BaseStridedSlice, begin: &[i32], end: &[i32], strides: &[i32]) -> Model {
    let mut model = Model::new();
    model.add_source("input", TensorFact::dt_shape(DatumType::I32, shape(&[3, 2, 3]))).unwrap();
    model.chain_default("slice", Op::StridedSlice(base)).unwrap();
    model.add_const("begin", ints(begin)).unwrap();
    model.add_const("end", ints(end)).unwrap();
    model.add_const("strides", ints(strides)).unwrap();
    model.add_edge(OutletId::new(2, 0), InletId::new(1, 1)).unwrap();
    model.add_edge(OutletId::new(3, 0), InletId::new(1, 2)).unwrap();
    model.add_edge(OutletId::new(4, 0), InletId::new(1, 3)).unwrap();
    model.chain_after(OutletId::new(1, 0), "after", Op::Identity, vec![TensorFact::any()]).unwrap();
    model
}

fn run(model: &Model, target: usize) -> Vec<Arc<Tensor>> {
    let host = NoKernels { calls: Cell::new(0) };
    let mut state = SimpleState::new(model);
    state.set_value(0, Arc::new(image())).unwrap();
    state.run(model, &model.eval_order().unwrap(), &host).unwrap();
    state.take(target).unwrap()
}

#[test]
fn decluttered_slice_gives_the_same_tensor() {
    let mut model = sliced_model(BaseStridedSlice::new(0, 4, 0), &[1, 0, -2], &[3, 1, 0], &[1, 1, 1]);
    let before = run(&model, 5);
    assert_eq!(model.eval_order().unwrap(), vec![0, 2, 3, 4, 1, 5]);

    let replaced = declutter(&mut model).unwrap();
    assert_eq!(replaced, vec![1]);
    // the new node has a new id; the old nodes keep theirs
    assert_eq!(model.nodes().len(), 7);
    assert_eq!(model.nodes()[1].name, "slice");
    assert_eq!(model.nodes()[6].name, "slice");
    match &model.nodes()[6].op {
        Op::Slice(s) => assert_eq!(s.prune, vec![(1, 0), (0, 1), (1, 0)]),
        other => panic!("not a plain slice: {:?}", other),
    }
    // the consumer reads the new node, and the plan leaves the old one out
    assert_eq!(model.nodes()[5].inputs, vec![OutletId::new(6, 0)]);
    assert_eq!(model.eval_order().unwrap(), vec![0, 6, 5]);
    assert!(is_acyclic(model.nodes()));

    let after = run(&model, 5);
    assert_eq!(before, after);
    assert_eq!(*after[0], Tensor::new(DatumType::I32, vec![2, 1, 2], vec![7, 8, 13, 14]).unwrap());
    // the operators agree on the same input, one to one
    let direct = StridedSlice::new(BaseStridedSlice::new(0, 4, 0), DatumType::I32)
        .eval(&image(), &ints(&[1, 0, -2]), &ints(&[3, 1, 0]), &ints(&[1, 1, 1]))
        .unwrap();
    assert_eq!(direct, Slice::new(vec![(1, 0), (0, 1), (1, 0)]).eval_slice(&image()).unwrap());

    // a second pass finds nothing more
    assert_eq!(declutter(&mut model).unwrap(), Vec::<usize>::new());
    assert_eq!(model.nodes().len(), 7);
}

#[test]
fn strides_other_than_one_are_left_alone() {
    let mut model = sliced_model(BaseStridedSlice::default(), &[0, 0, 0], &[3, 2, 3], &[1, 1, 2]);
    assert!(propose(&model, 1).unwrap().is_none());
    assert_eq!(declutter(&mut model).unwrap(), Vec::<usize>::new());
    assert_eq!(model.nodes().len(), 6);
}

#[test]
fn unknown_bounds_are_left_alone() {
    let mut model = Model::new();
    model.add_source("input", TensorFact::dt_shape(DatumType::I32, shape(&[3]))).unwrap();
    model.chain_default("slice", Op::StridedSlice(BaseStridedSlice::default())).unwrap();
    for (slot, name) in ["begin", "end", "strides"].iter().enumerate() {
        let id = model.add_source_default(name).unwrap();
        model.add_edge(OutletId::new(id, 0), InletId::new(1, slot + 1)).unwrap();
    }
    assert!(propose(&model, 1).unwrap().is_none());
    assert_eq!(declutter(&mut model).unwrap(), Vec::<usize>::new());
}

#[test]
fn cuts_that_no_plain_slice_makes_are_left_alone() {
    // end before begin
    let mut model = sliced_model(BaseStridedSlice::default(), &[2, 0, 0], &[1, 2, 3], &[1, 1, 1]);
    assert!(propose(&model, 1).unwrap().is_none());
    assert_eq!(declutter(&mut model).unwrap(), Vec::<usize>::new());
}

#[test]
fn a_slice_that_drops_an_axis_is_left_alone() {
    let base = BaseStridedSlice::new(0, 0, 1);
    let op = StridedSlice::new(base, DatumType::I32);
    let strided = op.eval(&image(), &ints(&[1, 0, 0]), &ints(&[2, 2, 3]), &ints(&[1, 1, 1])).unwrap();
    assert_eq!(strided.shape(), &vec![2, 3]);
    // a plain slice keeps every axis, so there is none that does the same
    let dims = vec![TDim::constant(3), TDim::constant(2), TDim::constant(3)];
    assert!(op.declutter(&dims, &ints(&[1, 0, 0]), &ints(&[2, 2, 3]), &ints(&[1, 1, 1])).unwrap().is_none());
    let line = vec![TDim::constant(3)];
    assert!(op.declutter(&line, &ints(&[0]), &ints(&[0]), &ints(&[1])).unwrap().is_none());
    // a bit for an axis that the input does not have drops nothing
    let beyond = StridedSlice::new(BaseStridedSlice::new(0, 0, 2), DatumType::I32);
    let plain = beyond.declutter(&line, &ints(&[1]), &ints(&[3]), &ints(&[1])).unwrap().unwrap();
    assert_eq!(plain.prune, vec![(1, 0)]);

    let mut model = sliced_model(base, &[1, 0, 0], &[2, 2, 3], &[1, 1, 1]);
    assert!(propose(&model, 1).unwrap().is_none());
    assert_eq!(declutter(&mut model).unwrap(), Vec::<usize>::new());
    assert_eq!(model.nodes().len(), 6);
}

#[test]
fn a_patch_that_closes_a_cycle_is_rejected() {
    let mut model = Model::new();
    model.add_source_default("a").unwrap();
    model.chain_default("b", Op::Identity).unwrap();
    model.chain_default("c", Op::Identity).unwrap();
    // the new node reads node 2, which reads the node to replace
    let patch = ModelPatch {
        base: 3,
        replaced: 1,
        nodes: vec![PatchNode {
            name: "loop".to_string(),
            op: Op::Identity,
            inputs: vec![OutletId::new(2, 0)],
            outputs: vec![TensorFact::any()],
        }],
        shunts: vec![OutletId::new(3, 0)],
    };
    assert!(!patch.validate(&model));
    assert_eq!(patch.apply(&mut model), Err(TractError::RewriteRejected));
    assert_eq!(model.nodes().len(), 3);
    assert_eq!(model.nodes()[2].inputs, vec![OutletId::new(1, 0)]);
}

#[test]
fn a_patch_must_stand_for_every_outlet() {
    let mut model = Model::new();
    model.add_source_default("a").unwrap();
    model.chain_default("b", Op::Identity).unwrap();
    let staged = || PatchNode {
        name: "new".to_string(),
        op: Op::Identity,
        inputs: vec![OutletId::new(0, 0)],
        outputs: vec![TensorFact::any()],
    };
    // no outlet for the one output of the node
    let none = ModelPatch { base: 2, replaced: 1, nodes: vec![staged()], shunts: vec![] };
    assert!(!none.validate(&model));
    // built for another graph
    let stale = ModelPatch { base: 1, replaced: 0, nodes: vec![staged()], shunts: vec![OutletId::new(1, 0)] };
    assert!(!stale.validate(&model));
    // an outlet that does not exist
    let dangling = ModelPatch { base: 2, replaced: 1, nodes: vec![staged()], shunts: vec![OutletId::new(2, 1)] };
    assert!(!dangling.validate(&model));
    // what is known of the new outlet contradicts what is known of the old
    model.set_outlet_fact(OutletId::new(1, 0), TensorFact::any().with_datum_type(DatumType::F32)).unwrap();
    let mut typed = staged();
    typed.outputs = vec![TensorFact::any().with_datum_type(DatumType::I32)];
    let clash = ModelPatch { base: 2, replaced: 1, nodes: vec![typed], shunts: vec![OutletId::new(2, 0)] };
    assert!(!clash.validate(&model));
    let good = ModelPatch { base: 2, replaced: 1, nodes: vec![staged()], shunts: vec![OutletId::new(2, 0)] };
    assert!(good.validate(&model));
    assert_eq!(good.apply(&mut model), Ok(()));
    assert_eq!(model.output_outlets().unwrap(), &vec![OutletId::new(2, 0)]);
    assert_eq!(model.nodes()[2].id, 2);
}

#[test]
fn single_unary_op_wants_a_unary_node() {
    let mut model = Model::new();
    model.add_source_default("a").unwrap();
    assert_eq!(
        ModelPatch::single_unary_op(&model, 0, Op::Identity).err(),
        Some(TractError::RewriteRejected)
    );
    assert_eq!(
        ModelPatch::single_unary_op(&model, 4, Op::Identity).err(),
        Some(TractError::RewriteRejected)
    );
    model.chain_default("b", Op::Identity).unwrap();
    let patch = ModelPatch::single_unary_op(&model, 1, Op::Identity).unwrap();
    assert_eq!(patch.replaced, 1);
    assert_eq!(patch.shunts, vec![OutletId::new(2, 0)]);
}

#[test]
fn bounds_that_cannot_be_read_fail_the_pass() {
    // `end` speaks of fewer axes than `begin`
    let mut model = sliced_model(BaseStridedSlice::default(), &[0, 0, 0], &[3, 2], &[1, 1, 1]);
    assert_eq!(propose(&model, 1).err(), Some(TractError::EvalError));
    assert_eq!(declutter(&mut model), Err(TractError::EvalError));
    assert_eq!(model.nodes().len(), 6);
    assert_eq!(model.nodes()[5].inputs, vec![OutletId::new(1, 0)]);
}

#[test]
fn a_node_out_of_use_is_not_looked_at() {
    let mut model = Model::new();
    model.add_source("input", TensorFact::dt_shape(DatumType::I32, shape(&[3, 2, 3]))).unwrap();
    model.chain_default("slice", Op::StridedSlice(BaseStridedSlice::default())).unwrap();
    for (slot, bound) in [ints(&[0, 0, 0]), ints(&[3, 2]), ints(&[1, 1, 1])].into_iter().enumerate() {
        let id = model.add_const("bound", bound).unwrap();
        model.add_edge(OutletId::new(id, 0), InletId::new(1, slot + 1)).unwrap();
    }
    // nothing reads the slice, and it is no output of the graph
    model.set_output_outlets(vec![OutletId::new(0, 0)]).unwrap();
    assert!(!model.is_live(1));
    assert_eq!(propose(&model, 1).err(), Some(TractError::EvalError));
    assert_eq!(declutter(&mut model), Ok(vec![]));
    // as an output of the graph it is looked at
    model.set_output_outlets(vec![OutletId::new(1, 0)]).unwrap();
    assert!(model.is_live(1));
    assert_eq!(declutter(&mut model), Err(TractError::EvalError));
}

#[test]
fn a_single_round_that_replaces_ends_unsettled() {
    let mut model = sliced_model(BaseStridedSlice::new(0, 4, 0), &[1, 0, -2], &[3, 1, 0], &[1, 1, 1]);
    assert_eq!(analyse_and_declutter(&mut model, 1, 10, 10), Ok(false));
    assert_eq!(model.nodes().len(), 7);
    // the next round replaces nothing, and the inference settles
    assert_eq!(analyse_and_declutter(&mut model, 1, 10, 10), Ok(true));
    assert_eq!(model.nodes().len(), 7);
}

#[test]
fn a_round_hands_on_what_fails() {
    // the inference fails
    let mut model = Model::new();
    model.add_source("a", TensorFact::dt_shape(DatumType::F32, shape(&[2, 3]))).unwrap();
    model
        .chain("size", Op::Size(Size::new(DatumType::I64)), vec![TensorFact::any().with_shape(shape(&[1]))])
        .unwrap();
    assert_eq!(analyse_and_declutter(&mut model, 3, 10, 10), Err(TractError::InferenceContradiction));
    assert_eq!(model.nodes().len(), 2);
    // without a round nothing is tried
    assert_eq!(analyse_and_declutter(&mut model, 0, 10, 10), Ok(false));
    // the pass fails, on what the inference left: with no pass of its own, the graph as it was
    let mut model = sliced_model(BaseStridedSlice::default(), &[0, 0, 0], &[3, 2], &[1, 1, 1]);
    assert_eq!(analyse_and_declutter(&mut model, 3, 0, 10), Err(TractError::EvalError));
    assert_eq!(model.nodes().len(), 6);
    // the inference looks at the same bounds first, and fails on them
    assert_eq!(analyse_and_declutter(&mut model, 3, 10, 10), Err(TractError::InferenceContradiction));
}

use std::sync::Arc;

use tfdeploy::dim::TDim;
use tfdeploy::errors::TractError;
use tfdeploy::facts::{DimFact, IntFact, ShapeFact, TensorFact, TypeFact, ValueFact};
use tfdeploy::ops::global_pools::GlobalAvgPool;
use tfdeploy::ops::size::Size;
use tfdeploy::ops::Op;
use tfdeploy::solver::{apply_rule, solve, Cont, Facts, Rule, Slot};
use tfdeploy::tensor::{DatumType, Tensor};
use tfdeploy::tf::concatv2::ConcatV2;
use tfdeploy::tf::reshape::Reshape;

fn ints(data: &[i32]) -> Arc<Tensor> {
    Arc::new(Tensor::vector(DatumType::I32, data.iter().map(|v| *v as i64).collect()))
}

fn scalar(v: i32) -> Arc<Tensor> {
    Arc::new(Tensor::scalar(DatumType::I32, v as i64))
}

fn known(v: i64) -> DimFact {
    DimFact::Only(TDim::constant(v))
}

fn shape(dims: &[i64]) -> ShapeFact {
    ShapeFact::closed(dims.iter().map(|d| known(*d)).collect())
}

#[test]
fn reshape_resolves_the_free_axis() {
    // target dims [-1, 3], 12 elements: the free axis is 12 / 3
    assert_eq!(Reshape::true_dims(&vec![-1, 3], 12), Ok(vec![4, 3]));
    let op = Op::Reshape(Reshape::new(DatumType::F32));
    let input = TensorFact::dt_shape(DatumType::F32, shape(&[12]));
    let dims = TensorFact::from_tensor(ints(&[-1, 3])).unwrap();
    let (facts, settled) = op.infer_facts(vec![input, dims], vec![TensorFact::any()]).unwrap();
    assert!(settled);
    assert_eq!(facts.outputs, vec![TensorFact::dt_shape(DatumType::F32, shape(&[4, 3]))]);
}

#[test]
fn reshape_true_dims_cases() {
    assert_eq!(Reshape::true_dims(&vec![2, 3], 6), Ok(vec![2, 3]));
    assert_eq!(Reshape::true_dims(&vec![2, -1, 2], 12), Ok(vec![2, 3, 2]));
    assert_eq!(Reshape::true_dims(&vec![], 1), Ok(vec![]));
    assert_eq!(Reshape::true_dims(&vec![-2, 3], 6), Err(TractError::EvalError));
    assert_eq!(Reshape::true_dims(&vec![-1, 0], 6), Err(TractError::EvalError));
}

#[test]
fn reshape_eval_keeps_the_elements() {
    let op = Reshape::new(DatumType::I32);
    let input = Tensor::new(DatumType::I32, vec![2, 6], (0..12).collect()).unwrap();
    let out = op.eval_reshape(&input, &ints(&[-1, 3])).unwrap();
    assert_eq!(out, Tensor::new(DatumType::I32, vec![4, 3], (0..12).collect()).unwrap());
    assert_eq!(op.eval_reshape(&input, &ints(&[5, -1])), Err(TractError::EvalError));
}

#[test]
fn reshape_waits_for_a_streaming_shape() {
    let op = Op::Reshape(Reshape::new(DatumType::F32));
    let input = TensorFact::dt_shape(
        DatumType::F32,
        ShapeFact::closed(vec![DimFact::Only(TDim::stream()), known(3)]),
    );
    let dims = TensorFact::from_tensor(ints(&[-1, 3])).unwrap();
    let (facts, settled) = op.infer_facts(vec![input, dims], vec![TensorFact::any()]).unwrap();
    assert!(settled);
    assert_eq!(facts.outputs[0].shape, ShapeFact::any());
    assert_eq!(facts.outputs[0].datum_type, TypeFact::Only(DatumType::F32));
}

#[test]
fn two_ranks_for_one_output_contradict() {
    let out = Slot::output(0);
    let mut facts = Facts::new(vec![], vec![TensorFact::any()]);
    let r = solve(vec![Rule::RankIs(out, 2), Rule::RankIs(out, 3)], &mut facts, 10);
    assert_eq!(r, Err(TractError::InferenceContradiction));
    // the other way round as well
    let mut facts = Facts::new(vec![], vec![TensorFact::any()]);
    let r = solve(vec![Rule::RankIs(out, 3), Rule::RankIs(out, 2)], &mut facts, 10);
    assert_eq!(r, Err(TractError::InferenceContradiction));
}

#[test]
fn unify_contradicts_on_different_exact_values() {
    assert_eq!(
        TypeFact::Only(DatumType::F32).unify(&TypeFact::Only(DatumType::I32)),
        Err(TractError::InferenceContradiction)
    );
    assert_eq!(TypeFact::Any.unify(&TypeFact::Only(DatumType::I32)), Ok(TypeFact::Only(DatumType::I32)));
    assert_eq!(known(2).unify(&known(3)), Err(TractError::InferenceContradiction));
    assert_eq!(known(2).unify(&DimFact::Any), Ok(known(2)));
    assert_eq!(IntFact::Only(2).unify(&IntFact::Only(3)), Err(TractError::InferenceContradiction));
    assert_eq!(shape(&[1, 2]).unify(&shape(&[1, 2, 3])), Err(TractError::InferenceContradiction));
    assert_eq!(
        ShapeFact::open(vec![known(1)]).unify(&shape(&[1, 2, 3])),
        Ok(shape(&[1, 2, 3]))
    );
    assert_eq!(
        ShapeFact::open(vec![DimFact::Any, known(2)]).unify(&ShapeFact::open(vec![known(1)])),
        Ok(ShapeFact::open(vec![known(1), known(2)]))
    );
    let a = ValueFact::Only(scalar(1));
    let b = ValueFact::Only(scalar(2));
    assert_eq!(a.unify(&b), Err(TractError::InferenceContradiction));
    assert_eq!(a.unify(&ValueFact::Any), Ok(ValueFact::Only(scalar(1))));
    let f = TensorFact::dt_shape(DatumType::F32, ShapeFact::any());
    let g = TensorFact::any().with_shape(shape(&[2]));
    assert_eq!(f.unify(&g), Ok(TensorFact::dt_shape(DatumType::F32, shape(&[2]))));
}

#[test]
fn shape_fact_rank_and_dims() {
    assert_eq!(shape(&[1, 2]).rank(), IntFact::Only(2));
    assert_eq!(ShapeFact::any().rank(), IntFact::Any);
    assert_eq!(ShapeFact::any().with_rank(2), Ok(ShapeFact::closed(vec![DimFact::Any, DimFact::Any])));
    assert_eq!(shape(&[1]).with_rank(2), Err(TractError::InferenceContradiction));
    assert_eq!(
        ShapeFact::any().with_dim(2, TDim::constant(5)),
        Ok(ShapeFact::open(vec![DimFact::Any, DimFact::Any, known(5)]))
    );
    assert_eq!(shape(&[1]).with_dim(0, TDim::constant(2)), Err(TractError::InferenceContradiction));
    assert_eq!(shape(&[1]).with_dim(1, TDim::constant(2)), Err(TractError::InferenceContradiction));
    assert_eq!(shape(&[4, 5]).dim(1), known(5));
    assert_eq!(shape(&[4, 5]).dim(2), DimFact::Any);
    assert_eq!(shape(&[4, 5]).concrete(), Some(vec![TDim::constant(4), TDim::constant(5)]));
    assert_eq!(ShapeFact::closed(vec![DimFact::Any]).concrete(), None);
    assert_eq!(ShapeFact::from_sizes(&vec![2, 3]), Some(shape(&[2, 3])));
}

#[test]
fn equalities_work_both_ways() {
    let a = Slot::input(0);
    let b = Slot::output(0);
    // the output is known, the input is found
    let mut facts = Facts::new(
        vec![TensorFact::any()],
        vec![TensorFact::dt_shape(DatumType::U8, shape(&[7, 8]))],
    );
    let settled =
        solve(vec![Rule::SameType(a, b), Rule::SameRank(a, b), Rule::SameDim(a, 1, b, 1)], &mut facts, 10).unwrap();
    assert!(settled);
    assert_eq!(
        facts.inputs[0],
        TensorFact::dt_shape(DatumType::U8, ShapeFact::closed(vec![DimFact::Any, known(8)]))
    );
}

#[test]
fn affine_rule_solves_either_side() {
    let i = Slot::input(0);
    let o = Slot::output(0);
    let rule = Rule::Affine { target: o, axis: 0, coef: -1, source: i, source_axis: 0, offset: TDim::constant(10) };
    let mut facts = Facts::new(vec![TensorFact::any().with_shape(shape(&[3]))], vec![TensorFact::any()]);
    assert!(apply_rule(rule, &mut facts).unwrap().changed);
    assert_eq!(facts.outputs[0].shape, ShapeFact::open(vec![known(7)]));
    let mut facts = Facts::new(vec![TensorFact::any()], vec![TensorFact::any().with_shape(shape(&[7]))]);
    assert!(apply_rule(rule, &mut facts).unwrap().changed);
    assert_eq!(facts.inputs[0].shape, ShapeFact::open(vec![known(3)]));
    // nothing known: nothing found
    let mut facts = Facts::new(vec![TensorFact::any()], vec![TensorFact::any()]);
    assert!(!apply_rule(rule, &mut facts).unwrap().changed);
    // a tensor that the operator has not
    let mut facts = Facts::new(vec![], vec![TensorFact::any()]);
    assert_eq!(apply_rule(rule, &mut facts).err(), Some(TractError::MalformedGraph));
}

#[test]
fn size_rules_want_a_scalar() {
    let op = Op::Size(Size::new(DatumType::I32));
    let (facts, _) = op.infer_facts(vec![TensorFact::any()], vec![TensorFact::any()]).unwrap();
    assert_eq!(facts.outputs[0].shape, ShapeFact::closed(vec![]));
    assert_eq!(op.infer_facts(vec![], vec![TensorFact::any()]).err(), Some(TractError::MalformedGraph));
    let contradiction = op.infer_facts(vec![TensorFact::any()], vec![TensorFact::any().with_shape(shape(&[2]))]);
    assert_eq!(contradiction.err(), Some(TractError::InferenceContradiction));
}

#[test]
fn global_pool_rules() {
    let op = Op::GlobalAvgPool(GlobalAvgPool::default());
    let input = TensorFact::dt_shape(DatumType::F32, shape(&[2, 3, 5, 7]));
    let (facts, settled) = op.infer_facts(vec![input], vec![TensorFact::any()]).unwrap();
    assert!(settled);
    assert_eq!(facts.outputs, vec![TensorFact::dt_shape(DatumType::F32, shape(&[2, 3, 1, 1]))]);
    assert_eq!(
        op.infer_facts(vec![TensorFact::any()], vec![]).err(),
        Some(TractError::MalformedGraph)
    );
}

#[test]
fn concat_rules() {
    let op = Op::ConcatV2(ConcatV2::new(2, DatumType::F32, DatumType::I32));
    let a = TensorFact::dt_shape(DatumType::F32, shape(&[2, 3, 4]));
    let b = TensorFact::any().with_shape(ShapeFact::open(vec![DimFact::Any, known(5)]));
    let axis = TensorFact::from_tensor(scalar(1)).unwrap();
    let (facts, settled) = op.infer_facts(vec![a, b, axis], vec![TensorFact::any()]).unwrap();
    assert!(settled);
    assert_eq!(facts.inputs[1], TensorFact::dt_shape(DatumType::F32, shape(&[2, 5, 4])));
    assert_eq!(facts.outputs, vec![TensorFact::dt_shape(DatumType::F32, shape(&[2, 8, 4]))]);
    // wrong number of inputs
    assert_eq!(
        op.infer_facts(vec![TensorFact::any()], vec![TensorFact::any()]).err(),
        Some(TractError::MalformedGraph)
    );
}

#[test]
fn a_rule_that_waits_is_left_pending() {
    let mut facts = Facts::new(vec![TensorFact::any()], vec![TensorFact::any()]);
    let settled = solve(vec![Rule::Given(Cont::PoolAxes)], &mut facts, 10).unwrap();
    assert!(settled);
    assert_eq!(facts.outputs, vec![TensorFact::any()]);
}

#[test]
fn solving_without_passes_does_not_settle() {
    let mut facts = Facts::new(vec![], vec![TensorFact::any()]);
    assert_eq!(solve(vec![Rule::RankIs(Slot::output(0), 2)], &mut facts, 0), Ok(false));
    assert_eq!(facts.outputs, vec![TensorFact::any()]);
}

#[test]
fn concatenation_finds_the_size_that_is_missing() {
    let op = Op::ConcatV2(ConcatV2::new(3, DatumType::F32, DatumType::I32));
    let a = TensorFact::dt_shape(DatumType::F32, shape(&[2, 3]));
    let b = TensorFact::any();
    let c = TensorFact::any().with_shape(shape(&[2, 4]));
    let axis = TensorFact::from_tensor(scalar(1)).unwrap();
    let out = TensorFact::any().with_shape(ShapeFact::open(vec![DimFact::Any, known(12)]));
    let (facts, settled) = op.infer_facts(vec![a, b, c, axis], vec![out]).unwrap();
    assert!(settled);
    assert_eq!(facts.inputs[1], TensorFact::dt_shape(DatumType::F32, shape(&[2, 5])));
    assert_eq!(facts.outputs, vec![TensorFact::dt_shape(DatumType::F32, shape(&[2, 12]))]);
    // two sizes missing: nothing is found of them
    let mut facts = Facts::new(
        vec![TensorFact::any(), TensorFact::any()],
        vec![TensorFact::any().with_shape(shape(&[9]))],
    );
    assert!(!apply_rule(Rule::SumDims { n: 2, axis: 0 }, &mut facts).unwrap().changed);
    // sizes that do not add up
    let mut facts = Facts::new(
        vec![TensorFact::any().with_shape(shape(&[4])), TensorFact::any().with_shape(shape(&[4]))],
        vec![TensorFact::any().with_shape(shape(&[9]))],
    );
    assert_eq!(
        apply_rule(Rule::SumDims { n: 2, axis: 0 }, &mut facts).err(),
        Some(TractError::InferenceContradiction)
    );
    assert_eq!(facts.sum_dims(2, 0), (Some(TDim::constant(8)), 0, 0));
}

#[test]
fn identity_hands_on_what_is_known() {
    let known_input = TensorFact::from_tensor(ints(&[1, 2, 3])).unwrap();
    let (facts, settled) = Op::Identity.infer_facts(vec![known_input.duplicate()], vec![TensorFact::any()]).unwrap();
    assert!(settled);
    assert_eq!(facts.outputs, vec![known_input.duplicate()]);
    // and back
    let (facts, _) = Op::Identity.infer_facts(vec![TensorFact::any()], vec![known_input.duplicate()]).unwrap();
    assert_eq!(facts.inputs, vec![known_input]);
    assert_eq!(
        Op::Identity.infer_facts(vec![TensorFact::any()], vec![]).err(),
        Some(TractError::MalformedGraph)
    );
    let clash = Op::Identity.infer_facts(
        vec![TensorFact::from_tensor(ints(&[1])).unwrap()],
        vec![TensorFact::from_tensor(ints(&[2])).unwrap()],
    );
    assert_eq!(clash.err(), Some(TractError::InferenceContradiction));
    let mut facts = Facts::new(
        vec![TensorFact::any().with_shape(ShapeFact::open(vec![known(2)]))],
        vec![TensorFact::any().with_shape(shape(&[2, 3]))],
    );
    assert!(apply_rule(Rule::SameShape(Slot::input(0), Slot::output(0)), &mut facts).unwrap().changed);
    assert_eq!(facts.inputs[0].shape, shape(&[2, 3]));
    assert!(!apply_rule(Rule::SameShape(Slot::input(0), Slot::output(0)), &mut facts).unwrap().changed);
    assert!(!apply_rule(Rule::SameValue(Slot::input(0), Slot::output(0)), &mut facts).unwrap().changed);
    assert_eq!(facts.set_value(Slot::output(0), &ints(&[1, 2, 3, 4, 5, 6])), Ok(true));
    assert!(apply_rule(Rule::SameValue(Slot::input(0), Slot::output(0)), &mut facts).unwrap().changed);
    assert_eq!(facts.inputs[0].value, ValueFact::Only(ints(&[1, 2, 3, 4, 5, 6])));
}

#[test]
fn a_solving_that_fails_leaves_the_facts_as_given() {
    let (a, b) = (Slot::input(0), Slot::output(0));
    let given = TensorFact::any().with_datum_type(DatumType::I32);
    let mut facts = Facts::new(vec![given.duplicate()], vec![TensorFact::any()]);
    // the first two rules find the type and the rank of the output, the third contradicts
    let rules = vec![Rule::SameType(a, b), Rule::RankIs(b, 2), Rule::RankIs(b, 3)];
    assert_eq!(solve(rules, &mut facts, 10), Err(TractError::InferenceContradiction));
    assert_eq!(facts.inputs, vec![given.duplicate()]);
    assert_eq!(facts.outputs, vec![TensorFact::any()]);
    // without the third they are found
    let mut facts = Facts::new(vec![given.duplicate()], vec![TensorFact::any()]);
    assert_eq!(solve(vec![Rule::SameType(a, b), Rule::RankIs(b, 2)], &mut facts, 10), Ok(true));
    assert_eq!(facts.outputs[0].datum_type, TypeFact::Only(DatumType::I32));
    assert_eq!(facts.outputs[0].shape.rank(), IntFact::Only(2));
}

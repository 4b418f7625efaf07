use std::sync::Arc;

use tfdeploy::analyser::{analyse, infer_node, is_complete};
use tfdeploy::dim::TDim;
use tfdeploy::errors::TractError;
use tfdeploy::facts::{DimFact, ShapeFact, TensorFact};
use tfdeploy::model::{InletId, Model, Node, OutletId};
use tfdeploy::ops::global_pools::GlobalMaxPool;
use tfdeploy::ops::size::Size;
use tfdeploy::ops::Op;
use tfdeploy::order::{dependencies, eval_order, eval_order_for_nodes, graph_is_acyclic, is_acyclic};
use tfdeploy::tensor::{DatumType, Tensor};
use tfdeploy::tf::reshape::Reshape;

fn node(id: usize, inputs: &[usize]) -> Node<u8> {
    Node {
        id,
        name: format!("n{}", id),
        op: 0u8,
        inputs: inputs.iter().map(|n| OutletId::new(*n, 0)).collect(),
        outputs: vec![TensorFact::any()],
    }
}

#[test]
fn plan_puts_dependencies_first() {
    //      0   1
    //      |\ /|
    //      | 2 |
    //      |/ \|
    //      3   4
    //       \ /
    //        5
    let nodes = vec![node(0, &[]), node(1, &[]), node(2, &[0, 1]), node(3, &[0, 2]), node(4, &[2, 1]), node(5, &[3, 4])];
    assert!(is_acyclic(&nodes));
    let order = eval_order_for_nodes(&nodes, &[], &[5]).unwrap();
    assert_eq!(order, vec![0, 1, 2, 3, 4, 5]);
    for (place, id) in order.iter().enumerate() {
        for dep in nodes[*id].inputs.iter() {
            assert!(order[..place].contains(&dep.node));
        }
    }
    // the same arguments give the same order
    assert_eq!(eval_order_for_nodes(&nodes, &[], &[5]).unwrap(), order);
}

#[test]
fn plan_serves_targets_last_to_first_and_leaves_the_rest_out() {
    let nodes = vec![node(0, &[]), node(1, &[0]), node(2, &[]), node(3, &[2]), node(4, &[])];
    assert_eq!(eval_order_for_nodes(&nodes, &[], &[1, 3]).unwrap(), vec![2, 3, 0, 1]);
    assert_eq!(eval_order_for_nodes(&nodes, &[], &[3, 3]).unwrap(), vec![2, 3]);
    assert_eq!(eval_order_for_nodes(&nodes, &[], &[]).unwrap(), Vec::<usize>::new());
}

#[test]
fn plan_does_not_look_behind_inputs() {
    let nodes = vec![node(0, &[]), node(1, &[0]), node(2, &[1]), node(3, &[2])];
    assert_eq!(eval_order_for_nodes(&nodes, &[2], &[3]).unwrap(), vec![2, 3]);
    // an input that is its own target comes before what it reads
    assert_eq!(eval_order_for_nodes(&nodes, &[1], &[0, 1]).unwrap(), vec![1, 0]);
}

#[test]
fn cycles_are_found() {
    let ring = vec![node(0, &[2]), node(1, &[0]), node(2, &[1])];
    assert!(!is_acyclic(&ring));
    let own = vec![node(0, &[0])];
    assert!(!is_acyclic(&own));
    let dangling = vec![node(0, &[3])];
    assert!(!is_acyclic(&dangling));
    let backwards = vec![node(0, &[1]), node(1, &[2]), node(2, &[])];
    assert!(is_acyclic(&backwards));
    assert!(is_acyclic::<u8>(&[]));
    assert_eq!(dependencies(&backwards), vec![vec![1], vec![2], vec![]]);
    assert!(graph_is_acyclic(&vec![vec![1, 1], vec![]]));
    assert!(!graph_is_acyclic(&vec![vec![1], vec![0]]));
}

#[test]
fn building_a_graph() {
    let mut model = Model::new();
    assert_eq!(model.chain_default("first", Op::Identity), Err(TractError::MalformedGraph));
    assert_eq!(model.add_source_default("a"), Ok(0));
    assert_eq!(model.add_node("pair".to_string(), Op::Identity, vec![TensorFact::any(), TensorFact::any()]), Ok(1));
    assert_eq!(model.input_outlets().unwrap(), &vec![OutletId::new(0, 0)]);
    assert_eq!(
        model.output_outlets().unwrap(),
        &vec![OutletId::new(0, 0), OutletId::new(1, 0), OutletId::new(1, 1)]
    );
    // an edge taps an outlet, which is then no designated output
    assert_eq!(model.add_edge(OutletId::new(0, 0), InletId::new(1, 0)), Ok(()));
    assert_eq!(model.output_outlets().unwrap(), &vec![OutletId::new(1, 0), OutletId::new(1, 1)]);
    // slots are filled in order
    assert_eq!(model.add_edge(OutletId::new(0, 0), InletId::new(1, 2)), Err(TractError::MalformedGraph));
    assert_eq!(model.add_edge(OutletId::new(0, 1), InletId::new(1, 1)), Err(TractError::MalformedGraph));
    assert_eq!(model.add_edge(OutletId::new(5, 0), InletId::new(1, 1)), Err(TractError::MalformedGraph));
    assert_eq!(model.add_edge(OutletId::new(0, 0), InletId::new(5, 0)), Err(TractError::MalformedGraph));
    assert_eq!(model.nodes()[1].inputs, vec![OutletId::new(0, 0)]);
    // a connected slot is rewired
    assert_eq!(model.add_const("c", Arc::new(Tensor::scalar(DatumType::I32, 4))), Ok(2));
    assert_eq!(model.add_edge(OutletId::new(2, 0), InletId::new(1, 0)), Ok(()));
    assert_eq!(model.nodes()[1].inputs, vec![OutletId::new(2, 0)]);
    assert_eq!(model.consumers(OutletId::new(2, 0)), vec![InletId::new(1, 0)]);
    assert_eq!(model.consumers(OutletId::new(0, 0)), vec![]);
    assert!(model.is_live(2) && model.is_live(1) && !model.is_live(0));

    assert_eq!(model.node(1).unwrap().name, "pair");
    assert_eq!(model.node(3).err(), Some(TractError::MalformedGraph));
    assert_eq!(model.node_id_by_name(&"c".to_string()), Ok(2));
    assert_eq!(model.node_id_by_name(&"z".to_string()), Err(TractError::MalformedGraph));
    assert_eq!(model.chain_after(OutletId::new(9, 0), "x", Op::Identity, vec![]), Err(TractError::MalformedGraph));
    assert_eq!(model.nodes().len(), 3);
    assert_eq!(model.chain("tail", Op::Identity, vec![TensorFact::any()]), Ok(3));
    assert_eq!(model.nodes()[3].inputs, vec![OutletId::new(2, 0)]);
}

#[test]
fn designating_inputs_and_outputs() {
    let mut model = Model::new();
    model.add_source_default("a").unwrap();
    model.chain_default("b", Op::Identity).unwrap();
    assert_eq!(model.set_output_outlets(vec![OutletId::new(0, 0)]), Ok(()));
    assert_eq!(eval_order(&model).unwrap(), vec![0]);
    assert_eq!(model.set_output_outlets(vec![OutletId::new(2, 0)]), Err(TractError::MalformedGraph));
    assert_eq!(model.output_outlets().unwrap(), &vec![OutletId::new(0, 0)]);
    assert_eq!(model.set_input_outlets(vec![OutletId::new(1, 0)]), Ok(()));
    assert_eq!(model.set_input_outlets(vec![OutletId::new(1, 1)]), Err(TractError::MalformedGraph));
    assert_eq!(model.input_outlets().unwrap(), &vec![OutletId::new(1, 0)]);
    assert_eq!(model.set_output_outlets(vec![OutletId::new(1, 0)]), Ok(()));
    // node 1 is an input now: what it reads is not looked at
    assert_eq!(model.eval_order().unwrap(), vec![1]);
}

#[test]
fn appending_and_shunting() {
    let mut model = Model::new();
    model.add_source_default("a").unwrap();
    model.chain_default("b", Op::Identity).unwrap();
    model.chain_default("c", Op::Identity).unwrap();
    assert_eq!(
        model.append("new".to_string(), Op::Identity, vec![OutletId::new(0, 0)], vec![TensorFact::any()]),
        Ok(3)
    );
    assert_eq!(
        model.append("bad".to_string(), Op::Identity, vec![OutletId::new(7, 0)], vec![]),
        Err(TractError::MalformedGraph)
    );
    assert_eq!(model.output_outlets().unwrap(), &vec![OutletId::new(2, 0)]);
    model.shunt(1, &vec![OutletId::new(3, 0)]);
    assert_eq!(model.nodes()[2].inputs, vec![OutletId::new(3, 0)]);
    assert_eq!(model.nodes()[1].inputs, vec![OutletId::new(0, 0)]);
    assert_eq!(model.eval_order().unwrap(), vec![0, 3, 2]);
}

fn shape(dims: &[i64]) -> ShapeFact {
    ShapeFact::closed(dims.iter().map(|d| DimFact::Only(TDim::constant(*d))).collect())
}

#[test]
fn inference_crosses_the_graph() {
    let mut model = Model::new();
    model.add_source("image", TensorFact::dt_shape(DatumType::F32, shape(&[2, 3, 8, 8]))).unwrap();
    model.chain_default("pool", Op::GlobalMaxPool(GlobalMaxPool::default())).unwrap();
    model.chain_default("flat", Op::Reshape(Reshape::new(DatumType::F32))).unwrap();
    let dims = Arc::new(Tensor::vector(DatumType::I32, vec![-1, 3]));
    model.add_const("dims", dims).unwrap();
    model.add_edge(OutletId::new(3, 0), InletId::new(2, 1)).unwrap();
    model.chain_after(OutletId::new(2, 0), "size", Op::Size(Size::new(DatumType::I64)), vec![TensorFact::any()]).unwrap();
    assert!(!is_complete(&model));
    assert_eq!(analyse(&mut model, 10, 10), Ok(true));
    // the type of the scalar that counts the elements stays unknown
    assert!(!is_complete(&model));
    let counted = model.outlet_fact(OutletId::new(4, 0)).unwrap().duplicate().with_datum_type(DatumType::I64);
    model.set_outlet_fact(OutletId::new(4, 0), counted).unwrap();
    assert!(is_complete(&model));
    assert_eq!(model.outlet_fact(OutletId::new(1, 0)).unwrap(), &TensorFact::dt_shape(DatumType::F32, shape(&[2, 3, 1, 1])));
    assert_eq!(model.outlet_fact(OutletId::new(2, 0)).unwrap(), &TensorFact::dt_shape(DatumType::F32, shape(&[2, 3])));
    assert_eq!(model.outlet_fact(OutletId::new(4, 0)).unwrap().shape, shape(&[]));
    // once more, and nothing is new
    assert_eq!(infer_node(&mut model, 2, 10), Ok(false));
    assert_eq!(analyse(&mut model, 0, 10), Ok(false));
}

#[test]
fn inference_finds_contradictions() {
    let mut model = Model::new();
    model.add_source("a", TensorFact::dt_shape(DatumType::F32, shape(&[2, 3]))).unwrap();
    model
        .chain("size", Op::Size(Size::new(DatumType::I64)), vec![TensorFact::any().with_shape(shape(&[1]))])
        .unwrap();
    assert_eq!(analyse(&mut model, 10, 10), Err(TractError::InferenceContradiction));
    assert_eq!(model.outlet_fact(OutletId::new(3, 0)).err(), Some(TractError::MalformedGraph));
    assert_eq!(model.set_outlet_fact(OutletId::new(0, 3), TensorFact::any()), Err(TractError::MalformedGraph));
}

#[test]
fn an_inference_that_fails_leaves_what_was_known() {
    let mut model = Model::new();
    let known = TensorFact::dt_shape(DatumType::F32, shape(&[2, 3]));
    model.add_source("a", known.duplicate()).unwrap();
    model.chain_default("same", Op::Identity).unwrap();
    model
        .chain("size", Op::Size(Size::new(DatumType::I64)), vec![TensorFact::any().with_shape(shape(&[1]))])
        .unwrap();
    // the identity hands on what is known of its input
    assert_eq!(infer_node(&mut model, 1, 10), Ok(true));
    assert_eq!(model.outlet_fact(OutletId::new(1, 0)).unwrap(), &known);
    model.set_outlet_fact(OutletId::new(1, 0), TensorFact::any()).unwrap();
    // a pass over the graph finds it again, and then fails on the size: nothing of it is left
    assert_eq!(analyse(&mut model, 10, 10), Err(TractError::InferenceContradiction));
    assert_eq!(model.outlet_fact(OutletId::new(0, 0)).unwrap(), &known);
    assert_eq!(model.outlet_fact(OutletId::new(1, 0)).unwrap(), &TensorFact::any());
    assert_eq!(model.outlet_fact(OutletId::new(2, 0)).unwrap(), &TensorFact::any().with_shape(shape(&[1])));
    assert_eq!(infer_node(&mut model, 2, 10), Err(TractError::InferenceContradiction));
    assert_eq!(model.outlet_fact(OutletId::new(2, 0)).unwrap(), &TensorFact::any().with_shape(shape(&[1])));
    assert_eq!(model.nodes().len(), 3);
}

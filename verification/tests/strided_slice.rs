#![allow(non_snake_case)]
use std::sync::Arc;

use tfdeploy::dim::TDim;
use tfdeploy::errors::TractError;
use tfdeploy::facts::{DimFact, ShapeFact, TensorFact};
use tfdeploy::ops::Op;
use tfdeploy::tensor::{DatumType, Tensor};
use tfdeploy::tf::strided_slice::{BaseStridedSlice, Dim, StridedSlice, StridedSliceD};

fn tensor(shape: &[usize], data: &[i32]) -> Tensor {
    Tensor::new(DatumType::I32, shape.to_vec(), data.iter().map(|v| *v as i64).collect()).unwrap()
}

fn tensor0(v: i32) -> Tensor {
    tensor(&[], &[v])
}

fn tensor1(data: &[i32]) -> Tensor {
    tensor(&[data.len()], data)
}

fn arr3() -> Tensor {
    tensor(&[3, 2, 3], &[1, 1, 1, 2, 2, 2, 3, 3, 3, 4, 4, 4, 5, 5, 5, 6, 6, 6])
}

fn default_op() -> StridedSlice {
    StridedSlice::new(BaseStridedSlice::default(), DatumType::I32)
}

fn eval(op: StridedSlice, input: Tensor, begin: Tensor, end: Tensor, strides: Tensor) -> Tensor {
    op.eval(&input, &begin, &end, &strides).unwrap()
}

// https://www.tensorflow.org/api_docs/python/tf/strided_slice
#[test]
fn eval_1() {
    assert_eq!(
        eval(default_op(), arr3(), tensor1(&[1, 0, 0]), tensor1(&[2, 1, 3]), tensor1(&[1, 1, 1])),
        tensor(&[1, 1, 3], &[3, 3, 3]),
    );
}

#[test]
fn eval_2() {
    assert_eq!(
        eval(default_op(), arr3(), tensor1(&[1, 0, 0]), tensor1(&[2, 2, 3]), tensor1(&[1, 1, 1])),
        tensor(&[1, 2, 3], &[3, 3, 3, 4, 4, 4]),
    );
}

#[test]
fn eval_3() {
    assert_eq!(
        eval(default_op(), arr3(), tensor1(&[1, -1, 0]), tensor1(&[2, -3, 3]), tensor1(&[1, -1, 1])),
        tensor(&[1, 2, 3], &[4, 4, 4, 3, 3, 3]),
    );
}

#[test]
fn eval_4() {
    assert_eq!(
        eval(default_op(), arr3(), tensor1(&[1, 0, 0]), tensor1(&[2, 2, 4]), tensor1(&[1, 1, 2])),
        tensor(&[1, 2, 2], &[3, 3, 4, 4]),
    );
}

#[test]
fn eval_5() {
    assert_eq!(
        eval(default_op(), tensor1(&[0, 0]), tensor1(&[0]), tensor1(&[-1]), tensor1(&[1])),
        tensor1(&[0])
    )
}

#[test]
fn eval_6() {
    assert_eq!(
        eval(
            default_op(),
            tensor(&[3, 4], &[1, 0, 0, 0, 3, 0, 0, 0, 0, 0, 0, 0]),
            tensor1(&[-3, -4]),
            tensor1(&[-1, -1]),
            tensor1(&[1, 2])
        ),
        tensor(&[2, 2], &[1, 0, 3, 0])
    )
}

#[test]
fn eval_7() {
    assert_eq!(
        eval(default_op(), tensor(&[2, 2], &[0, 6, 0, 0]), tensor1(&[0]), tensor1(&[2]), tensor1(&[1])),
        tensor(&[2, 2], &[0, 6, 0, 0])
    )
}

#[test]
fn eval_begin_mask_1() {
    let mut op = default_op();
    op.base.begin_mask = 1;
    assert_eq!(eval(op, tensor1(&[0, 1]), tensor1(&[1]), tensor1(&[1]), tensor1(&[1])), tensor1(&[0]))
}

#[test]
fn eval_shrink_1() {
    let mut op = default_op();
    op.base.shrink_axis_mask = 1;
    assert_eq!(
        eval(op, tensor(&[1, 1], &[0]), tensor1(&[0, 0]), tensor1(&[0, 0]), tensor1(&[1, 1])),
        tensor1(&[])
    )
}

#[test]
fn eval_shrink_to_scalar() {
    let mut op = default_op();
    op.base.shrink_axis_mask = 1;
    assert_eq!(eval(op, tensor1(&[0]), tensor1(&[0]), tensor1(&[0]), tensor1(&[1])), tensor0(0))
}

fn const_fact(data: &[i32]) -> TensorFact {
    TensorFact::from_tensor(Arc::new(tensor1(data))).unwrap()
}

fn infer(base: BaseStridedSlice, input: &TensorFact, begin: &TensorFact, end: &TensorFact, strides: &TensorFact)
    -> (Vec<TensorFact>, Vec<TensorFact>)
{
    let op = Op::StridedSlice(base);
    let (facts, settled) = op
        .infer_facts(
            vec![input.duplicate(), begin.duplicate(), end.duplicate(), strides.duplicate()],
            vec![TensorFact::any()],
        )
        .unwrap();
    assert!(settled);
    (facts.inputs, facts.outputs)
}

#[test]
fn inference_1() {
    let input = TensorFact::any().with_datum_type(DatumType::F32);
    let begin = const_fact(&[0, 2, 0]);
    let end = const_fact(&[0, 0, 0]);
    let strides = const_fact(&[1, 1, 1]);

    let (input_facts, output_facts) = infer(BaseStridedSlice::new(5, 7, 0), &input, &begin, &end, &strides);
    assert_eq!(
        input_facts,
        vec![
            TensorFact::any().with_datum_type(DatumType::F32).with_shape(ShapeFact::any()),
            begin,
            end,
            strides,
        ]
    );
    assert_eq!(
        output_facts,
        vec![TensorFact::any().with_datum_type(DatumType::F32).with_shape(ShapeFact::any())]
    );
}

#[test]
fn inference_2() {
    let input = TensorFact::any().with_datum_type(DatumType::F32);
    let begin = const_fact(&[0, 0]);
    let end = const_fact(&[0, 1]);
    let strides = const_fact(&[1, 1]);

    let (input_facts, output_facts) = infer(BaseStridedSlice::new(1, 1, 2), &input, &begin, &end, &strides);
    assert_eq!(
        input_facts,
        vec![
            TensorFact::any().with_datum_type(DatumType::F32).with_shape(ShapeFact::any()),
            begin,
            end,
            strides,
        ]
    );
    assert_eq!(
        output_facts,
        vec![TensorFact::any().with_datum_type(DatumType::F32).with_shape(ShapeFact::any())]
    );
}

fn stream_minus(k: i64) -> DimFact {
    DimFact::Only(TDim::stream().checked_sub(&TDim::constant(k)).unwrap())
}

fn known(v: i64) -> DimFact {
    DimFact::Only(TDim::constant(v))
}

#[test]
fn inference_3() {
    let input = TensorFact::dt_shape(DatumType::F32, ShapeFact::closed(vec![known(1), stream_minus(2), known(16)]));
    let begin = const_fact(&[0, 2, 0]);
    let end = const_fact(&[0, 0, 0]);
    let strides = const_fact(&[1, 1, 1]);

    let (_, output_facts) = infer(BaseStridedSlice::new(5, 7, 0), &input, &begin, &end, &strides);

    assert_eq!(
        output_facts,
        vec![TensorFact::dt_shape(DatumType::F32, ShapeFact::closed(vec![known(1), stream_minus(4), known(16)]))]
    );
}

#[test]
fn inference_4() {
    let input = TensorFact::dt_shape(DatumType::F32, ShapeFact::closed(vec![known(1), stream_minus(2), known(16)]));
    let begin = const_fact(&[0, 2, 0]);
    let end = const_fact(&[0, 0, 0]);
    let strides = const_fact(&[1, 1, 1]);

    let (_, output_facts) = infer(BaseStridedSlice::new(5, 7, 0), &input, &begin, &end, &strides);

    assert_eq!(
        output_facts,
        vec![TensorFact::dt_shape(DatumType::F32, ShapeFact::closed(vec![known(1), stream_minus(4), known(16)]))]
    );
}

#[test]
fn a_bound_outside_the_axis_stands_for_its_nearest_edge() {
    let line = || tensor1(&[0, 1, 2]);
    let cut = |b: i32, e: i32, s: i32| default_op().eval(&line(), &tensor1(&[b]), &tensor1(&[e]), &tensor1(&[s]));
    // an end beyond the axis, a begin before it
    assert_eq!(cut(1, 5, 1), Ok(tensor1(&[1, 2])));
    assert_eq!(cut(-10, 2, 1), Ok(tensor1(&[0, 1])));
    assert_eq!(cut(-10, 10, 2), Ok(tensor1(&[0, 2])));
    // both beyond the axis: nothing is left
    assert_eq!(cut(5, 9, 1), Ok(tensor1(&[])));
    // down the axis the edges are the last index and the one before the first
    assert_eq!(cut(7, -9, -1), Ok(tensor1(&[2, 1, 0])));
    assert_eq!(cut(1, -9, -1), Ok(tensor1(&[1, 0])));
    // bounds within the axis are read as they are
    assert_eq!(cut(0, 3, 1), Ok(line()));
    assert_eq!(cut(2, 0, -1), Ok(tensor1(&[2, 1])));
    // bounds that run against the stride are taken as they are: what they name must lie in the axis
    assert_eq!(cut(1, 0, 1), Ok(tensor1(&[1])));
    assert_eq!(cut(2, 0, 1), Err(TractError::EvalError));
    // the one index of an axis that is dropped must lie in the axis
    let mut op = default_op();
    op.base.shrink_axis_mask = 1;
    assert_eq!(op.eval(&line(), &tensor1(&[1]), &tensor1(&[0]), &tensor1(&[1])), Ok(tensor0(1)));
    assert_eq!(op.eval(&line(), &tensor1(&[3]), &tensor1(&[0]), &tensor1(&[1])), Err(TractError::EvalError));
}

#[test]
fn strided_slice_refuses_a_stride_of_zero() {
    let r = default_op().eval(&tensor1(&[0, 1, 2]), &tensor1(&[0]), &tensor1(&[2]), &tensor1(&[0]));
    assert_eq!(r, Err(TractError::EvalError));
}

#[test]
fn strided_slice_of_other_type_is_refused() {
    let op = StridedSlice::new(BaseStridedSlice::default(), DatumType::I64);
    let r = op.eval(&tensor1(&[0, 1, 2]), &tensor1(&[0]), &tensor1(&[2]), &tensor1(&[1]));
    assert_eq!(r, Err(TractError::EvalError));
}

#[test]
fn strided_slice_d_takes_integers_and_dimensions_only() {
    let op = StridedSliceD::new(BaseStridedSlice::default());
    assert_eq!(
        op.eval(&tensor1(&[7, 8, 9]), &tensor1(&[1]), &tensor1(&[3]), &tensor1(&[1])).unwrap(),
        tensor1(&[8, 9])
    );
    let bytes = Tensor::new(DatumType::U8, vec![3], vec![7, 8, 9]).unwrap();
    assert_eq!(op.eval(&bytes, &tensor1(&[1]), &tensor1(&[3]), &tensor1(&[1])), Err(TractError::EvalError));
}

#[test]
fn dim_len_counts_steps() {
    let d = Dim { begin: TDim::constant(1), end: TDim::constant(8), stride: 3, shrink: false };
    // 1, 4, 7
    assert_eq!(d.len(), Ok(3));
    assert_eq!(d.soft_len(), Ok(TDim::constant(3)));
    let back = Dim { begin: TDim::constant(5), end: TDim::constant(-1), stride: -2, shrink: false };
    // 5, 3, 1
    assert_eq!(back.len(), Ok(3));
    let streaming = Dim { begin: TDim::constant(2), end: TDim::stream(), stride: 1, shrink: false };
    assert_eq!(streaming.len(), Err(TractError::EvalError));
    assert_eq!(streaming.soft_len(), Ok(TDim { slope: 1, offset: -2 }));
    let strided_stream = Dim { begin: TDim::constant(2), end: TDim::stream(), stride: 2, shrink: false };
    assert_eq!(strided_stream.soft_len(), Err(TractError::EvalError));
}

#[test]
fn prepare_one_dim_follows_the_masks() {
    let base = BaseStridedSlice::new(1, 2, 4);
    let begin = vec![TDim::constant(2), TDim::constant(-3), TDim::constant(1)];
    let end = vec![TDim::constant(4), TDim::constant(0), TDim::constant(0)];
    let strides = vec![1, 1, 1];
    let dim = TDim::constant(10);
    // begin ignored
    assert_eq!(
        base.prepare_one_dim(0, dim, &begin, &end, &strides),
        Ok(Dim { begin: TDim::constant(0), end: TDim::constant(4), stride: 1, shrink: false })
    );
    // negative begin counted from the end, end ignored
    assert_eq!(
        base.prepare_one_dim(1, dim, &begin, &end, &strides),
        Ok(Dim { begin: TDim::constant(7), end: TDim::constant(10), stride: 1, shrink: false })
    );
    // shrunk
    assert_eq!(
        base.prepare_one_dim(2, dim, &begin, &end, &strides),
        Ok(Dim { begin: TDim::constant(1), end: TDim::constant(2), stride: 1, shrink: true })
    );
    // an axis that the bounds do not speak of is read whole
    assert_eq!(
        base.prepare_one_dim(3, dim, &begin, &end, &strides),
        Ok(Dim { begin: TDim::constant(0), end: TDim::constant(10), stride: 1, shrink: false })
    );
    assert!(base.must_shrink(2) && !base.must_shrink(0) && !base.must_shrink(64));
    assert!(base.ignore_begin(0) && !base.ignore_begin(1));
    assert!(base.ignore_end(1) && !base.ignore_end(0));
}

#[test]
fn a_bound_that_falls_with_the_stream_counts_from_the_end() {
    let base = BaseStridedSlice::default();
    let stream = TDim::stream();
    // begin = 2 - S: negative for every long stream, whatever the constant
    let falling = TDim::constant(2).checked_sub(&stream).unwrap();
    let begin = vec![falling, TDim::constant(-1_000_000_000_000), TDim { slope: -1, offset: i64::MAX }];
    let end = vec![stream, TDim::constant(0), TDim::constant(0)];
    let strides = vec![1, 1, 1];
    assert_eq!(
        base.prepare_one_dim(0, stream, &begin, &end, &strides),
        Ok(Dim { begin: TDim::constant(2), end: stream, stride: 1, shrink: false })
    );
    // a negative constant counts from the end, however large
    assert_eq!(
        base.prepare_one_dim(1, stream, &begin, &end, &strides).map(|d| d.begin),
        Ok(TDim { slope: 1, offset: -1_000_000_000_000 })
    );
    // a falling bound counts from the end, however large its constant
    assert_eq!(
        base.prepare_one_dim(2, stream, &begin, &end, &strides).map(|d| d.begin),
        Ok(TDim { slope: 0, offset: i64::MAX })
    );
}

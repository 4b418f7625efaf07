use std::sync::Arc;

use tfdeploy::array::gather;
use tfdeploy::dim::TDim;
use tfdeploy::errors::TractError;
use tfdeploy::facts::{DimFact, ShapeFact, TensorFact};
use tfdeploy::framework::OpRegister;
use tfdeploy::onnx::slice::Slice as OnnxSlice;
use tfdeploy::ops::size::Size;
use tfdeploy::ops::math::add_integers;
use tfdeploy::ops::slice::Slice;
use tfdeploy::ops::trivial::{Const, Identity, Placeholder};
use tfdeploy::ops::{Kernels, Op};
use tfdeploy::tensor::{same_items, same_sizes, shape_len, DatumType, Tensor};
use tfdeploy::tf::concatv2::ConcatV2;
use tfdeploy::tf::strided_slice::build;

fn tensor(shape: &[usize], data: &[i64]) -> Tensor {
    Tensor::new(DatumType::I64, shape.to_vec(), data.to_vec()).unwrap()
}

struct NoKernels;

impl Kernels for NoKernels {
    fn eval(&self, _op: &Op, _inputs: &Vec<Arc<Tensor>>) -> Result<Vec<Arc<Tensor>>, TractError> {
        Err(TractError::EvalError)
    }
}

#[test]
fn tensors_hold_what_their_shape_says() {
    assert_eq!(Tensor::new(DatumType::U8, vec![2, 2], vec![1, 2, 3]), Err(TractError::EvalError));
    assert_eq!(Tensor::new(DatumType::U8, vec![0, usize::MAX, usize::MAX], vec![]).unwrap().len(), 0);
    assert_eq!(Tensor::new(DatumType::U8, vec![usize::MAX, 2], vec![]), Err(TractError::EvalError));
    let t = tensor(&[2, 3], &[1, 2, 3, 4, 5, 6]);
    assert_eq!(t.rank(), 2);
    assert_eq!(t.len(), 6);
    assert_eq!(t.datum_type(), DatumType::I64);
    assert_eq!(t.shape(), &vec![2, 3]);
    assert_eq!(t.data(), &vec![1, 2, 3, 4, 5, 6]);
    assert!(t.same(&t.clone()));
    assert!(!t.same(&tensor(&[3, 2], &[1, 2, 3, 4, 5, 6])));
    assert!(!t.same(&Tensor::new(DatumType::I32, vec![2, 3], vec![1, 2, 3, 4, 5, 6]).unwrap()));
    assert_eq!(t.clone().into_shape(vec![6]), Ok(tensor(&[6], &[1, 2, 3, 4, 5, 6])));
    assert_eq!(t.into_shape(vec![4]), Err(TractError::EvalError));
    assert_eq!(Tensor::scalar(DatumType::I64, 3), tensor(&[], &[3]));
    assert_eq!(Tensor::vector(DatumType::I64, vec![3, 4]), tensor(&[2], &[3, 4]));
    assert_eq!(shape_len(&vec![2, 3, 4]), Some(24));
    assert_eq!(shape_len(&vec![]), Some(1));
    assert_eq!(shape_len(&vec![usize::MAX, 2, 0]), Some(0));
    assert_eq!(shape_len(&vec![usize::MAX, 2]), None);
    assert!(same_sizes(&vec![1, 2], &vec![1, 2]) && !same_sizes(&vec![1, 2], &vec![1]));
    assert!(same_items(&vec![1, 2], &vec![1, 2]) && !same_items(&vec![1, 2], &vec![1, 3]));
}

#[test]
fn tensors_as_lists() {
    assert_eq!(
        tensor(&[2], &[3, -4]).to_dims(),
        Ok(vec![TDim::constant(3), TDim::constant(-4)])
    );
    assert_eq!(tensor(&[1, 2], &[3, 4]).to_dims(), Err(TractError::EvalError));
    assert_eq!(Tensor::vector(DatumType::F32, vec![0]).to_dims(), Err(TractError::EvalError));
    assert_eq!(Tensor::vector(DatumType::I32, vec![3, -4]).to_i32s(), Ok(vec![3, -4]));
    assert_eq!(tensor(&[2], &[3, 4]).to_i32s(), Err(TractError::EvalError));
    assert_eq!(Tensor::vector(DatumType::I32, vec![1 << 40]).to_i32s(), Err(TractError::EvalError));
}

#[test]
fn dimensions() {
    let s = TDim::stream();
    let two = TDim::constant(2);
    assert_eq!(s.checked_sub(&two), Some(TDim { slope: 1, offset: -2 }));
    assert_eq!(s.checked_add(&s), Some(TDim { slope: 2, offset: 0 }));
    assert_eq!(s.checked_add(&two).unwrap().checked_mul(3), Some(TDim { slope: 3, offset: 6 }));
    // (S + 2) - S is the constant 2, whatever S
    assert_eq!(s.checked_add(&two).unwrap().checked_sub(&s), Some(two));
    assert_eq!(TDim::constant(i64::MAX).checked_add(&TDim::constant(1)), None);
    assert_eq!(TDim::constant(i64::MIN).checked_sub(&TDim::constant(1)), None);
    assert_eq!(TDim::constant(i64::MAX).checked_mul(2), None);
    assert!(s.is_stream() && !two.is_stream());
    assert_eq!(two.as_const(), Some(2));
    assert_eq!(s.as_const(), None);
    assert_eq!(TDim { slope: 3, offset: -1 }.eval(5), Some(14));
    assert_eq!(TDim { slope: i64::MAX, offset: 0 }.eval(2), None);
    assert_eq!(TDim::from_usize(7), Some(TDim::constant(7)));
    assert_eq!(TDim::from_usize(usize::MAX), None);
}

#[test]
fn gather_reads_axis_by_axis() {
    let t = tensor(&[3, 4], &[0, 1, 2, 3, 10, 11, 12, 13, 20, 21, 22, 23]);
    // rows 2 and 0, columns 1 and 3
    assert_eq!(gather(&t, vec![2, 2], &vec![2, 1], &vec![-2, 2]), Ok(tensor(&[2, 2], &[21, 23, 1, 3])));
    // a stride of 0 repeats
    assert_eq!(gather(&t, vec![2, 1], &vec![1, 2], &vec![0, 1]), Ok(tensor(&[2, 1], &[12, 12])));
    // nothing to read
    assert_eq!(gather(&t, vec![0, 4], &vec![5, 0], &vec![1, 1]), Ok(tensor(&[0, 4], &[])));
    // outside
    assert_eq!(gather(&t, vec![2, 2], &vec![2, 1], &vec![1, 1]), Err(TractError::EvalError));
    assert_eq!(gather(&t, vec![1, 1], &vec![0, -1], &vec![1, 1]), Err(TractError::EvalError));
    assert_eq!(gather(&t, vec![1], &vec![0], &vec![1]), Err(TractError::EvalError));
    let scalar = Tensor::scalar(DatumType::I64, 5);
    assert_eq!(gather(&scalar, vec![], &vec![], &vec![]), Ok(scalar.clone()));
}

#[test]
fn plain_slice_cuts_both_ends() {
    let t = tensor(&[3, 4], &[0, 1, 2, 3, 10, 11, 12, 13, 20, 21, 22, 23]);
    assert_eq!(Slice::new(vec![(1, 0), (1, 2)]).eval_slice(&t), Ok(tensor(&[2, 1], &[11, 21])));
    assert_eq!(Slice::new(vec![(0, 0), (0, 0)]).eval_slice(&t), Ok(t.clone()));
    assert_eq!(Slice::new(vec![(2, 1), (0, 0)]).eval_slice(&t), Ok(tensor(&[0, 4], &[])));
    // no more is cut off than the axis holds, from its start first
    assert_eq!(Slice::new(vec![(2, 2), (0, 0)]).eval_slice(&t), Ok(tensor(&[0, 4], &[])));
    assert_eq!(Slice::new(vec![(9, 0), (0, 9)]).eval_slice(&t), Ok(tensor(&[0, 0], &[])));
    assert_eq!(Slice::new(vec![(0, 0), (3, 9)]).eval_slice(&t), Ok(tensor(&[3, 0], &[])));
    assert_eq!(Slice::new(vec![(0, 9), (0, 0)]).eval_slice(&t), Ok(tensor(&[0, 4], &[])));
    assert_eq!(Slice::new(vec![(0, 0)]).eval_slice(&t), Err(TractError::EvalError));
}

#[test]
fn onnx_slice_counts_negative_bounds_from_the_end() {
    let t = tensor(&[3, 4], &[0, 1, 2, 3, 10, 11, 12, 13, 20, 21, 22, 23]);
    let op = OnnxSlice::new(None, vec![1, -3], vec![3, -1]);
    assert_eq!(op.eval_slice(&t), Ok(tensor(&[2, 2], &[11, 12, 21, 22])));
    // named axes, in any order
    let named = OnnxSlice::new(Some(vec![1, 0]), vec![0, 2], vec![2, 3]);
    assert_eq!(named.eval_slice(&t), Ok(tensor(&[1, 2], &[20, 21])));
    // an end before the start gives nothing
    let empty = OnnxSlice::new(None, vec![2], vec![1]);
    assert_eq!(empty.eval_slice(&t), Ok(tensor(&[0, 4], &[])));
    // a bound outside the axis stands for the nearest edge of the axis
    assert_eq!(OnnxSlice::new(None, vec![0], vec![4]).eval_slice(&t), Ok(t.clone()));
    let line = tensor(&[3], &[10, 20, 30]);
    assert_eq!(OnnxSlice::new(None, vec![1], vec![100]).eval_slice(&line), Ok(tensor(&[2], &[20, 30])));
    assert_eq!(OnnxSlice::new(None, vec![7], vec![9]).eval_slice(&line), Ok(tensor(&[0], &[])));
    assert_eq!(OnnxSlice::new(None, vec![isize::MAX], vec![isize::MAX]).eval_slice(&line), Ok(tensor(&[0], &[])));
    assert_eq!(OnnxSlice::new(Some(vec![1]), vec![2], vec![100]).eval_slice(&t), Ok(tensor(&[3, 2], &[2, 3, 12, 13, 22, 23])));
    assert_eq!(OnnxSlice::new(None, vec![-4], vec![1]).eval_slice(&t), Ok(tensor(&[1, 4], &[0, 1, 2, 3])));
    assert_eq!(OnnxSlice::new(None, vec![0], vec![-4]).eval_slice(&t), Ok(tensor(&[0, 4], &[])));
    assert_eq!(OnnxSlice::new(None, vec![isize::MIN], vec![isize::MAX]).eval_slice(&line), Ok(line.clone()));
    // a pair of bounds must name an axis of the input
    assert_eq!(OnnxSlice::new(Some(vec![2]), vec![0], vec![1]).eval_slice(&t), Err(TractError::EvalError));
    assert_eq!(OnnxSlice::new(Some(vec![]), vec![0], vec![1]).eval_slice(&t), Err(TractError::EvalError));
}

#[test]
fn onnx_slice_rules() {
    let op = Op::OnnxSlice(OnnxSlice::new(None, vec![1, -3], vec![3, -1]));
    let input = TensorFact::dt_shape(
        DatumType::I64,
        ShapeFact::closed(vec![DimFact::Only(TDim::stream()), DimFact::Only(TDim::constant(4))]),
    );
    let (facts, settled) = op.infer_facts(vec![input], vec![TensorFact::any()]).unwrap();
    assert!(settled);
    assert_eq!(
        facts.outputs,
        vec![TensorFact::dt_shape(
            DatumType::I64,
            ShapeFact::closed(vec![DimFact::Only(TDim::constant(2)), DimFact::Only(TDim::constant(2))])
        )]
    );
    let wide = Op::OnnxSlice(OnnxSlice::new(None, vec![isize::MIN], vec![isize::MAX]));
    assert_eq!(wide.infer_facts(vec![TensorFact::any()], vec![TensorFact::any()]).err(), Some(TractError::EvalError));
}

#[test]
fn concatenation() {
    let a = Arc::new(tensor(&[2, 2], &[1, 2, 3, 4]));
    let b = Arc::new(tensor(&[2, 1], &[5, 6]));
    let axis = |v: i64| Arc::new(Tensor::scalar(DatumType::I32, v));
    let op = ConcatV2::new(2, DatumType::I64, DatumType::I32);
    assert_eq!(op.eval_concat(&vec![a.clone(), b.clone(), axis(1)]), Ok(tensor(&[2, 3], &[1, 2, 5, 3, 4, 6])));
    assert_eq!(
        op.eval_concat(&vec![a.clone(), a.clone(), axis(0)]),
        Ok(tensor(&[4, 2], &[1, 2, 3, 4, 1, 2, 3, 4]))
    );
    // the other axes differ
    assert_eq!(op.eval_concat(&vec![a.clone(), b.clone(), axis(0)]), Err(TractError::EvalError));
    // an axis that the tensors have not
    assert_eq!(op.eval_concat(&vec![a.clone(), b.clone(), axis(2)]), Err(TractError::EvalError));
    assert_eq!(op.eval_concat(&vec![a.clone(), b.clone(), axis(-1)]), Err(TractError::EvalError));
    // the axis must be a scalar 32-bit integer
    assert_eq!(op.eval_concat(&vec![a.clone(), b.clone(), a.clone()]), Err(TractError::EvalError));
    // an input is missing
    assert_eq!(op.eval_concat(&vec![a.clone(), axis(0)]), Err(TractError::MalformedGraph));
    let as_op = Op::ConcatV2(op);
    assert_eq!(
        as_op.eval(vec![a.clone(), b.clone(), axis(1)], &NoKernels).unwrap(),
        vec![Arc::new(tensor(&[2, 3], &[1, 2, 5, 3, 4, 6]))]
    );
    assert_eq!(as_op.name(), "tf.ConvatV2");
}

#[test]
fn size_counts_the_elements() {
    let t = tensor(&[3, 100], &[0; 300]);
    assert_eq!(*Size::new(DatumType::I32).eval_size(&t).unwrap(), Tensor::scalar(DatumType::I32, 300));
    assert_eq!(*Size::new(DatumType::I64).eval_size(&t).unwrap(), Tensor::scalar(DatumType::I64, 300));
    // the cast keeps the low bits
    assert_eq!(*Size::coerce_to(DatumType::U8, 300).unwrap(), Tensor::scalar(DatumType::U8, 44));
    assert_eq!(*Size::coerce_to(DatumType::I8, 200).unwrap(), Tensor::scalar(DatumType::I8, -56));
    assert_eq!(*Size::coerce_to(DatumType::TDim, 7).unwrap(), Tensor::scalar(DatumType::TDim, 7));
    assert_eq!(Size::coerce_to(DatumType::F32, 7).err(), Some(TractError::EvalError));
    let op = Op::Size(Size::new(DatumType::I32));
    assert_eq!(op.eval(vec![Arc::new(t)], &NoKernels).unwrap(), vec![Arc::new(Tensor::scalar(DatumType::I32, 300))]);
    assert_eq!(op.eval(vec![], &NoKernels), Err(TractError::MalformedGraph));
}

#[test]
fn trivial_operators() {
    let t = Arc::new(tensor(&[2], &[1, 2]));
    assert_eq!(Identity::new().eval(vec![t.clone()]), Ok(vec![t.clone()]));
    let mut p = Placeholder::new();
    assert_eq!(p.eval(vec![]), Err(TractError::EvalError));
    p.set(t.clone());
    assert_eq!(p.eval(vec![]), Ok(vec![t.clone()]));
    let c = Const::new(t.clone());
    assert_eq!(c.eval(vec![]), Ok(vec![t.clone()]));
    assert!(Arc::ptr_eq(&c.value(), &t));
    assert_eq!(Op::Const(t.clone()).eval(vec![], &NoKernels), Ok(vec![t.clone()]));
    assert_eq!(Op::Identity.eval(vec![t.clone()], &NoKernels), Ok(vec![t.clone()]));
    assert_eq!(Op::Source.eval(vec![], &NoKernels), Err(TractError::EvalError));
    let unknown = Op::Unimplemented { name: "Mystery".to_string(), payload: "raw".to_string() };
    assert_eq!(unknown.eval(vec![t.clone()], &NoKernels), Err(TractError::EvalError));
    assert_eq!(unknown.name(), "Mystery");
    assert_eq!(Op::Add.eval(vec![t.clone()], &NoKernels), Err(TractError::EvalError));
    assert_eq!(Op::Slice(Slice::new(vec![])).name(), "Slice");
}

#[test]
fn strided_slice_is_built_by_type() {
    assert_eq!(build(1, 2, 3, DatumType::I32).name(), "tf.StridedSliceD");
    assert_eq!(build(1, 2, 3, DatumType::F32).name(), "tf.StridedSlice");
    let op = build(0, 0, 0, DatumType::I32);
    let ints = |d: &[i64]| Arc::new(Tensor::vector(DatumType::I32, d.to_vec()));
    assert_eq!(
        op.eval(vec![ints(&[5, 6, 7]), ints(&[1]), ints(&[3]), ints(&[1])], &NoKernels),
        Ok(vec![ints(&[6, 7])])
    );
    assert_eq!(op.eval(vec![ints(&[5, 6, 7])], &NoKernels), Err(TractError::MalformedGraph));
}

#[test]
fn register_of_builders() {
    type Builder = fn(&u8) -> Result<Op, TractError>;
    fn identity(_: &u8) -> Result<Op, TractError> {
        Ok(Op::Identity)
    }
    fn source(_: &u8) -> Result<Op, TractError> {
        Ok(Op::Source)
    }
    let mut reg: OpRegister<Builder> = OpRegister::default();
    assert!(reg.get("Identity").is_none());
    assert!(reg.names().is_empty());
    reg.insert("Identity", identity);
    reg.insert("Placeholder", source);
    assert_eq!(reg.names(), vec!["Identity".to_string(), "Placeholder".to_string()]);
    assert_eq!(reg.get("Identity").unwrap()(&0).unwrap().name(), "Identity");
    assert_eq!(reg.get("Placeholder").unwrap()(&0).unwrap().name(), "Source");
    assert!(reg.get("Const").is_none());
    // a second builder under one name takes the place of the first
    reg.insert("Identity", source);
    assert_eq!(reg.names().len(), 2);
    assert_eq!(reg.get("Identity").unwrap()(&0).unwrap().name(), "Source");
}

#[test]
fn concatenation_passes_over_parts_without_elements() {
    let a = Arc::new(tensor(&[2, 1], &[1, 2]));
    let none = Arc::new(tensor(&[2, 0], &[]));
    let b = Arc::new(tensor(&[2, 2], &[3, 4, 5, 6]));
    let axis = |v: i64| Arc::new(Tensor::scalar(DatumType::I32, v));
    let op = ConcatV2::new(3, DatumType::I64, DatumType::I32);
    assert_eq!(
        op.eval_concat(&vec![a.clone(), none.clone(), b.clone(), axis(1)]),
        Ok(tensor(&[2, 3], &[1, 3, 4, 2, 5, 6]))
    );
    assert_eq!(
        op.eval_concat(&vec![none.clone(), none.clone(), none.clone(), axis(1)]),
        Ok(tensor(&[2, 0], &[]))
    );
    // along the first axis the parts follow each other whole
    let op = ConcatV2::new(2, DatumType::I64, DatumType::I32);
    let c = Arc::new(tensor(&[1, 2], &[7, 8]));
    assert_eq!(op.eval_concat(&vec![b.clone(), c.clone(), axis(0)]), Ok(tensor(&[3, 2], &[3, 4, 5, 6, 7, 8])));
    // arrays of different ranks cannot be joined
    let flat = Arc::new(tensor(&[2], &[1, 2]));
    assert_eq!(op.eval_concat(&vec![flat.clone(), c.clone(), axis(0)]), Err(TractError::EvalError));
    // a shape that no array can have is refused, though it holds no element
    let vast = Arc::new(tensor(&[0, usize::MAX, usize::MAX], &[]));
    assert_eq!(op.eval_concat(&vec![vast.clone(), vast.clone(), axis(0)]), Err(TractError::EvalError));
}

#[test]
fn integers_are_added_within_their_type() {
    let a = tensor(&[2, 2], &[1, 2, 3, 4]);
    let b = tensor(&[2, 2], &[10, 20, 30, 40]);
    assert_eq!(add_integers(&a, &b), Ok(tensor(&[2, 2], &[11, 22, 33, 44])));
    // other shapes, other types
    assert_eq!(add_integers(&a, &tensor(&[4], &[1, 2, 3, 4])), Err(TractError::EvalError));
    let short = Tensor::new(DatumType::I32, vec![2, 2], vec![1, 2, 3, 4]).unwrap();
    assert_eq!(add_integers(&a, &short), Err(TractError::EvalError));
    // a sum that is no element of the type
    let top = Tensor::vector(DatumType::I8, vec![127, -128]);
    assert_eq!(add_integers(&top, &Tensor::vector(DatumType::I8, vec![0, 1])), Ok(Tensor::vector(DatumType::I8, vec![127, -127])));
    assert_eq!(add_integers(&top, &Tensor::vector(DatumType::I8, vec![1, 0])), Err(TractError::EvalError));
    let wide = Tensor::vector(DatumType::I64, vec![i64::MAX]);
    assert_eq!(add_integers(&wide, &Tensor::vector(DatumType::I64, vec![1])), Err(TractError::EvalError));
    // floating-point numbers are the host's
    let f = Tensor::scalar(DatumType::F32, 1.0f32.to_bits() as i64);
    assert_eq!(add_integers(&f, &f), Err(TractError::EvalError));
}

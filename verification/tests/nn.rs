use std::sync::Arc;

use tfdeploy::declutter::analyse_and_declutter;
use tfdeploy::dim::TDim;
use tfdeploy::errors::TractError;
use tfdeploy::facts::{DimFact, ShapeFact, TensorFact};
use tfdeploy::framework::{build_op, OpRegister};
use tfdeploy::matrix::{elide, DataType, Matrix, TensorProto};
use tfdeploy::model::{InletId, Model, OutletId};
use tfdeploy::ops::local_patch::{
    gather_patches, AvgPool, BatchImageWrapper, Conv2D, DataFormat, ImageWrapper, LocalPatch, MaxPool, Padding,
};
use tfdeploy::ops::trivial::{Const, Identity, Placeholder};
use tfdeploy::ops::Op;
use tfdeploy::tf::{concatv2, reshape};
use tfdeploy::tensor::{DatumType, Tensor};
use tfdeploy::tf::strided_slice::BaseStridedSlice;

fn patch(padding: Padding, stride: usize) -> LocalPatch {
    LocalPatch { _data_format: DataFormat::NHWC, padding, strides: vec![1, stride, stride, 1] }
}

fn counting(shape: &[usize]) -> Tensor {
    let n: usize = shape.iter().product();
    Tensor::new(DatumType::I32, shape.to_vec(), (1..=n as i64).collect()).unwrap()
}

#[test]
fn output_sizes() {
    assert_eq!(patch(Padding::Valid, 1).adjusted_dim(2, 3, (1, 1)), Ok((2, 3)));
    assert_eq!(patch(Padding::Valid, 1).adjusted_dim(2, 3, (2, 2)), Ok((1, 2)));
    assert_eq!(patch(Padding::Valid, 2).adjusted_dim(2, 3, (2, 2)), Ok((1, 1)));
    assert_eq!(patch(Padding::Same, 2).adjusted_dim(2, 3, (2, 2)), Ok((1, 2)));
    assert_eq!(patch(Padding::Same, 3).adjusted_dim(2, 4, (3, 3)), Ok((1, 2)));
    assert_eq!(patch(Padding::Valid, 2).adjusted_dim(5, 5, (6, 1)), Ok((0, 3)));
    // a window that is too large, no stride, a stride of 0
    assert_eq!(patch(Padding::Valid, 1).adjusted_dim(2, 3, (4, 1)), Err(TractError::EvalError));
    assert_eq!(patch(Padding::Valid, 1).adjusted_dim(2, 3, (0, 1)), Err(TractError::EvalError));
    assert_eq!(patch(Padding::Same, 0).adjusted_dim(2, 3, (1, 1)), Err(TractError::EvalError));
    let short = LocalPatch { _data_format: DataFormat::NHWC, padding: Padding::Same, strides: vec![1] };
    assert_eq!(short.adjusted_dim(2, 3, (1, 1)), Err(TractError::EvalError));
}

#[test]
fn paddings_put_the_smaller_half_first() {
    // 2 rows, window of 3, stride 3: 3 - 2 = 1 row, below; 4 columns: 3 - 1 = 2 columns
    assert_eq!(patch(Padding::Same, 3).paddings(2, 4, (3, 3)), Ok(((0, 1), (1, 1))));
    assert_eq!(patch(Padding::Same, 1).paddings(2, 2, (2, 2)), Ok(((0, 1), (0, 1))));
    assert_eq!(patch(Padding::Same, 1).paddings(1, 1, (3, 1)), Ok(((1, 1), (0, 0))));
    // a window smaller than the step takes no padding
    assert_eq!(patch(Padding::Same, 4).paddings(8, 8, (2, 2)), Ok(((0, 0), (0, 0))));
    assert_eq!(patch(Padding::Same, 0).paddings(8, 8, (2, 2)), Err(TractError::EvalError));
}

#[test]
fn padding_a_batch() {
    let data = Arc::new(counting(&[1, 2, 2, 1]));
    assert_eq!(patch(Padding::Valid, 1).pad(&data, (2, 2), 0), Ok(None));
    let padded = patch(Padding::Same, 1).pad(&data, (2, 2), -7).unwrap().unwrap();
    assert_eq!(
        padded,
        Tensor::new(DatumType::I32, vec![1, 3, 3, 1], vec![1, 2, -7, 3, 4, -7, -7, -7, -7]).unwrap()
    );
    let around = patch(Padding::Same, 1).pad(&data, (3, 3), 0).unwrap().unwrap();
    assert_eq!(
        around,
        Tensor::new(DatumType::I32, vec![1, 4, 4, 1], vec![0, 0, 0, 0, 0, 1, 2, 0, 0, 3, 4, 0, 0, 0, 0, 0]).unwrap()
    );
    // no batch of images
    assert_eq!(patch(Padding::Same, 1).pad(&Arc::new(counting(&[2, 2])), (2, 2), 0), Err(TractError::EvalError));
}

#[test]
fn patches_of_an_image() {
    // 2 x 3 image of depth 1, window 1 x 2, stride 1
    let image = counting(&[2, 3, 1]);
    let patches = patch(Padding::Valid, 1).mk_patches(&image, (1, 2)).unwrap();
    assert_eq!(patches, Tensor::new(DatumType::I32, vec![4, 2], vec![1, 2, 2, 3, 4, 5, 5, 6]).unwrap());
    // depth 2, window 2 x 2: one row, the window in row-major order
    let deep = counting(&[2, 2, 2]);
    let patches = patch(Padding::Valid, 1).mk_patches(&deep, (2, 2)).unwrap();
    assert_eq!(patches, Tensor::new(DatumType::I32, vec![1, 8], (1..=8).collect()).unwrap());
    // stride 2 with padding
    let patches = patch(Padding::Same, 2).mk_patches(&counting(&[2, 3, 1]), (2, 2)).unwrap();
    assert_eq!(patches, Tensor::new(DatumType::I32, vec![2, 4], vec![1, 2, 4, 5, 3, 0, 6, 0]).unwrap());
    // strides of another form
    let odd = LocalPatch { _data_format: DataFormat::NHWC, padding: Padding::Valid, strides: vec![1, 1, 2, 1] };
    assert_eq!(odd.mk_patches(&image, (1, 1)), Err(TractError::EvalError));
    assert_eq!(patch(Padding::Valid, 1).mk_patches(&counting(&[2, 3]), (1, 1)), Err(TractError::EvalError));
}

#[test]
fn patches_outside_the_image_are_an_error() {
    let batch = counting(&[1, 2, 2, 1]);
    assert_eq!(
        gather_patches(&batch, (1, 1), (2, 2), 1),
        Ok(Tensor::new(DatumType::I32, vec![1, 4], vec![1, 2, 3, 4]).unwrap())
    );
    assert_eq!(gather_patches(&batch, (2, 1), (2, 2), 1), Err(TractError::EvalError));
    assert_eq!(gather_patches(&batch, (1, 1), (3, 1), 1), Err(TractError::EvalError));
    assert_eq!(gather_patches(&counting(&[2, 2, 2, 1]), (1, 1), (1, 1), 1), Err(TractError::EvalError));
    assert_eq!(
        gather_patches(&batch, (0, 5), (2, 2), 1),
        Ok(Tensor::new(DatumType::I32, vec![0, 4], vec![]).unwrap())
    );
}

#[test]
fn image_wrappers_name_the_axes() {
    let image = counting(&[2, 3, 4]);
    let w = ImageWrapper(&image);
    assert_eq!((w.height(), w.width(), w.depth()), (2, 3, 4));
    let batch = counting(&[5, 2, 3, 4]);
    let b = BatchImageWrapper(&batch);
    assert_eq!((b.count(), b.height(), b.width(), b.depth()), (5, 2, 3, 4));
    assert_eq!((b.h(), b.w(), b.d()), (2, 3, 4));
}

#[test]
fn building_from_attributes() {
    let strides = Some(vec![1, 2, 2, 1]);
    let built = LocalPatch::build(None, strides.clone(), Some(b"SAME".to_vec())).unwrap();
    assert_eq!(built.padding, Padding::Same);
    assert_eq!(built.strides, vec![1, 2, 2, 1]);
    assert_eq!(
        LocalPatch::build(Some(b"NHWC".to_vec()), strides.clone(), Some(b"VALID".to_vec())).unwrap().padding,
        Padding::Valid
    );
    let refused = |f: Option<Vec<u8>>, s: Option<Vec<i64>>, p: Option<Vec<u8>>| {
        assert_eq!(LocalPatch::build(f, s, p).err(), Some(TractError::MalformedGraph));
    };
    refused(Some(b"NCHW".to_vec()), strides.clone(), Some(b"SAME".to_vec()));
    refused(None, None, Some(b"SAME".to_vec()));
    refused(None, strides.clone(), None);
    refused(None, strides.clone(), Some(b"FULL".to_vec()));
    refused(None, Some(vec![1, -2]), Some(b"SAME".to_vec()));
    assert_eq!(Conv2D::build(None, strides.clone(), Some(b"SAME".to_vec())).unwrap().name(), "Conv2D");
    assert_eq!(Conv2D::for_patch(patch(Padding::Valid, 1)).unwrap().name(), "Conv2D");
    match MaxPool::build(None, strides.clone(), Some(b"SAME".to_vec()), Some(vec![1, 3, 2, 1])).unwrap() {
        Op::MaxPool(p) => assert_eq!(p.1, (3, 2)),
        other => panic!("not a pooling: {:?}", other),
    }
    assert_eq!(
        AvgPool::build(None, strides.clone(), Some(b"SAME".to_vec()), Some(vec![1, 3])).err(),
        Some(TractError::MalformedGraph)
    );
    assert_eq!(
        AvgPool::build(None, strides, Some(b"SAME".to_vec()), Some(vec![1, 3, 3, 1])).unwrap().name(),
        "AvgPool"
    );
}

fn proto(dtype: DataType) -> TensorProto {
    TensorProto { dtype, dims: vec![], tensor_content: vec![], int_val: vec![], float_val: vec![], string_val: vec![] }
}

#[test]
fn tensors_from_a_model_file() {
    let mut ints = proto(DataType::Int32);
    ints.int_val = vec![3, -4];
    assert_eq!(Matrix::from_pb(&ints), Ok(Tensor::vector(DatumType::I32, vec![3, -4])));
    let mut floats = proto(DataType::Float);
    floats.float_val = vec![12.0f32.to_bits()];
    assert_eq!(Matrix::from_pb(&floats), Ok(Tensor::vector(DatumType::F32, vec![12.0f32.to_bits() as i64])));
    let mut text = proto(DataType::String);
    text.string_val = vec![b"ab".to_vec()];
    assert_eq!(Matrix::from_pb(&text), Ok(Tensor::vector(DatumType::U8, vec![97, 98])));
    text.string_val.push(b"c".to_vec());
    assert_eq!(Matrix::from_pb(&text), Err(TractError::EvalError));
    assert_eq!(Matrix::from_pb(&proto(DataType::Double)), Err(TractError::EvalError));

    let mut packed = proto(DataType::Int32);
    packed.dims = vec![2, 1];
    packed.tensor_content = vec![1, 0, 0, 0, 0xfe, 0xff, 0xff, 0xff];
    assert_eq!(Matrix::from_pb(&packed), Ok(Tensor::new(DatumType::I32, vec![2, 1], vec![1, -2]).unwrap()));
    packed.dims = vec![];
    assert_eq!(Matrix::from_pb(&packed), Err(TractError::EvalError));
    packed.dims = vec![-2];
    assert_eq!(Matrix::from_pb(&packed), Err(TractError::EvalError));
    packed.dtype = DataType::UInt8;
    packed.dims = vec![2];
    assert_eq!(Matrix::from_pb(&packed), Err(TractError::EvalError));

    let bits = 1.5f32.to_le_bytes().to_vec();
    assert_eq!(
        Matrix::from_content(DatumType::F32, vec![1], &bits),
        Ok(Tensor::vector(DatumType::F32, vec![1.5f32.to_bits() as i64]))
    );
    // bytes left over are not read
    assert_eq!(
        Matrix::from_content(DatumType::I32, vec![1], &vec![0, 1, 0, 0, 9]),
        Ok(Tensor::vector(DatumType::I32, vec![256]))
    );
    assert_eq!(Matrix::from_content(DatumType::I64, vec![1], &vec![0; 8]), Err(TractError::EvalError));
    assert_eq!(Tensor::scalar(DatumType::F32, 0).datatype(), DataType::Float);
    assert_eq!(Tensor::scalar(DatumType::I64, 0).datatype(), DataType::Other);
}

#[test]
fn dumps_are_cut_to_five_lines() {
    let lines = |n: usize| (0..n).map(|i| format!("line {}", i)).collect::<Vec<String>>();
    assert_eq!(elide(lines(5), true), lines(5));
    assert_eq!(elide(lines(0), false), lines(0));
    assert_eq!(elide(lines(6), true), vec!["line 0", "line 1", "...", "line 4", "line 5"]);
    assert_eq!(elide(lines(9), false), vec!["line 0", "line 1", " : : :", "line 7", "line 8"]);
}

#[test]
fn operators_are_built_by_name() {
    type Builder = fn(&Vec<i64>) -> Result<Op, TractError>;
    fn slice(masks: &Vec<i64>) -> Result<Op, TractError> {
        if masks.len() != 3 {
            return Err(TractError::MalformedGraph);
        }
        Ok(Op::StridedSlice(BaseStridedSlice::new(masks[0], masks[1], masks[2])))
    }
    let mut reg: OpRegister<Builder> = OpRegister::new();
    reg.insert("StridedSlice", slice);
    assert_eq!(build_op(&reg, "StridedSlice", &vec![1, 2, 3], "raw".to_string()).unwrap().name(), "tf.StridedSlice");
    assert_eq!(
        build_op(&reg, "StridedSlice", &vec![1], "raw".to_string()).err(),
        Some(TractError::MalformedGraph)
    );
    match build_op(&reg, "Mystery", &vec![1], "raw definition".to_string()).unwrap() {
        Op::Unimplemented { name, payload } => {
            assert_eq!(name, "Mystery");
            assert_eq!(payload, "raw definition");
        }
        other => panic!("known: {:?}", other),
    }
}

#[test]
fn inference_and_declutter_in_turn() {
    let ints = |d: &[i64]| Arc::new(Tensor::vector(DatumType::I32, d.to_vec()));
    let mut model = Model::new();
    let shape = ShapeFact::closed(vec![DimFact::Only(TDim::constant(4)), DimFact::Only(TDim::constant(6))]);
    model.add_source("input", TensorFact::dt_shape(DatumType::F32, shape)).unwrap();
    model.chain_default("slice", Op::StridedSlice(BaseStridedSlice::default())).unwrap();
    for (slot, bound) in [ints(&[1, 2]), ints(&[3, 6]), ints(&[1, 1])].into_iter().enumerate() {
        let id = model.add_const("bound", bound).unwrap();
        model.add_edge(OutletId::new(id, 0), InletId::new(1, slot + 1)).unwrap();
    }
    model.chain_after(OutletId::new(1, 0), "after", Op::Identity, vec![TensorFact::any()]).unwrap();
    assert_eq!(analyse_and_declutter(&mut model, 5, 10, 10), Ok(true));
    // the shape of the slice was inferred, and the slice replaced
    let sliced = ShapeFact::closed(vec![DimFact::Only(TDim::constant(2)), DimFact::Only(TDim::constant(4))]);
    assert_eq!(model.outlet_fact(OutletId::new(1, 0)).unwrap(), &TensorFact::dt_shape(DatumType::F32, sliced));
    assert_eq!(model.nodes().len(), 7);
    assert_eq!(model.nodes()[6].op.name(), "Slice");
    assert_eq!(model.eval_order().unwrap(), vec![0, 6, 5]);
    // without a round nothing is done
    assert_eq!(analyse_and_declutter(&mut model, 0, 10, 10), Ok(false));
}

#[test]
fn operators_from_their_definitions() {
    assert!(Identity::build().is_ok());
    assert_eq!(Placeholder::build().unwrap().eval(vec![]), Err(TractError::EvalError));
    let mut value = proto(DataType::Int32);
    value.int_val = vec![5, 6];
    let constant = Const::build(&value).unwrap();
    assert_eq!(*constant.value(), Tensor::vector(DatumType::I32, vec![5, 6]));
    assert_eq!(Const::build(&proto(DataType::Other)).err(), Some(TractError::EvalError));
    assert_eq!(concatv2::build(3, DatumType::F32, DatumType::I32).unwrap().name(), "tf.ConvatV2");
    assert_eq!(concatv2::build(-1, DatumType::F32, DatumType::I32).err(), Some(TractError::MalformedGraph));
    assert_eq!(reshape::reshape(DatumType::F32).unwrap().name(), "tf.Reshape");
}

#[test]
fn padding_puts_the_odd_row_below_and_the_odd_column_right() {
    let data = Arc::new(Tensor::new(DatumType::I32, vec![1, 1, 2, 1], vec![5, 6]).unwrap());
    let padded = patch(Padding::Same, 1).pad(&data, (2, 2), 0).unwrap().unwrap();
    assert_eq!(padded, Tensor::new(DatumType::I32, vec![1, 2, 3, 1], vec![5, 6, 0, 0, 0, 0]).unwrap());
    // a batch of two images of depth 2: each image is padded by itself
    let batch = Arc::new(counting(&[2, 1, 1, 2]));
    let padded = patch(Padding::Same, 1).pad(&batch, (2, 3), 9).unwrap().unwrap();
    assert_eq!(
        padded,
        Tensor::new(
            DatumType::I32,
            vec![2, 2, 3, 2],
            vec![9, 9, 1, 2, 9, 9, 9, 9, 9, 9, 9, 9, 9, 9, 3, 4, 9, 9, 9, 9, 9, 9, 9, 9],
        )
        .unwrap()
    );
    // without a stride there is no padding
    assert_eq!(patch(Padding::Same, 0).pad(&data, (2, 2), 0), Err(TractError::EvalError));
    // an image without elements stays without
    let empty = Arc::new(Tensor::new(DatumType::I32, vec![1, 0, 2, 1], vec![]).unwrap());
    let padded = patch(Padding::Same, 1).pad(&empty, (1, 1), 0).unwrap().unwrap();
    assert_eq!(padded.shape(), &vec![1, 0, 2, 1]);
}

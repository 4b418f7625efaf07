//! The geometry of the local patches, held against known results of the
//! kernels that read it: the sizes, the padding and the patches are the
//! library's; the products and the maxima are worked out here, as a host
//! would.

use std::sync::Arc;

use tfdeploy::ops::local_patch::{DataFormat, LocalPatch, Padding};
use tfdeploy::tensor::{DatumType, Tensor};

fn floats(shape: &[usize], data: &[f32]) -> Tensor {
    Tensor::new(DatumType::F32, shape.to_vec(), data.iter().map(|v| v.to_bits() as i64).collect()).unwrap()
}

fn numbers(t: &Tensor) -> Vec<f32> {
    t.data().iter().map(|bits| f32::from_bits(*bits as u32)).collect()
}

fn mk(sizes: &[usize]) -> Tensor {
    let n: usize = sizes.iter().product();
    let data: Vec<f32> = (1..=n).map(|v| v as f32).collect();
    floats(sizes, &data)
}

fn patch(padding: Padding, stride: usize) -> LocalPatch {
    LocalPatch { _data_format: DataFormat::NHWC, padding, strides: vec![1, stride, stride, 1] }
}

/// The patches of each image of a batch, which the library gathers, times
/// the filter.
fn patches_times_filter(patch: &LocalPatch, data: &Tensor, filter: &Tensor) -> (Vec<usize>, Vec<f32>) {
    let (batches, in_rows, in_cols, in_depth) = (data.shape()[0], data.shape()[1], data.shape()[2], data.shape()[3]);
    let (filter_rows, filter_cols, out_depth) = (filter.shape()[0], filter.shape()[1], filter.shape()[3]);
    let (out_height, out_width) = patch.adjusted_dim(in_rows, in_cols, (filter_rows, filter_cols)).unwrap();
    let weights = numbers(filter);
    let per_image = in_rows * in_cols * in_depth;
    let mut out = Vec::new();
    for b in 0..batches {
        let image = Tensor::new(
            DatumType::F32,
            vec![in_rows, in_cols, in_depth],
            data.data()[b * per_image..(b + 1) * per_image].to_vec(),
        )
        .unwrap();
        let patches = patch.mk_patches(&image, (filter_rows, filter_cols)).unwrap();
        assert_eq!(patches.shape(), &vec![out_height * out_width, filter_rows * filter_cols * in_depth]);
        let cols = patches.shape()[1];
        let values = numbers(&patches);
        for row in 0..patches.shape()[0] {
            for o in 0..out_depth {
                let mut sum = 0.0f32;
                for k in 0..cols {
                    sum += values[row * cols + k] * weights[k * out_depth + o];
                }
                out.push(sum);
            }
        }
    }
    (vec![batches, out_height, out_width, out_depth], out)
}

fn verify(input: &[usize], filter: &[usize], stride: usize, padding: Padding, expect: &[f32]) {
    let (shape, found) = patches_times_filter(&patch(padding, stride), &mk(input), &mk(filter));
    assert_eq!(expect.len(), shape.iter().product::<usize>());
    assert_eq!(expect, &found[..]);
}

#[test]
fn patches_for_a_1x1_filter() {
    verify(&[1,2,3,3], &[1, 1, 3, 3], 1, Padding::Valid, &[
    30.0, 36.0, 42.0, 66.0, 81.0, 96.0, 102.0, 126.0, 150.0, 138.0, 171.0,
    204.0, 174.0, 216.0, 258.0, 210.0, 261.0, 312.0 ]);
}

#[test]
fn patches_for_a_1x2_filter() {
    verify(&[1, 2, 3, 3], &[1, 2, 3, 3] , 1, Padding::Valid, &[
    231.0, 252.0, 273.0, 384.0, 423.0, 462.0, 690.0, 765.0, 840.0, 843.0,
    936.0, 1029.0
])}

#[test]
fn patches_for_a_2x1_filter() {
    verify(&[1, 2, 3, 3], &[2, 1, 3, 3] , 1, Padding::Valid,
      &[465.0, 504.0, 543.0, 618.0, 675.0, 732.0, 771.0, 846.0, 921.0]);
}

#[test]
fn patches_for_a_2x2_filter() {
    verify(&[1, 2, 3, 3], &[2, 2, 3, 3] , 1, Padding::Valid,
           &[ 2271.0, 2367.0, 2463.0, 2901.0, 3033.0, 3165.0 ])
}

#[test]
fn patches_for_a_2x2_filter_at_stride_2() {
    verify(&[1, 2, 3, 3], &[2, 2, 3, 3] , 2, Padding::Valid,
           &[2271.0, 2367.0, 2463.0])
}

#[test]
fn patches_for_a_2x2_filter_at_stride_2_padded() {
    verify(&[1, 2, 3, 3], &[2, 2, 3, 3] , 2, Padding::Same,
           &[2271.0, 2367.0, 2463.0, 1230.0, 1305.0, 1380.0]);
}

#[test]
fn patches_of_one_pixel_padded() {
    // NHWC
    let data = floats(&[1, 1, 1, 1], &[1f32]);
    // HWIO
    let filter = floats(&[3, 1, 1, 1], &[0.0, 1.0, 0.0]);
    let exp = floats(&[1, 1, 1, 1], &[1.0]);

    let (shape, result) = patches_times_filter(&patch(Padding::Same, 1), &data, &filter);
    assert_eq!(exp, floats(&shape, &result));
}

fn close_enough(a: &[f32], b: &[f32]) -> bool {
    a.len() == b.len() && a.iter().zip(b.iter()).all(|(x, y)| (x - y).abs() <= 1e-3 + 1e-3 * y.abs())
}

#[test]
fn patches_of_fractions_padded() {
    let data = floats(&[1, 2, 2, 1], &[142.3088, 48.891083, 208.3187, -11.274994]);
    let filter = floats(&[2, 2, 1, 1], &[160.72833, 107.84076, 247.50552, -38.738464]);
    let exp = [80142.31, 5067.5586, 32266.81, -1812.2109];

    let (shape, result) = patches_times_filter(&patch(Padding::Same, 1), &data, &filter);
    assert_eq!(shape, vec![1, 2, 2, 1]);
    assert!(close_enough(&exp, &result))
}

/// The maximum over each window of a batch, which the library pads.
fn maxima_of_windows(patch: &LocalPatch, window: (usize, usize), data: &Tensor) -> (Vec<usize>, Vec<f32>) {
    let shape = data.shape().clone();
    let (out_h, out_w) = patch.adjusted_dim(shape[1], shape[2], window).unwrap();
    let padded = patch.pad(&Arc::new(data.clone()), window, f32::NEG_INFINITY.to_bits() as i64).unwrap();
    let source = padded.unwrap_or_else(|| data.clone());
    let (height, width, depth) = (source.shape()[1], source.shape()[2], source.shape()[3]);
    let values = numbers(&source);
    let stride = patch.strides[1];
    let mut out = Vec::new();
    for b in 0..shape[0] {
        for h in 0..out_h {
            for w in 0..out_w {
                for d in 0..depth {
                    let mut v = f32::NEG_INFINITY;
                    for y in (h * stride)..(h * stride) + window.0 {
                        for x in (w * stride)..(w * stride) + window.1 {
                            let v2 = values[((b * height + y) * width + x) * depth + d];
                            if v2 > v {
                                v = v2;
                            }
                        }
                    }
                    out.push(v);
                }
            }
        }
    }
    (vec![shape[0], out_h, out_w, depth], out)
}

#[test]
fn padding_below_one_pixel() {
    let data = floats(&[1, 1, 1, 1], &[-1.0]);
    let exp = [-1.0];
    let (shape, found) = maxima_of_windows(&patch(Padding::Same, 1), (2, 1), &data);
    assert_eq!(shape, vec![1, 1, 1, 1]);
    assert!(close_enough(&exp, &found), "expected: {:?} found: {:?}", exp, found)
}

#[test]
fn padding_around_a_row_at_stride_3() {
    let data = floats(&[1, 2, 4, 1], &[1.0, 0.0, 0.0, 0.0, 0.0, 0.0, 0.0, 0.0]);
    let exp = [1.0, 0.0];
    let (shape, found) = maxima_of_windows(&patch(Padding::Same, 3), (3, 3), &data);
    assert_eq!(shape, vec![1, 1, 2, 1]);
    assert!(close_enough(&exp, &found), "expected: {:?} found: {:?}", exp, found)
}

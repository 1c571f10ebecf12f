use wgpu_ops::base::{BaseOps, HostData};
use wgpu_ops::cat::cat;
use wgpu_ops::context::ComputeContext;
use wgpu_ops::shape::Shape;
use wgpu_ops::tensor::Tensor;

fn pseudo_random(n: usize, seed: u64) -> Vec<i32> {
    let mut state = seed;
    let mut out = Vec::with_capacity(n);
    for _ in 0..n {
        state = state.wrapping_mul(6364136223846793005).wrapping_add(1442695040888963407);
        out.push(((state >> 33) % 2001) as i32 - 1000);
    }
    out
}

fn upload(ctx: &mut ComputeContext, dims: Vec<usize>, value: Vec<i32>) -> Tensor {
    BaseOps::from_data(ctx, HostData { value, shape: Shape::new(dims) })
}

fn test_same_as_reference(shape: [usize; 2]) {
    let n = shape[0] * shape[1];
    let data1 = pseudo_random(n, 1);
    let data2 = pseudo_random(n, 2);
    let mut ctx = ComputeContext::new();
    let tensor1 = upload(&mut ctx, shape.to_vec(), data1.clone());
    let tensor2 = upload(&mut ctx, shape.to_vec(), data2.clone());

    let tensor = cat(&mut ctx, vec![tensor1, tensor2], 0);
    let result = BaseOps::into_data(&mut ctx, tensor);

    let mut reference = data1.clone();
    reference.extend_from_slice(&data2);
    assert_eq!(result.shape.dims, vec![2 * shape[0], shape[1]]);
    assert_eq!(result.value, reference);
}

#[test]
fn cat_should_support_multiple_invokations() {
    test_same_as_reference([6, 256]);
}

#[test]
fn cat_should_support_uneven_launch() {
    test_same_as_reference([1, 137]);
}

#[test]
fn cat_along_inner_axis_interleaves_rows() {
    let mut ctx = ComputeContext::new();
    let a = upload(&mut ctx, vec![2, 2], vec![1, 2, 3, 4]);
    let b = upload(&mut ctx, vec![2, 1], vec![5, 6]);
    let c = upload(&mut ctx, vec![2, 3], vec![7, 8, 9, 10, 11, 12]);
    let out = cat(&mut ctx, vec![a, b, c], 1);
    let data = BaseOps::into_data(&mut ctx, out);
    assert_eq!(data.shape.dims, vec![2, 6]);
    assert_eq!(data.value, vec![1, 2, 5, 7, 8, 9, 3, 4, 6, 10, 11, 12]);
}

#[test]
fn cat_then_narrow_recovers_inputs() {
    let mut ctx = ComputeContext::new();
    let a = upload(&mut ctx, vec![2, 3], vec![1, 2, 3, 4, 5, 6]);
    let b = upload(&mut ctx, vec![2, 2], vec![7, 8, 9, 10]);
    let out = cat(&mut ctx, vec![a, b], 1);
    assert_eq!(out.shape().dims, vec![2, 5]);
    let shared = out.share(&mut ctx);
    let first = BaseOps::narrow(&mut ctx, out, 1, 0, 3).unwrap();
    let second = BaseOps::narrow(&mut ctx, shared, 1, 3, 5).unwrap();
    let first = BaseOps::into_data(&mut ctx, first);
    let second = BaseOps::into_data(&mut ctx, second);
    assert_eq!(first.shape.dims, vec![2, 3]);
    assert_eq!(first.value, vec![1, 2, 3, 4, 5, 6]);
    assert_eq!(second.shape.dims, vec![2, 2]);
    assert_eq!(second.value, vec![7, 8, 9, 10]);
}

#[test]
fn narrow_rejects_out_of_range() {
    let mut ctx = ComputeContext::new();
    let a = upload(&mut ctx, vec![2, 3], vec![1, 2, 3, 4, 5, 6]);
    let r = BaseOps::narrow(&mut ctx, a, 1, 2, 4);
    assert_eq!(r.err(), Some(wgpu_ops::base::TensorError::IndexOutOfBounds));
}

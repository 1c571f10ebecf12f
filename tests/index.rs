use wgpu_ops::base::{BaseOps, HostData, TensorError};
use wgpu_ops::bool_ops::{BoolData, WgpuBackend};
use wgpu_ops::cat::cat;
use wgpu_ops::context::ComputeContext;
use wgpu_ops::shape::Shape;
use wgpu_ops::tensor::Tensor;

fn upload(ctx: &mut ComputeContext, dims: Vec<usize>, value: Vec<i32>) -> Tensor {
    BaseOps::from_data(ctx, HostData { value, shape: Shape::new(dims) })
}

fn read(ctx: &mut ComputeContext, t: Tensor) -> (Vec<usize>, Vec<i32>) {
    let d = BaseOps::into_data(ctx, t);
    (d.shape.dims, d.value)
}

#[test]
fn index_extracts_sub_block() {
    let mut ctx = ComputeContext::new();
    let t = upload(&mut ctx, vec![3, 4], (0..12).collect());
    let sub = BaseOps::index(&mut ctx, t, vec![1..3, 1..3]).unwrap();
    assert_eq!(read(&mut ctx, sub), (vec![2, 2], vec![5, 6, 9, 10]));
}

#[test]
fn index_keeps_trailing_axes_whole() {
    let mut ctx = ComputeContext::new();
    let t = upload(&mut ctx, vec![3, 2], vec![1, 2, 3, 4, 5, 6]);
    let sub = BaseOps::index(&mut ctx, t, vec![2..3]).unwrap();
    assert_eq!(read(&mut ctx, sub), (vec![1, 2], vec![5, 6]));
}

#[test]
fn index_rejects_bad_ranges() {
    let mut ctx = ComputeContext::new();
    let t = upload(&mut ctx, vec![2, 2], vec![1, 2, 3, 4]);
    assert_eq!(BaseOps::index(&mut ctx, t, vec![0..3]).err(), Some(TensorError::IndexOutOfBounds));
    let t = upload(&mut ctx, vec![2, 2], vec![1, 2, 3, 4]);
    let too_many = vec![0..1, 0..1, 0..1];
    assert_eq!(BaseOps::index(&mut ctx, t, too_many).err(), Some(TensorError::IndexOutOfBounds));
}

#[test]
fn cat_then_index_recovers_inputs() {
    let mut ctx = ComputeContext::new();
    let a = upload(&mut ctx, vec![1, 3], vec![1, 2, 3]);
    let b = upload(&mut ctx, vec![2, 3], vec![4, 5, 6, 7, 8, 9]);
    let out = cat(&mut ctx, vec![a, b], 0);
    let keep = out.share(&mut ctx);
    let first = BaseOps::index(&mut ctx, out, vec![0..1]).unwrap();
    let second = BaseOps::index(&mut ctx, keep, vec![1..3]).unwrap();
    assert_eq!(read(&mut ctx, first), (vec![1, 3], vec![1, 2, 3]));
    assert_eq!(read(&mut ctx, second), (vec![2, 3], vec![4, 5, 6, 7, 8, 9]));
}

#[test]
fn index_assign_writes_in_place_when_unique() {
    let mut ctx = ComputeContext::new();
    let t = upload(&mut ctx, vec![2, 3], vec![0; 6]);
    let buffer = t.buffer();
    let v = upload(&mut ctx, vec![2, 2], vec![1, 2, 3, 4]);
    let out = BaseOps::index_assign(&mut ctx, t, vec![0..2, 1..3], v).unwrap();
    assert_eq!(out.buffer(), buffer);
    assert_eq!(read(&mut ctx, out), (vec![2, 3], vec![0, 1, 2, 0, 3, 4]));
}

#[test]
fn index_assign_copies_shared_buffer() {
    let mut ctx = ComputeContext::new();
    let t = upload(&mut ctx, vec![4], vec![1, 2, 3, 4]);
    let alias = t.share(&mut ctx);
    let v = upload(&mut ctx, vec![2], vec![9, 9]);
    let out = BaseOps::index_assign(&mut ctx, t, vec![1..3], v).unwrap();
    assert_ne!(out.buffer(), alias.buffer());
    assert_eq!(read(&mut ctx, out).1, vec![1, 9, 9, 4]);
    assert_eq!(read(&mut ctx, alias).1, vec![1, 2, 3, 4]);
}

#[test]
fn index_assign_rejects_wrong_value_shape() {
    let mut ctx = ComputeContext::new();
    let t = upload(&mut ctx, vec![4], vec![1, 2, 3, 4]);
    let v = upload(&mut ctx, vec![3], vec![9, 9, 9]);
    let r = BaseOps::index_assign(&mut ctx, t, vec![1..3], v);
    assert_eq!(r.err(), Some(TensorError::ShapeMismatch));
}

#[test]
fn bool_index_assign_and_cat() {
    let mut ctx = ComputeContext::new();
    let make = |ctx: &mut ComputeContext, v: Vec<bool>, dims: Vec<usize>| {
        WgpuBackend::bool_from_data(ctx, BoolData { value: v, shape: Shape::new(dims) })
    };
    let t = make(&mut ctx, vec![false; 4], vec![2, 2]);
    let v = make(&mut ctx, vec![true], vec![1, 1]);
    let t = WgpuBackend::bool_index_assign(&mut ctx, t, vec![1..2, 0..1], v).unwrap();
    let row = make(&mut ctx, vec![true, true], vec![1, 2]);
    let all = WgpuBackend::bool_cat(&mut ctx, vec![t, row], 0);
    let keep = all.share(&mut ctx);
    let data = WgpuBackend::bool_into_data(&mut ctx, all);
    assert_eq!(data.shape.dims, vec![3, 2]);
    assert_eq!(data.value, vec![false, false, true, false, true, true]);
    let last = WgpuBackend::bool_index(&mut ctx, keep, vec![2..3]).unwrap();
    assert_eq!(WgpuBackend::bool_into_data(&mut ctx, last).value, vec![true, true]);
}

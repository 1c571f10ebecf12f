use wgpu_ops::base::BaseOps;
use wgpu_ops::bool_ops::{BoolData, WgpuBackend};
use wgpu_ops::context::ComputeContext;
use wgpu_ops::shape::Shape;

#[test]
fn bool_round_trip_through_int() {
    let mut ctx = ComputeContext::new();
    let data = BoolData { value: vec![true, false, false, true], shape: Shape::new(vec![2, 2]) };
    let t = WgpuBackend::bool_from_data(&mut ctx, data);
    let as_int = WgpuBackend::bool_into_int(t);
    let ints = as_int.share(&mut ctx);
    let host = BaseOps::into_data(&mut ctx, ints);
    assert_eq!(host.value, vec![1, 0, 0, 1]);
    let back = WgpuBackend::bool_into_data(&mut ctx, as_int);
    assert_eq!(back.shape.dims, vec![2, 2]);
    assert_eq!(back.value, vec![true, false, false, true]);
}

#[test]
fn bool_equal_elem_and_equal() {
    let mut ctx = ComputeContext::new();
    let make = |ctx: &mut ComputeContext, v: Vec<bool>| {
        WgpuBackend::bool_from_data(ctx, BoolData { value: v, shape: Shape::new(vec![3]) })
    };
    let t = make(&mut ctx, vec![true, false, true]);
    let eq = WgpuBackend::bool_equal_elem(&mut ctx, t, false);
    assert_eq!(WgpuBackend::bool_into_data(&mut ctx, eq).value, vec![false, true, false]);
    let a = make(&mut ctx, vec![true, false, true]);
    let b = make(&mut ctx, vec![true, true, false]);
    let eq = WgpuBackend::bool_equal(&mut ctx, a, b);
    assert_eq!(WgpuBackend::bool_into_data(&mut ctx, eq).value, vec![true, false, false]);
}

#[test]
fn bool_empty_reads_false_and_reshapes() {
    let mut ctx = ComputeContext::new();
    let t = WgpuBackend::bool_empty(&mut ctx, Shape::new(vec![2, 2]));
    assert_eq!(WgpuBackend::bool_shape(&t).dims, vec![2, 2]);
    let r = WgpuBackend::bool_reshape(&mut ctx, t, Shape::new(vec![4])).unwrap();
    let data = WgpuBackend::bool_into_data(&mut ctx, r);
    assert_eq!(data.shape.dims, vec![4]);
    assert_eq!(data.value, vec![false; 4]);
}

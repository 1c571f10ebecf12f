use wgpu_ops::base::HostData;
use wgpu_ops::bool_ops::WgpuBackend;
use wgpu_ops::context::ComputeContext;
use wgpu_ops::shape::Shape;

#[test]
fn int_facade_arithmetic_and_reductions() {
    let mut ctx = ComputeContext::new();
    let a = WgpuBackend::int_from_data(
        &mut ctx,
        HostData { value: vec![1, 2, 3, 4], shape: Shape::new(vec![2, 2]) },
    );
    let ones = WgpuBackend::int_ones(&mut ctx, Shape::new(vec![2, 2]));
    let sum = WgpuBackend::int_add(&mut ctx, a, ones);
    let keep = sum.share(&mut ctx);
    let doubled = WgpuBackend::int_mul_scalar(&mut ctx, sum, 2);
    let data = WgpuBackend::int_into_data(&mut ctx, doubled);
    assert_eq!(data.value, vec![4, 6, 8, 10]);
    let col = WgpuBackend::int_sum_dim(&mut ctx, keep, 1);
    assert_eq!(WgpuBackend::int_into_data(&mut ctx, col).value, vec![5, 9]);
}

#[test]
fn sub_keeps_right_operand_when_left_cannot_absorb() {
    let mut ctx = ComputeContext::new();
    let a = WgpuBackend::int_from_data(&mut ctx, HostData { value: vec![10], shape: Shape::new(vec![1]) });
    let b = WgpuBackend::int_from_data(&mut ctx, HostData { value: vec![1, 2, 3], shape: Shape::new(vec![3]) });
    let b_buffer = b.buffer();
    let out = WgpuBackend::int_sub(&mut ctx, a, b);
    assert_ne!(out.buffer(), b_buffer);
    assert_eq!(WgpuBackend::int_into_data(&mut ctx, out).value, vec![9, 8, 7]);
}

#[test]
fn int_comparisons_and_argmax() {
    let mut ctx = ComputeContext::new();
    let a = WgpuBackend::int_from_data(&mut ctx, HostData { value: vec![4, -2, 7], shape: Shape::new(vec![1, 3]) });
    let keep = a.share(&mut ctx);
    let gt = WgpuBackend::int_greater_elem(&mut ctx, a, 0);
    assert_eq!(WgpuBackend::bool_into_data(&mut ctx, gt).value, vec![true, false, true]);
    let am = WgpuBackend::int_argmax(&mut ctx, keep, 1);
    assert_eq!(WgpuBackend::int_into_data(&mut ctx, am).value, vec![2]);
}

#[test]
fn mask_where_and_mask_fill() {
    let mut ctx = ComputeContext::new();
    let shape = || Shape::new(vec![2, 2]);
    let t = WgpuBackend::int_from_data(&mut ctx, HostData { value: vec![1, 2, 3, 4], shape: shape() });
    let mask = WgpuBackend::bool_from_data(
        &mut ctx,
        wgpu_ops::bool_ops::BoolData { value: vec![true, false, false, true], shape: shape() },
    );
    let mask2 = mask.share(&mut ctx);
    let v = WgpuBackend::int_from_data(&mut ctx, HostData { value: vec![10, 20, 30, 40], shape: shape() });
    let t_buffer = t.buffer();
    let picked = WgpuBackend::int_mask_where(&mut ctx, t, mask, v);
    assert_eq!(picked.buffer(), t_buffer);
    let keep = picked.share(&mut ctx);
    let filled = WgpuBackend::int_mask_fill(&mut ctx, picked, mask2, -1);
    assert_ne!(filled.buffer(), t_buffer);
    assert_eq!(WgpuBackend::int_into_data(&mut ctx, filled).value, vec![-1, 2, 3, -1]);
    assert_eq!(WgpuBackend::int_into_data(&mut ctx, keep).value, vec![10, 2, 3, 40]);
}

#[test]
fn gather_along_last_axis() {
    let mut ctx = ComputeContext::new();
    let t = WgpuBackend::int_from_data(&mut ctx, HostData { value: vec![10, 11, 12, 20, 21, 22], shape: Shape::new(vec![2, 3]) });
    let idx = WgpuBackend::int_from_data(&mut ctx, HostData { value: vec![2, 0, 1, 1], shape: Shape::new(vec![2, 2]) });
    let out = WgpuBackend::int_gather(&mut ctx, 1, t, idx).unwrap();
    let data = WgpuBackend::int_into_data(&mut ctx, out);
    assert_eq!(data.shape.dims, vec![2, 2]);
    assert_eq!(data.value, vec![12, 10, 21, 21]);
}

#[test]
fn gather_along_first_axis_and_bad_index() {
    let mut ctx = ComputeContext::new();
    let t = WgpuBackend::int_from_data(&mut ctx, HostData { value: vec![1, 2, 3, 4], shape: Shape::new(vec![2, 2]) });
    let keep = t.share(&mut ctx);
    let idx = WgpuBackend::int_from_data(&mut ctx, HostData { value: vec![1, 0], shape: Shape::new(vec![1, 2]) });
    let out = WgpuBackend::int_gather(&mut ctx, 0, t, idx).unwrap();
    assert_eq!(WgpuBackend::int_into_data(&mut ctx, out).value, vec![3, 2]);
    let bad = WgpuBackend::int_from_data(&mut ctx, HostData { value: vec![2, 0], shape: Shape::new(vec![1, 2]) });
    let r = WgpuBackend::int_gather(&mut ctx, 0, keep, bad);
    assert_eq!(r.err(), Some(wgpu_ops::base::TensorError::IndexOutOfBounds));
}

#[test]
fn scatter_adds_values_at_indices() {
    let mut ctx = ComputeContext::new();
    let t = WgpuBackend::int_from_data(&mut ctx, HostData { value: vec![0, 0, 0, 1, 1, 1], shape: Shape::new(vec![2, 3]) });
    let idx = WgpuBackend::int_from_data(&mut ctx, HostData { value: vec![2, 2, 0, 1], shape: Shape::new(vec![2, 2]) });
    let val = WgpuBackend::int_from_data(&mut ctx, HostData { value: vec![5, 7, 3, 4], shape: Shape::new(vec![2, 2]) });
    let out = WgpuBackend::int_scatter(&mut ctx, 1, t, idx, val).unwrap();
    assert_eq!(WgpuBackend::int_into_data(&mut ctx, out).value, vec![0, 0, 12, 4, 5, 1]);
}

#[test]
fn index_select_dim_is_refused() {
    let mut ctx = ComputeContext::new();
    let t = WgpuBackend::int_from_data(&mut ctx, HostData { value: vec![1, 2], shape: Shape::new(vec![2]) });
    let keep = t.share(&mut ctx);
    let idx = WgpuBackend::int_from_data(&mut ctx, HostData { value: vec![0], shape: Shape::new(vec![1]) });
    let r = WgpuBackend::int_index_select_dim(&mut ctx, t, 0, idx);
    assert_eq!(r.err(), Some(wgpu_ops::base::TensorError::Unsupported));
    assert_eq!(WgpuBackend::int_into_data(&mut ctx, keep).value, vec![1, 2]);
}

#[test]
fn scalar_op_on_shared_handle_keeps_alias() {
    let mut ctx = ComputeContext::new();
    let t = WgpuBackend::int_from_data(&mut ctx, HostData { value: vec![3, 4], shape: Shape::new(vec![2]) });
    let alias = t.share(&mut ctx);
    let out = WgpuBackend::int_mul_scalar(&mut ctx, t, 5);
    assert_ne!(out.buffer(), alias.buffer());
    assert_eq!(WgpuBackend::int_into_data(&mut ctx, out).value, vec![15, 20]);
    assert_eq!(WgpuBackend::int_into_data(&mut ctx, alias).value, vec![3, 4]);
}

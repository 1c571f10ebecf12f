use wgpu_ops::base::{BaseOps, HostData, TensorError};
use wgpu_ops::context::ComputeContext;
use wgpu_ops::numeric::NumericOps;
use wgpu_ops::shape::Shape;
use wgpu_ops::tensor::Tensor;

fn upload(ctx: &mut ComputeContext, dims: Vec<usize>, value: Vec<i32>) -> Tensor {
    BaseOps::from_data(ctx, HostData { value, shape: Shape::new(dims) })
}

fn read(ctx: &mut ComputeContext, t: Tensor) -> (Vec<usize>, Vec<i32>) {
    let d = BaseOps::into_data(ctx, t);
    (d.shape.dims, d.value)
}

#[test]
fn add_broadcasts_row_over_matrix() {
    let mut ctx = ComputeContext::new();
    let a = upload(&mut ctx, vec![2, 3], vec![1, 2, 3, 4, 5, 6]);
    let b = upload(&mut ctx, vec![1, 3], vec![10, 20, 30]);
    let out = NumericOps::add(&mut ctx, a, b);
    assert_eq!(read(&mut ctx, out), (vec![2, 3], vec![11, 22, 33, 14, 25, 36]));
}

#[test]
fn add_writes_in_place_over_unique_left_operand() {
    let mut ctx = ComputeContext::new();
    let a = upload(&mut ctx, vec![2, 2], vec![1, 2, 3, 4]);
    let b = upload(&mut ctx, vec![2, 2], vec![10, 20, 30, 40]);
    let a_buffer = a.buffer();
    let out = NumericOps::add(&mut ctx, a, b);
    assert_eq!(out.buffer(), a_buffer);
    assert_eq!(read(&mut ctx, out).1, vec![11, 22, 33, 44]);
}

#[test]
fn add_uses_right_operand_when_only_it_can_absorb() {
    let mut ctx = ComputeContext::new();
    let a = upload(&mut ctx, vec![1, 2], vec![1, 2]);
    let b = upload(&mut ctx, vec![2, 2], vec![10, 20, 30, 40]);
    let b_buffer = b.buffer();
    let out = NumericOps::add(&mut ctx, a, b);
    assert_eq!(out.buffer(), b_buffer);
    assert_eq!(read(&mut ctx, out), (vec![2, 2], vec![11, 22, 31, 42]));
}

#[test]
fn shared_operand_is_never_written() {
    let mut ctx = ComputeContext::new();
    let a = upload(&mut ctx, vec![3], vec![1, 2, 3]);
    let alias = a.share(&mut ctx);
    let b = upload(&mut ctx, vec![3], vec![5, 5, 5]);
    let out = NumericOps::sub(&mut ctx, a, b);
    assert_ne!(out.buffer(), alias.buffer());
    assert_eq!(read(&mut ctx, out).1, vec![-4, -3, -2]);
    assert_eq!(read(&mut ctx, alias).1, vec![1, 2, 3]);
}

#[test]
fn in_place_and_allocating_paths_agree() {
    let lhs = vec![7, -3, 12, 0, 5, 9];
    let rhs = vec![2, 4, -1];
    for op in 0..4 {
        let mut ctx = ComputeContext::new();
        let unique = upload(&mut ctx, vec![2, 3], lhs.clone());
        let r1 = upload(&mut ctx, vec![1, 3], rhs.clone());
        let shared = upload(&mut ctx, vec![2, 3], lhs.clone());
        let keep = shared.share(&mut ctx);
        let r2 = upload(&mut ctx, vec![1, 3], rhs.clone());
        let (a, b) = match op {
            0 => (NumericOps::add(&mut ctx, unique, r1), NumericOps::add(&mut ctx, shared, r2)),
            1 => (NumericOps::sub(&mut ctx, unique, r1), NumericOps::sub(&mut ctx, shared, r2)),
            2 => (NumericOps::mul(&mut ctx, unique, r1), NumericOps::mul(&mut ctx, shared, r2)),
            _ => (NumericOps::div(&mut ctx, unique, r1), NumericOps::div(&mut ctx, shared, r2)),
        };
        assert_ne!(b.buffer(), keep.buffer());
        assert_eq!(read(&mut ctx, a), read(&mut ctx, b));
    }
}

#[test]
fn mul_and_div_broadcast_columns() {
    let mut ctx = ComputeContext::new();
    let a = upload(&mut ctx, vec![2, 2], vec![6, -7, 8, 9]);
    let b = upload(&mut ctx, vec![2, 1], vec![2, -3]);
    let b2 = b.share(&mut ctx);
    let a2 = a.share(&mut ctx);
    let prod = NumericOps::mul(&mut ctx, a, b);
    assert_eq!(read(&mut ctx, prod).1, vec![12, -14, -24, -27]);
    let quot = NumericOps::div(&mut ctx, a2, b2);
    assert_eq!(read(&mut ctx, quot).1, vec![3, -3, -2, -3]);
}

#[test]
fn division_by_zero_keeps_dividend() {
    let mut ctx = ComputeContext::new();
    let a = upload(&mut ctx, vec![3], vec![5, i32::MIN, -9]);
    let b = upload(&mut ctx, vec![3], vec![0, -1, 2]);
    let out = NumericOps::div(&mut ctx, a, b);
    assert_eq!(read(&mut ctx, out).1, vec![5, i32::MIN, -4]);
}

#[test]
fn scalar_ops_in_place_and_copied() {
    let mut ctx = ComputeContext::new();
    let a = upload(&mut ctx, vec![4], vec![1, 2, 3, i32::MAX]);
    let buffer = a.buffer();
    let a = NumericOps::add_scalar(&mut ctx, a, 1);
    assert_eq!(a.buffer(), buffer);
    let keep = a.share(&mut ctx);
    let b = NumericOps::mul_scalar(&mut ctx, a, 3);
    assert_ne!(b.buffer(), buffer);
    assert_eq!(read(&mut ctx, keep).1, vec![2, 3, 4, i32::MIN]);
    let c = NumericOps::sub_scalar(&mut ctx, b, 6);
    let d = NumericOps::div_scalar(&mut ctx, c, 3);
    assert_eq!(read(&mut ctx, d).1, vec![0, 1, 2, i32::MIN.wrapping_mul(3).wrapping_sub(6) / 3]);
}

#[test]
fn zeros_and_ones_are_uniform() {
    let mut ctx = ComputeContext::new();
    let z = NumericOps::zeros(&mut ctx, Shape::new(vec![2, 3, 2]));
    let o = NumericOps::ones(&mut ctx, Shape::new(vec![3, 4]));
    assert_eq!(read(&mut ctx, z), (vec![2, 3, 2], vec![0; 12]));
    assert_eq!(read(&mut ctx, o), (vec![3, 4], vec![1; 12]));
    let empty = NumericOps::ones(&mut ctx, Shape::new(vec![0, 4]));
    assert_eq!(read(&mut ctx, empty), (vec![0, 4], vec![]));
}

#[test]
fn sum_dim_and_mean_of_ones() {
    let mut ctx = ComputeContext::new();
    let t = NumericOps::ones(&mut ctx, Shape::new(vec![2, 2]));
    let t2 = t.share(&mut ctx);
    let s = NumericOps::sum_dim(&mut ctx, t, 0);
    assert_eq!(read(&mut ctx, s), (vec![1, 2], vec![2, 2]));
    let m = NumericOps::mean(&mut ctx, t2);
    assert_eq!(read(&mut ctx, m), (vec![1], vec![1]));
}

#[test]
fn reductions_along_each_axis() {
    let mut ctx = ComputeContext::new();
    let data = vec![3, 9, 1, 4, 9, 0];
    let make = |ctx: &mut ComputeContext| upload(ctx, vec![2, 3], data.clone());
    let t = make(&mut ctx);
    let s1 = NumericOps::sum_dim(&mut ctx, t, 1);
    assert_eq!(read(&mut ctx, s1), (vec![2, 1], vec![13, 13]));
    let t = make(&mut ctx);
    let m0 = NumericOps::mean_dim(&mut ctx, t, 0);
    assert_eq!(read(&mut ctx, m0), (vec![1, 3], vec![3, 9, 0]));
    let t = make(&mut ctx);
    let amax = NumericOps::argmax(&mut ctx, t, 1);
    assert_eq!(read(&mut ctx, amax), (vec![2, 1], vec![1, 1]));
    let t = make(&mut ctx);
    let amin = NumericOps::argmin(&mut ctx, t, 1);
    assert_eq!(read(&mut ctx, amin), (vec![2, 1], vec![2, 2]));
    let t = make(&mut ctx);
    let total = NumericOps::sum(&mut ctx, t);
    assert_eq!(read(&mut ctx, total), (vec![1], vec![26]));
    let t = make(&mut ctx);
    let mean = NumericOps::mean(&mut ctx, t);
    assert_eq!(read(&mut ctx, mean), (vec![1], vec![4]));
}

#[test]
fn reshape_keeps_row_major_order() {
    let mut ctx = ComputeContext::new();
    let t = upload(&mut ctx, vec![2, 3], vec![1, 2, 3, 4, 5, 6]);
    let r = BaseOps::reshape(&mut ctx, t, Shape::new(vec![3, 1, 2])).unwrap();
    assert_eq!(read(&mut ctx, r), (vec![3, 1, 2], vec![1, 2, 3, 4, 5, 6]));
    let t = upload(&mut ctx, vec![2, 3], vec![1, 2, 3, 4, 5, 6]);
    let bad = BaseOps::reshape(&mut ctx, t, Shape::new(vec![4, 2]));
    assert_eq!(bad.err(), Some(TensorError::ElementCountMismatch));
}

#[test]
fn host_round_trip_is_exact() {
    let mut ctx = ComputeContext::new();
    let values = vec![i32::MIN, -1, 0, 1, i32::MAX, 42];
    let t = upload(&mut ctx, vec![3, 2], values.clone());
    assert_eq!(read(&mut ctx, t), (vec![3, 2], values));
}

#[test]
fn comparisons_give_zero_one_tensors() {
    let mut ctx = ComputeContext::new();
    let a = vec![1, 5, 3];
    let b = vec![2, 5, 1];
    let mut run = |f: fn(&mut ComputeContext, Tensor, Tensor) -> Tensor| {
        let x = upload(&mut ctx, vec![3], a.clone());
        let y = upload(&mut ctx, vec![3], b.clone());
        let out = f(&mut ctx, x, y);
        read(&mut ctx, out).1
    };
    assert_eq!(run(BaseOps::equal), vec![0, 1, 0]);
    assert_eq!(run(BaseOps::greater), vec![0, 0, 1]);
    assert_eq!(run(BaseOps::greater_equal), vec![0, 1, 1]);
    assert_eq!(run(BaseOps::lower), vec![1, 0, 0]);
    assert_eq!(run(BaseOps::lower_equal), vec![1, 1, 0]);
    let mut run_elem = |f: fn(&mut ComputeContext, Tensor, i32) -> Tensor| {
        let x = upload(&mut ctx, vec![3], a.clone());
        let out = f(&mut ctx, x, 3);
        read(&mut ctx, out).1
    };
    assert_eq!(run_elem(BaseOps::equal_elem), vec![0, 0, 1]);
    assert_eq!(run_elem(BaseOps::greater_elem), vec![0, 1, 0]);
    assert_eq!(run_elem(BaseOps::greater_equal_elem), vec![0, 1, 1]);
    assert_eq!(run_elem(BaseOps::lower_elem), vec![1, 0, 0]);
    assert_eq!(run_elem(BaseOps::lower_equal_elem), vec![1, 0, 1]);
}

#[test]
fn adding_a_tensor_to_its_own_alias_allocates() {
    let mut ctx = ComputeContext::new();
    let a = upload(&mut ctx, vec![3], vec![1, 2, 3]);
    let same = a.share(&mut ctx);
    let buffer = a.buffer();
    let out = NumericOps::add(&mut ctx, a, same);
    assert_ne!(out.buffer(), buffer);
    assert_eq!(read(&mut ctx, out).1, vec![2, 4, 6]);
}

#[test]
fn to_device_copies_between_contexts() {
    let mut gpu0 = ComputeContext::for_device(0);
    let mut gpu1 = ComputeContext::for_device(1);
    let a = upload(&mut gpu0, vec![2], vec![7, 8]);
    let moved = BaseOps::to_device(&mut gpu0, a, 1, &mut gpu1);
    assert_eq!(read(&mut gpu1, moved), (vec![2], vec![7, 8]));
}

#[test]
fn to_own_device_is_a_no_op() {
    let mut gpu0 = ComputeContext::for_device(0);
    let mut gpu1 = ComputeContext::for_device(1);
    let a = upload(&mut gpu0, vec![2], vec![7, 8]);
    let buffer = a.buffer();
    let same = BaseOps::to_device(&mut gpu0, a, 0, &mut gpu1);
    assert_eq!(same.buffer(), buffer);
    assert_eq!(gpu1.buffer_count(), 0);
    assert_eq!(read(&mut gpu0, same), (vec![2], vec![7, 8]));
}

use wgpu_ops::base::{BaseOps, HostData};
use wgpu_ops::context::ComputeContext;
use wgpu_ops::elementwise::ElemOp;
use wgpu_ops::kernel::{kernel_key, KernelTemplate};
use wgpu_ops::numeric::NumericOps;
use wgpu_ops::shape::Shape;

#[test]
fn repeated_operations_compile_once() {
    let mut ctx = ComputeContext::new();
    let mut run = |ctx: &mut ComputeContext| {
        let a = BaseOps::from_data(ctx, HostData { value: vec![1, 2], shape: Shape::new(vec![2]) });
        let b = BaseOps::from_data(ctx, HostData { value: vec![3, 4], shape: Shape::new(vec![2]) });
        let c = NumericOps::add(ctx, a, b);
        BaseOps::into_data(ctx, c).value
    };
    assert_eq!(run(&mut ctx), vec![4, 6]);
    let after_first = ctx.compiled_count();
    assert_eq!(after_first, 1);
    assert_eq!(run(&mut ctx), vec![4, 6]);
    assert_eq!(ctx.compiled_count(), after_first);
}

#[test]
fn compile_returns_the_same_slot_for_a_known_key() {
    let mut ctx = ComputeContext::new();
    let add = kernel_key(KernelTemplate::Binary(ElemOp::Add));
    let sub = kernel_key(KernelTemplate::Binary(ElemOp::Sub));
    let first = ctx.compile(add);
    let other = ctx.compile(sub);
    let again = ctx.compile(add);
    assert_eq!(first, again);
    assert_ne!(first, other);
    assert_eq!(ctx.compiled_count(), 2);
}

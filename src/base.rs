use vstd::prelude::*;
use crate::kernel::{kernel_key, KernelTemplate};
use crate::context::{BufferState, ComputeContext};
use crate::ownership::{dropped, handed_over, release_one, release_two};
use crate::shape::{all_positive, lemma_prod_positive, lemma_prod_prefix_le, prod, Shape};
use crate::tensor::Tensor;

verus! {

/// Tensor contents in host memory: a shape and its elements in row-major order.
pub struct HostData {
    pub value: Vec<i32>,
    pub shape: Shape,
}

/// Why an operation refused its arguments.
#[derive(PartialEq, Eq, Structural, Debug, Clone, Copy)]
pub enum TensorError {
    /// The new shape does not hold the same number of elements.
    ElementCountMismatch,
    /// A range does not lie within the tensor's extent along its axis.
    IndexOutOfBounds,
    /// The written value does not have the shape of the addressed region.
    ShapeMismatch,
    /// The operation is not provided by this backend.
    Unsupported,
}

/// The comparisons that produce boolean tensors.
#[derive(PartialEq, Eq, Structural, Clone, Copy, Debug)]
pub enum CmpOp {
    Equal,
    Greater,
    GreaterEqual,
    Lower,
    LowerEqual,
}

pub open spec fn compare(op: CmpOp, a: i32, b: i32) -> bool {
    match op {
        CmpOp::Equal => a == b,
        CmpOp::Greater => a > b,
        CmpOp::GreaterEqual => a >= b,
        CmpOp::Lower => a < b,
        CmpOp::LowerEqual => a <= b,
    }
}

/// Boolean encoding in a buffer: one for true, zero for false.
pub open spec fn encode(b: bool) -> i32 {
    if b {
        1
    } else {
        0
    }
}

pub open spec fn compare_values(op: CmpOp, l: Seq<i32>, r: Seq<i32>) -> Seq<i32> {
    Seq::new(l.len(), |i: int| encode(compare(op, l[i], r[i])))
}

pub open spec fn compare_scalar_values(op: CmpOp, l: Seq<i32>, s: i32) -> Seq<i32> {
    Seq::new(l.len(), |i: int| encode(compare(op, l[i], s)))
}

fn compare_exec(op: CmpOp, a: i32, b: i32) -> (r: i32)
    ensures
        r == encode(compare(op, a, b)),
{
    let c = match op {
        CmpOp::Equal => a == b,
        CmpOp::Greater => a > b,
        CmpOp::GreaterEqual => a >= b,
        CmpOp::Lower => a < b,
        CmpOp::LowerEqual => a <= b,
    };
    if c {
        1
    } else {
        0
    }
}

/// Compares two tensors of one shape, or a tensor with a scalar when `rhs` is
/// `None`, into a fresh boolean buffer.
fn compare_kernel(ctx: &mut ComputeContext, op: CmpOp, lhs: &Tensor, rhs: Option<&Tensor>, s: i32) -> (out: Tensor)
    requires
        lhs.valid(old(ctx)),
        rhs is Some ==> rhs->0.valid(old(ctx)) && rhs->0.dims() == lhs.dims(),
    ensures
        final(ctx).wf(),
        out.buffer_id() == old(ctx).len(),
        out.dims() == lhs.dims(),
        final(ctx).view() == old(ctx).view().push(
            BufferState {
                data: match rhs {
                    Some(t) => compare_values(op, lhs.values(old(ctx)), t.values(old(ctx))),
                    None => compare_scalar_values(op, lhs.values(old(ctx)), s),
                },
                owners: 1,
            },
        ),
{
    let template = match rhs {
        Some(_) => KernelTemplate::Compare(op),
        None => KernelTemplate::CompareScalar(op),
    };
    ctx.compile(kernel_key(template));
    let ghost l = lhs.values(ctx);
    let ghost expected = match rhs {
        Some(t) => compare_values(op, l, t.values(ctx)),
        None => compare_scalar_values(op, l, s),
    };
    let ghost r = match rhs {
        Some(t) => t.values(ctx),
        None => Seq::empty(),
    };
    let lb = lhs.buffer();
    let n = ctx.buffer_len(lb);
    let ob = ctx.create_buffer(n);
    let mut i: usize = 0;
    while i < n
        invariant
            ctx.wf(),
            ob == old(ctx).len(),
            ctx.len() == ob + 1,
            lb < ob,
            l.len() == n,
            l == old(ctx).contents(lb),
            rhs is Some ==> rhs->0.buffer_id() < ob && r == old(ctx).contents(rhs->0.buffer_id())
                && r.len() == n,
            expected == match rhs {
                Some(t) => compare_values(op, l, r),
                None => compare_scalar_values(op, l, s),
            },
            forall|b: int| 0 <= b < ob ==> ctx.view()[b] == old(ctx).view()[b],
            ctx.owner_count(ob) == 1,
            ctx.contents(ob).len() == n,
            i <= n,
            forall|j: int| 0 <= j < i ==> ctx.contents(ob)[j] == expected[j],
        decreases n - i,
    {
        proof {
            assert(ctx.view()[lb as int] == old(ctx).view()[lb as int]);
        }
        let a = ctx.get(lb, i);
        let b = match rhs {
            Some(t) => {
                proof {
                    assert(ctx.view()[t.buffer_id() as int] == old(ctx).view()[t.buffer_id() as int]);
                }
                ctx.get(t.buffer(), i)
            },
            None => s,
        };
        let v = compare_exec(op, a, b);
        ctx.set(ob, i, v);
        i = i + 1;
    }
    proof {
        assert(ctx.contents(ob) =~= expected);
        assert(ctx.view() =~= old(ctx).view().push(BufferState { data: expected, owners: 1 }));
    }
    Tensor::from_parts(lhs.shape().clone_shape(), ob)
}

/// Shape and layout operations shared by every element kind.
pub struct BaseOps;

impl BaseOps {
    /// A fresh zero-filled tensor of the given shape.
    pub fn empty(ctx: &mut ComputeContext, shape: Shape) -> (out: Tensor)
        requires
            old(ctx).wf(),
            prod(shape@) <= usize::MAX,
        ensures
            final(ctx).wf(),
            out.valid(final(ctx)),
            out.dims() == shape@,
            out.buffer_id() == old(ctx).len(),
            final(ctx).view() == old(ctx).view().push(
                BufferState { data: Seq::new(prod(shape@), |i: int| 0i32), owners: 1 },
            ),
    {
        let n = shape.num_elements();
        let b = ctx.create_buffer(n);
        Tensor::from_parts(shape, b)
    }

    /// Uploads host data into a fresh tensor.
    pub fn from_data(ctx: &mut ComputeContext, data: HostData) -> (out: Tensor)
        requires
            old(ctx).wf(),
            data.value@.len() == prod(data.shape@),
        ensures
            final(ctx).device_id() == old(ctx).device_id(),
            final(ctx).wf(),
            out.valid(final(ctx)),
            out.dims() == data.shape@,
            out.buffer_id() == old(ctx).len(),
            final(ctx).view() == old(ctx).view().push(BufferState { data: data.value@, owners: 1 }),
    {
        let HostData { value, shape } = data;
        let b = ctx.create_buffer_with_data(value);
        Tensor::from_parts(shape, b)
    }

    /// Reads a tensor back to the host, dropping the handle.
    pub fn into_data(ctx: &mut ComputeContext, tensor: Tensor) -> (r: HostData)
        requires
            tensor.valid(old(ctx)),
        ensures
            final(ctx).device_id() == old(ctx).device_id(),
            final(ctx).wf(),
            r.value@ == tensor.values(old(ctx)),
            r.shape@ == tensor.dims(),
            final(ctx).view() == old(ctx).view().update(
                tensor.buffer_id() as int,
                crate::context::after_release(old(ctx).view()[tensor.buffer_id() as int]),
            ),
    {
        let value = ctx.read(tensor.buffer());
        let shape = tensor.shape().clone_shape();
        tensor.release(ctx);
        HostData { value, shape }
    }

    /// Moves a tensor held by `from` to the device `device`. When that is
    /// `from`'s own device nothing happens and the same handle comes back;
    /// otherwise the tensor is read back to the host and uploaded to `to`,
    /// the context of `device`, and the old handle is dropped.
    pub fn to_device(
        from: &mut ComputeContext,
        tensor: Tensor,
        device: usize,
        to: &mut ComputeContext,
    ) -> (out: Tensor)
        requires
            tensor.valid(old(from)),
            old(to).wf(),
            device != old(from).device_id() ==> old(to).device_id() == device,
        ensures
            final(from).wf(),
            final(to).wf(),
            final(from).device_id() == old(from).device_id(),
            final(to).device_id() == old(to).device_id(),
            device == old(from).device_id() ==> out == tensor && final(from).view() == old(from).view()
                && final(to).view() == old(to).view(),
            device != old(from).device_id() ==> out.valid(final(to)) && out.dims() == tensor.dims()
                && out.buffer_id() == old(to).len() && final(to).view() == old(to).view().push(
                BufferState { data: tensor.values(old(from)), owners: 1 },
            ) && final(from).view() == old(from).view().update(
                tensor.buffer_id() as int,
                crate::context::after_release(old(from).view()[tensor.buffer_id() as int]),
            ),
    {
        if device == from.device() {
            return tensor;
        }
        let data = Self::into_data(from, tensor);
        Self::from_data(to, data)
    }

    /// The same elements under another shape with the same element count; the
    /// buffer is shared, not copied. A different count is refused, and the
    /// handle is dropped.
    pub fn reshape(ctx: &mut ComputeContext, tensor: Tensor, shape: Shape) -> (r: Result<Tensor, TensorError>)
        requires
            tensor.valid(old(ctx)),
        ensures
            final(ctx).wf(),
            r is Err <==> prod(shape@) != prod(tensor.dims()),
            r is Err ==> dropped(old(ctx), final(ctx), seq![tensor.buffer_id()]),
            r is Err ==> r->Err_0 == TensorError::ElementCountMismatch && final(ctx).view()
                == old(ctx).view().update(
                tensor.buffer_id() as int,
                crate::context::after_release(old(ctx).view()[tensor.buffer_id() as int]),
            ),
            r is Ok ==> final(ctx).view() == old(ctx).view() && r->Ok_0.valid(final(ctx))
                && r->Ok_0.dims() == shape@ && r->Ok_0.buffer_id() == tensor.buffer_id(),
    {
        let n = ctx.buffer_len(tensor.buffer());
        let ghost tensor_b = tensor.buffer_id();
        proof {
            ctx.lemma_contents_len(tensor.buffer_id());
        }
        if !Self::holds_count(&shape, n) {
            let ghost c0 = *old(ctx);
            let ghost keep: int = -1;
            release_one(ctx, tensor, Ghost(c0), Ghost(keep));
            return Err(TensorError::ElementCountMismatch);
        }
        let b = tensor.buffer();
        Ok(Tensor::from_parts(shape, b))
    }

    /// Whether `shape` has exactly `n` elements, computed without overflow.
    fn holds_count(shape: &Shape, n: usize) -> (r: bool)
        ensures
            r == (prod(shape@) == n),
    {
        let k = shape.rank();
        let mut i: usize = 0;
        while i < k
            invariant
                k == shape@.len(),
                i <= k,
                forall|j: int| 0 <= j < i ==> shape@[j] >= 1,
            decreases k - i,
        {
            if shape.dims[i] == 0 {
                proof {
                    lemma_prod_positive(shape@);
                }
                return n == 0;
            }
            i = i + 1;
        }
        proof {
            lemma_prod_positive(shape@);
        }
        if n == 0 {
            return false;
        }
        let mut acc: usize = 1;
        let mut j: usize = 0;
        while j < k
            invariant
                k == shape@.len(),
                j <= k,
                all_positive(shape@),
                acc == prod(shape@.subrange(0, j as int)),
                acc <= n,
            decreases k - j,
        {
            let d = shape.dims[j];
            proof {
                let a = shape@.subrange(0, j + 1);
                assert(a.drop_last() =~= shape@.subrange(0, j as int));
                lemma_prod_prefix_le(shape@, j + 1);
            }
            if acc > n / d {
                proof {
                    assert(acc * d > n) by (nonlinear_arith)
                        requires acc > n / d, d > 0;
                }
                return false;
            }
            proof {
                assert(acc * d <= n) by (nonlinear_arith)
                    requires acc <= n / d, d > 0;
            }
            acc = acc * d;
            j = j + 1;
        }
        proof {
            assert(shape@.subrange(0, k as int) =~= shape@);
        }
        acc == n
    }

    /// Elementwise `==` of two tensors of one shape, as a boolean tensor.
    pub fn equal(ctx: &mut ComputeContext, lhs: Tensor, rhs: Tensor) -> (out: Tensor)
        requires
            lhs.valid(old(ctx)),
            rhs.valid(old(ctx)),
            lhs.dims() == rhs.dims(),
        ensures
            handed_over(old(ctx), final(ctx), seq![lhs.buffer_id(), rhs.buffer_id()], &out),
            out.buffer_id() == old(ctx).len(),
            out.dims() == lhs.dims(),
            out.values(final(ctx)) == compare_values(CmpOp::Equal, lhs.values(old(ctx)), rhs.values(old(ctx))),
    {
        Self::compare_tensors(ctx, CmpOp::Equal, lhs, rhs)
    }

    /// Elementwise `>` of two tensors of one shape, as a boolean tensor.
    pub fn greater(ctx: &mut ComputeContext, lhs: Tensor, rhs: Tensor) -> (out: Tensor)
        requires
            lhs.valid(old(ctx)),
            rhs.valid(old(ctx)),
            lhs.dims() == rhs.dims(),
        ensures
            handed_over(old(ctx), final(ctx), seq![lhs.buffer_id(), rhs.buffer_id()], &out),
            out.buffer_id() == old(ctx).len(),
            out.dims() == lhs.dims(),
            out.values(final(ctx)) == compare_values(CmpOp::Greater, lhs.values(old(ctx)), rhs.values(old(ctx))),
    {
        Self::compare_tensors(ctx, CmpOp::Greater, lhs, rhs)
    }

    /// Elementwise `>=` of two tensors of one shape, as a boolean tensor.
    pub fn greater_equal(ctx: &mut ComputeContext, lhs: Tensor, rhs: Tensor) -> (out: Tensor)
        requires
            lhs.valid(old(ctx)),
            rhs.valid(old(ctx)),
            lhs.dims() == rhs.dims(),
        ensures
            handed_over(old(ctx), final(ctx), seq![lhs.buffer_id(), rhs.buffer_id()], &out),
            out.buffer_id() == old(ctx).len(),
            out.dims() == lhs.dims(),
            out.values(final(ctx)) == compare_values(
                CmpOp::GreaterEqual,
                lhs.values(old(ctx)),
                rhs.values(old(ctx)),
            ),
    {
        Self::compare_tensors(ctx, CmpOp::GreaterEqual, lhs, rhs)
    }

    /// Elementwise `<` of two tensors of one shape, as a boolean tensor.
    pub fn lower(ctx: &mut ComputeContext, lhs: Tensor, rhs: Tensor) -> (out: Tensor)
        requires
            lhs.valid(old(ctx)),
            rhs.valid(old(ctx)),
            lhs.dims() == rhs.dims(),
        ensures
            handed_over(old(ctx), final(ctx), seq![lhs.buffer_id(), rhs.buffer_id()], &out),
            out.buffer_id() == old(ctx).len(),
            out.dims() == lhs.dims(),
            out.values(final(ctx)) == compare_values(CmpOp::Lower, lhs.values(old(ctx)), rhs.values(old(ctx))),
    {
        Self::compare_tensors(ctx, CmpOp::Lower, lhs, rhs)
    }

    /// Elementwise `<=` of two tensors of one shape, as a boolean tensor.
    pub fn lower_equal(ctx: &mut ComputeContext, lhs: Tensor, rhs: Tensor) -> (out: Tensor)
        requires
            lhs.valid(old(ctx)),
            rhs.valid(old(ctx)),
            lhs.dims() == rhs.dims(),
        ensures
            handed_over(old(ctx), final(ctx), seq![lhs.buffer_id(), rhs.buffer_id()], &out),
            out.buffer_id() == old(ctx).len(),
            out.dims() == lhs.dims(),
            out.values(final(ctx)) == compare_values(
                CmpOp::LowerEqual,
                lhs.values(old(ctx)),
                rhs.values(old(ctx)),
            ),
    {
        Self::compare_tensors(ctx, CmpOp::LowerEqual, lhs, rhs)
    }

    /// Each element `==` a scalar, as a boolean tensor.
    pub fn equal_elem(ctx: &mut ComputeContext, lhs: Tensor, rhs: i32) -> (out: Tensor)
        requires
            lhs.valid(old(ctx)),
        ensures
            handed_over(old(ctx), final(ctx), seq![lhs.buffer_id()], &out),
            out.buffer_id() == old(ctx).len(),
            out.dims() == lhs.dims(),
            out.values(final(ctx)) == compare_scalar_values(CmpOp::Equal, lhs.values(old(ctx)), rhs),
    {
        Self::compare_scalar(ctx, CmpOp::Equal, lhs, rhs)
    }

    /// Each element `>` a scalar, as a boolean tensor.
    pub fn greater_elem(ctx: &mut ComputeContext, lhs: Tensor, rhs: i32) -> (out: Tensor)
        requires
            lhs.valid(old(ctx)),
        ensures
            handed_over(old(ctx), final(ctx), seq![lhs.buffer_id()], &out),
            out.buffer_id() == old(ctx).len(),
            out.dims() == lhs.dims(),
            out.values(final(ctx)) == compare_scalar_values(CmpOp::Greater, lhs.values(old(ctx)), rhs),
    {
        Self::compare_scalar(ctx, CmpOp::Greater, lhs, rhs)
    }

    /// Each element `>=` a scalar, as a boolean tensor.
    pub fn greater_equal_elem(ctx: &mut ComputeContext, lhs: Tensor, rhs: i32) -> (out: Tensor)
        requires
            lhs.valid(old(ctx)),
        ensures
            handed_over(old(ctx), final(ctx), seq![lhs.buffer_id()], &out),
            out.buffer_id() == old(ctx).len(),
            out.dims() == lhs.dims(),
            out.values(final(ctx)) == compare_scalar_values(CmpOp::GreaterEqual, lhs.values(old(ctx)), rhs),
    {
        Self::compare_scalar(ctx, CmpOp::GreaterEqual, lhs, rhs)
    }

    /// Each element `<` a scalar, as a boolean tensor.
    pub fn lower_elem(ctx: &mut ComputeContext, lhs: Tensor, rhs: i32) -> (out: Tensor)
        requires
            lhs.valid(old(ctx)),
        ensures
            handed_over(old(ctx), final(ctx), seq![lhs.buffer_id()], &out),
            out.buffer_id() == old(ctx).len(),
            out.dims() == lhs.dims(),
            out.values(final(ctx)) == compare_scalar_values(CmpOp::Lower, lhs.values(old(ctx)), rhs),
    {
        Self::compare_scalar(ctx, CmpOp::Lower, lhs, rhs)
    }

    /// Each element `<=` a scalar, as a boolean tensor.
    pub fn lower_equal_elem(ctx: &mut ComputeContext, lhs: Tensor, rhs: i32) -> (out: Tensor)
        requires
            lhs.valid(old(ctx)),
        ensures
            handed_over(old(ctx), final(ctx), seq![lhs.buffer_id()], &out),
            out.buffer_id() == old(ctx).len(),
            out.dims() == lhs.dims(),
            out.values(final(ctx)) == compare_scalar_values(CmpOp::LowerEqual, lhs.values(old(ctx)), rhs),
    {
        Self::compare_scalar(ctx, CmpOp::LowerEqual, lhs, rhs)
    }

    fn compare_tensors(ctx: &mut ComputeContext, op: CmpOp, lhs: Tensor, rhs: Tensor) -> (out: Tensor)
        requires
            lhs.valid(old(ctx)),
            rhs.valid(old(ctx)),
            lhs.dims() == rhs.dims(),
        ensures
            handed_over(old(ctx), final(ctx), seq![lhs.buffer_id(), rhs.buffer_id()], &out),
            out.buffer_id() == old(ctx).len(),
            out.dims() == lhs.dims(),
            out.values(final(ctx)) == compare_values(op, lhs.values(old(ctx)), rhs.values(old(ctx))),
    {
        let out = compare_kernel(ctx, op, &lhs, Some(&rhs), 0);
        let ghost c0 = *old(ctx);
        let ghost keep: int = out.buffer_id() as int;
        release_two(ctx, lhs, rhs, Ghost(c0), Ghost(keep));
        proof {
        }
        out
    }

    fn compare_scalar(ctx: &mut ComputeContext, op: CmpOp, lhs: Tensor, rhs: i32) -> (out: Tensor)
        requires
            lhs.valid(old(ctx)),
        ensures
            handed_over(old(ctx), final(ctx), seq![lhs.buffer_id()], &out),
            out.buffer_id() == old(ctx).len(),
            out.dims() == lhs.dims(),
            out.values(final(ctx)) == compare_scalar_values(op, lhs.values(old(ctx)), rhs),
    {
        let out = compare_kernel(ctx, op, &lhs, None, rhs);
        let ghost c0 = *old(ctx);
        let ghost keep: int = out.buffer_id() as int;
        release_one(ctx, lhs, Ghost(c0), Ghost(keep));
        proof {
        }
        out
    }
}

} // verus!

use vstd::prelude::*;
use crate::base::{
    compare_scalar_values, compare_values, BaseOps, CmpOp, HostData, TensorError,
};
use crate::bool_ops::WgpuBackend;
use crate::cat::{buffers_of, cat, cat_compatible, cat_dims, cat_values, contents_of, extent_sum, shapes_of};
use crate::context::{BufferState, ComputeContext};
use crate::elementwise::{binary_values, broadcast_dims, broadcastable, div_elem, scalar_values, ElemOp};
use crate::gather::{gather_values, indices_in_range, same_off_axis, scatter_values};
use crate::mask::{filled_values, masked_values};
use crate::index::{assigned, ranges_valid, region_dims, region_lows, region_values};
use crate::numeric::{absorbs, NumericOps};
use crate::ownership::{dropped, handed_over, released_except, release_three, release_two};
use crate::reduce::{reduce_dim_values, reduced_dims, sum_of, Reduction};
use crate::shape::{prod, Shape};
use crate::tensor::Tensor;

verus! {

impl WgpuBackend {
    pub fn int_shape(tensor: &Tensor) -> (r: Shape)
        ensures
            r@ == tensor.dims(),
    {
        tensor.shape().clone_shape()
    }

    /// Selection of positions along an axis by a list of indices is not
    /// provided by this backend: every call is refused, and the handles are
    /// dropped.
    pub fn int_index_select_dim(ctx: &mut ComputeContext, tensor: Tensor, dim: usize, indexes: Tensor) -> (r: Result<Tensor, TensorError>)
        requires
            tensor.valid(old(ctx)),
            indexes.valid(old(ctx)),
        ensures
            r == Err::<Tensor, TensorError>(TensorError::Unsupported),
            dropped(old(ctx), final(ctx), seq![tensor.buffer_id(), indexes.buffer_id()]),
    {
        let ghost c0 = *old(ctx);
        let ghost keep: int = -1;
        release_two(ctx, tensor, indexes, Ghost(c0), Ghost(keep));
        Err(TensorError::Unsupported)
    }

    /// Assignment at positions along an axis selected by a list of indices is
    /// not provided by this backend: every call is refused, and the handles
    /// are dropped.
    pub fn int_index_select_dim_assign(
        ctx: &mut ComputeContext,
        tensor: Tensor,
        dim: usize,
        indexes: Tensor,
        value: Tensor,
    ) -> (r: Result<Tensor, TensorError>)
        requires
            tensor.valid(old(ctx)),
            indexes.valid(old(ctx)),
            value.valid(old(ctx)),
        ensures
            r == Err::<Tensor, TensorError>(TensorError::Unsupported),
            dropped(old(ctx), final(ctx), seq![tensor.buffer_id(), indexes.buffer_id(), value.buffer_id()]),
    {
        let ghost c0 = *old(ctx);
        let ghost keep: int = -1;
        release_three(ctx, tensor, indexes, value, Ghost(c0), Ghost(keep));
        Err(TensorError::Unsupported)
    }

    /// The device that holds the tensor: that of its context.
    pub fn int_device(ctx: &ComputeContext, tensor: &Tensor) -> (r: usize)
        ensures
            r == ctx.device_id(),
    {
        ctx.device()
    }

    /// Concatenates integer tensors along axis `dim`.
    pub fn int_cat(ctx: &mut ComputeContext, tensors: Vec<Tensor>, dim: usize) -> (out: Tensor)
        requires
            old(ctx).wf(),
            forall|t: int| 0 <= t < tensors@.len() ==> (#[trigger] tensors@[t]).valid(old(ctx)),
            cat_compatible(shapes_of(tensors@), dim as int),
            extent_sum(shapes_of(tensors@), dim as int) <= usize::MAX,
            prod(cat_dims(shapes_of(tensors@), dim as int)) <= usize::MAX,
        ensures
            final(ctx).wf(),
            out.valid(final(ctx)),
            out.dims() == cat_dims(shapes_of(tensors@), dim as int),
            cat_values(
                out.values(final(ctx)),
                contents_of(old(ctx), tensors@),
                shapes_of(tensors@),
                dim as int,
            ),
            released_except(old(ctx), final(ctx), buffers_of(tensors@), old(ctx).len() as int),
    {
        cat(ctx, tensors, dim)
    }


    /// A fresh zero-filled tensor of the given shape.
    pub fn int_empty(ctx: &mut ComputeContext, shape: Shape) -> (out: Tensor)
        requires
            old(ctx).wf(),
            prod(shape@) <= usize::MAX,
        ensures
            final(ctx).wf(),
            out.valid(final(ctx)),
            out.dims() == shape@,
            out.buffer_id() == old(ctx).len(),
            final(ctx).view() == old(ctx).view().push(
                BufferState { data: Seq::new(prod(shape@), |i: int| 0i32), owners: 1 },
            ),
    {
        BaseOps::empty(ctx, shape)
    }

    /// Reads a tensor back to the host, dropping the handle.
    pub fn int_into_data(ctx: &mut ComputeContext, tensor: Tensor) -> (r: HostData)
        requires
            tensor.valid(old(ctx)),
        ensures
            final(ctx).device_id() == old(ctx).device_id(),
            final(ctx).wf(),
            r.value@ == tensor.values(old(ctx)),
            r.shape@ == tensor.dims(),
            final(ctx).view() == old(ctx).view().update(
                tensor.buffer_id() as int,
                crate::context::after_release(old(ctx).view()[tensor.buffer_id() as int]),
            ),
    {
        BaseOps::into_data(ctx, tensor)
    }

    /// Uploads host data into a fresh tensor.
    pub fn int_from_data(ctx: &mut ComputeContext, data: HostData) -> (out: Tensor)
        requires
            old(ctx).wf(),
            data.value@.len() == prod(data.shape@),
        ensures
            final(ctx).device_id() == old(ctx).device_id(),
            final(ctx).wf(),
            out.valid(final(ctx)),
            out.dims() == data.shape@,
            out.buffer_id() == old(ctx).len(),
            final(ctx).view() == old(ctx).view().push(BufferState { data: data.value@, owners: 1 }),
    {
        BaseOps::from_data(ctx, data)
    }

    /// Moves a tensor held by `from` to the device `device`. When that is
    /// `from`'s own device nothing happens and the same handle comes back;
    /// otherwise the tensor is read back to the host and uploaded to `to`,
    /// the context of `device`, and the old handle is dropped.
    pub fn int_to_device(
        from: &mut ComputeContext,
        tensor: Tensor,
        device: usize,
        to: &mut ComputeContext,
    ) -> (out: Tensor)
        requires
            tensor.valid(old(from)),
            old(to).wf(),
            device != old(from).device_id() ==> old(to).device_id() == device,
        ensures
            final(from).wf(),
            final(to).wf(),
            final(from).device_id() == old(from).device_id(),
            final(to).device_id() == old(to).device_id(),
            device == old(from).device_id() ==> out == tensor && final(from).view() == old(from).view()
                && final(to).view() == old(to).view(),
            device != old(from).device_id() ==> out.valid(final(to)) && out.dims() == tensor.dims()
                && out.buffer_id() == old(to).len() && final(to).view() == old(to).view().push(
                BufferState { data: tensor.values(old(from)), owners: 1 },
            ) && final(from).view() == old(from).view().update(
                tensor.buffer_id() as int,
                crate::context::after_release(old(from).view()[tensor.buffer_id() as int]),
            ),
    {
        BaseOps::to_device(from, tensor, device, to)
    }

    /// The same elements under another shape with the same element count; the
    /// buffer is shared, not copied. A different count is refused, and the
    /// handle is dropped.
    pub fn int_reshape(ctx: &mut ComputeContext, tensor: Tensor, shape: Shape) -> (r: Result<Tensor, TensorError>)
        requires
            tensor.valid(old(ctx)),
        ensures
            final(ctx).wf(),
            r is Err <==> prod(shape@) != prod(tensor.dims()),
            r is Err ==> dropped(old(ctx), final(ctx), seq![tensor.buffer_id()]),
            r is Err ==> r->Err_0 == TensorError::ElementCountMismatch && final(ctx).view()
                == old(ctx).view().update(
                tensor.buffer_id() as int,
                crate::context::after_release(old(ctx).view()[tensor.buffer_id() as int]),
            ),
            r is Ok ==> final(ctx).view() == old(ctx).view() && r->Ok_0.valid(final(ctx))
                && r->Ok_0.dims() == shape@ && r->Ok_0.buffer_id() == tensor.buffer_id(),
    {
        BaseOps::reshape(ctx, tensor, shape)
    }

    /// The sub-tensor addressed by one range per leading axis, in a fresh
    /// buffer. Invalid ranges are refused. The handle is dropped either way.
    pub fn int_index(ctx: &mut ComputeContext, tensor: Tensor, ranges: Vec<std::ops::Range<usize>>) -> (r: Result<Tensor, TensorError>)
        requires
            tensor.valid(old(ctx)),
        ensures
            r is Err <==> !ranges_valid(tensor.dims(), ranges@),
            r is Err ==> r->Err_0 == TensorError::IndexOutOfBounds,
            r is Err ==> dropped(old(ctx), final(ctx), seq![tensor.buffer_id()]),
            r is Ok ==> handed_over(old(ctx), final(ctx), seq![tensor.buffer_id()], &r->Ok_0)
                && r->Ok_0.buffer_id() == old(ctx).len()
                && r->Ok_0.dims() == region_dims(tensor.dims(), ranges@)
                && r->Ok_0.values(final(ctx)) == region_values(
                    tensor.values(old(ctx)),
                    region_dims(tensor.dims(), ranges@),
                    tensor.dims(),
                    region_lows(tensor.dims(), ranges@),
                ),
    {
        BaseOps::index(ctx, tensor, ranges)
    }

    /// Writes `value` over the region addressed by one range per leading axis.
    /// The tensor's buffer is written in place only when the handle is its
    /// only owner; otherwise it is copied first, so other handles keep seeing
    /// the old elements. Invalid ranges, or a value of another shape than the
    /// region, are refused. Both handles are dropped.
    pub fn int_index_assign(
        ctx: &mut ComputeContext,
        tensor: Tensor,
        ranges: Vec<std::ops::Range<usize>>,
        value: Tensor,
    ) -> (r: Result<Tensor, TensorError>)
        requires
            tensor.valid(old(ctx)),
            value.valid(old(ctx)),
        ensures
            r is Err <==> !ranges_valid(tensor.dims(), ranges@) || value.dims() != region_dims(
                tensor.dims(),
                ranges@,
            ),
            r == Err::<Tensor, TensorError>(TensorError::IndexOutOfBounds) <==> !ranges_valid(tensor.dims(), ranges@),
            r == Err::<Tensor, TensorError>(TensorError::ShapeMismatch) <==> ranges_valid(tensor.dims(), ranges@)
                && value.dims() != region_dims(tensor.dims(), ranges@),
            r is Err ==> dropped(old(ctx), final(ctx), seq![tensor.buffer_id(), value.buffer_id()]),
            r is Ok ==> handed_over(old(ctx), final(ctx), seq![tensor.buffer_id(), value.buffer_id()], &r->Ok_0)
                && (r->Ok_0.buffer_id() == old(ctx).len() || r->Ok_0.buffer_id() == tensor.buffer_id())
                && r->Ok_0.dims() == tensor.dims()
                && assigned(
                    r->Ok_0.values(final(ctx)),
                    tensor.values(old(ctx)),
                    value.values(old(ctx)),
                    region_dims(tensor.dims(), ranges@),
                    tensor.dims(),
                    region_lows(tensor.dims(), ranges@),
                ),
    {
        BaseOps::index_assign(ctx, tensor, ranges, value)
    }

    /// Takes the elements of `value` where `mask` is true and those of
    /// `tensor` elsewhere; all three of one shape. The result reuses
    /// `tensor`'s buffer when its handle is the only owner and neither other
    /// operand reads it. The handles are dropped.
    pub fn int_mask_where(ctx: &mut ComputeContext, tensor: Tensor, mask: Tensor, value: Tensor) -> (out: Tensor)
        requires
            tensor.valid(old(ctx)),
            mask.valid(old(ctx)),
            value.valid(old(ctx)),
            mask.dims() == tensor.dims(),
            value.dims() == tensor.dims(),
        ensures
            final(ctx).wf(),
            out.valid(final(ctx)),
            out.dims() == tensor.dims(),
            final(ctx).owner_count(out.buffer_id()) == 1,
            out.buffer_id() as nat == if old(ctx).owner_count(tensor.buffer_id()) == 1 && tensor.buffer_id()
                != mask.buffer_id() && tensor.buffer_id() != value.buffer_id() {
                tensor.buffer_id() as nat
            } else {
                old(ctx).len()
            },
            out.values(final(ctx)) == masked_values(
                tensor.values(old(ctx)),
                mask.values(old(ctx)),
                value.values(old(ctx)),
            ),
            handed_over(old(ctx), final(ctx), seq![tensor.buffer_id(), mask.buffer_id(), value.buffer_id()], &out),
    {
        BaseOps::mask_where(ctx, tensor, mask, value)
    }

    /// Sets the elements of `tensor` where `mask` (of the same shape) is true
    /// to `value`. The result reuses `tensor`'s buffer when its handle is the
    /// only owner and the mask reads another buffer. The handles are dropped.
    pub fn int_mask_fill(ctx: &mut ComputeContext, tensor: Tensor, mask: Tensor, value: i32) -> (out: Tensor)
        requires
            tensor.valid(old(ctx)),
            mask.valid(old(ctx)),
            mask.dims() == tensor.dims(),
        ensures
            final(ctx).wf(),
            out.valid(final(ctx)),
            out.dims() == tensor.dims(),
            final(ctx).owner_count(out.buffer_id()) == 1,
            out.buffer_id() as nat == if old(ctx).owner_count(tensor.buffer_id()) == 1 && tensor.buffer_id()
                != mask.buffer_id() {
                tensor.buffer_id() as nat
            } else {
                old(ctx).len()
            },
            out.values(final(ctx)) == filled_values(tensor.values(old(ctx)), mask.values(old(ctx)), value),
            handed_over(old(ctx), final(ctx), seq![tensor.buffer_id(), mask.buffer_id()], &out),
    {
        BaseOps::mask_fill(ctx, tensor, mask, value)
    }

    /// Reads, for each position of `indexes`, the element of `tensor` at the
    /// same coordinates off axis `dim` and at the held index along it. An
    /// index outside the axis is refused. The handles are dropped.
    pub fn int_gather(ctx: &mut ComputeContext, dim: usize, tensor: Tensor, indexes: Tensor) -> (r: Result<Tensor, TensorError>)
        requires
            tensor.valid(old(ctx)),
            indexes.valid(old(ctx)),
            same_off_axis(tensor.dims(), indexes.dims(), dim as int),
        ensures
            final(ctx).wf(),
            r is Err <==> !indices_in_range(indexes.values(old(ctx)), tensor.dims()[dim as int] as nat),
            r is Err ==> r->Err_0 == TensorError::IndexOutOfBounds,
            r is Err ==> dropped(old(ctx), final(ctx), seq![tensor.buffer_id(), indexes.buffer_id()]),
            r is Ok ==> handed_over(old(ctx), final(ctx), seq![tensor.buffer_id(), indexes.buffer_id()], &r->Ok_0)
                && r->Ok_0.buffer_id() == old(ctx).len()
                && r->Ok_0.dims() == indexes.dims()
                && r->Ok_0.values(final(ctx)) == gather_values(
                    tensor.values(old(ctx)),
                    indexes.values(old(ctx)),
                    tensor.dims(),
                    dim as int,
                    indexes.dims()[dim as int] as nat,
                ),
    {
        BaseOps::gather(ctx, dim, tensor, indexes)
    }

    /// Adds each element of `value` into `tensor` at the same coordinates off
    /// axis `dim` and, along it, at the position held by `indexes` (both of
    /// one shape). An index outside the axis is refused. The result is a
    /// fresh buffer; the handles are dropped.
    pub fn int_scatter(
        ctx: &mut ComputeContext,
        dim: usize,
        tensor: Tensor,
        indexes: Tensor,
        value: Tensor,
    ) -> (r: Result<Tensor, TensorError>)
        requires
            tensor.valid(old(ctx)),
            indexes.valid(old(ctx)),
            value.valid(old(ctx)),
            same_off_axis(tensor.dims(), indexes.dims(), dim as int),
            value.dims() == indexes.dims(),
        ensures
            final(ctx).wf(),
            r is Err <==> !indices_in_range(indexes.values(old(ctx)), tensor.dims()[dim as int] as nat),
            r is Err ==> r->Err_0 == TensorError::IndexOutOfBounds,
            r is Err ==> dropped(old(ctx), final(ctx), seq![tensor.buffer_id(), indexes.buffer_id(), value.buffer_id()]),
            r is Ok ==> handed_over(
                old(ctx),
                final(ctx),
                seq![tensor.buffer_id(), indexes.buffer_id(), value.buffer_id()],
                &r->Ok_0,
            ) && r->Ok_0.buffer_id() == old(ctx).len()
                && r->Ok_0.dims() == tensor.dims()
                && r->Ok_0.values(final(ctx)) == scatter_values(
                    tensor.values(old(ctx)),
                    indexes.values(old(ctx)),
                    value.values(old(ctx)),
                    tensor.dims(),
                    dim as int,
                    indexes.dims()[dim as int] as nat,
                ),
    {
        BaseOps::scatter(ctx, dim, tensor, indexes, value)
    }

    /// Elementwise `==` of two tensors of one shape, as a boolean tensor.
    pub fn int_equal(ctx: &mut ComputeContext, lhs: Tensor, rhs: Tensor) -> (out: Tensor)
        requires
            lhs.valid(old(ctx)),
            rhs.valid(old(ctx)),
            lhs.dims() == rhs.dims(),
        ensures
            handed_over(old(ctx), final(ctx), seq![lhs.buffer_id(), rhs.buffer_id()], &out),
            out.buffer_id() == old(ctx).len(),
            out.dims() == lhs.dims(),
            out.values(final(ctx)) == compare_values(CmpOp::Equal, lhs.values(old(ctx)), rhs.values(old(ctx))),
    {
        BaseOps::equal(ctx, lhs, rhs)
    }

    /// Each element `==` a scalar, as a boolean tensor.
    pub fn int_equal_elem(ctx: &mut ComputeContext, lhs: Tensor, rhs: i32) -> (out: Tensor)
        requires
            lhs.valid(old(ctx)),
        ensures
            handed_over(old(ctx), final(ctx), seq![lhs.buffer_id()], &out),
            out.buffer_id() == old(ctx).len(),
            out.dims() == lhs.dims(),
            out.values(final(ctx)) == compare_scalar_values(CmpOp::Equal, lhs.values(old(ctx)), rhs),
    {
        BaseOps::equal_elem(ctx, lhs, rhs)
    }

    /// Elementwise `>` of two tensors of one shape, as a boolean tensor.
    pub fn int_greater(ctx: &mut ComputeContext, lhs: Tensor, rhs: Tensor) -> (out: Tensor)
        requires
            lhs.valid(old(ctx)),
            rhs.valid(old(ctx)),
            lhs.dims() == rhs.dims(),
        ensures
            handed_over(old(ctx), final(ctx), seq![lhs.buffer_id(), rhs.buffer_id()], &out),
            out.buffer_id() == old(ctx).len(),
            out.dims() == lhs.dims(),
            out.values(final(ctx)) == compare_values(CmpOp::Greater, lhs.values(old(ctx)), rhs.values(old(ctx))),
    {
        BaseOps::greater(ctx, lhs, rhs)
    }

    /// Each element `>` a scalar, as a boolean tensor.
    pub fn int_greater_elem(ctx: &mut ComputeContext, lhs: Tensor, rhs: i32) -> (out: Tensor)
        requires
            lhs.valid(old(ctx)),
        ensures
            handed_over(old(ctx), final(ctx), seq![lhs.buffer_id()], &out),
            out.buffer_id() == old(ctx).len(),
            out.dims() == lhs.dims(),
            out.values(final(ctx)) == compare_scalar_values(CmpOp::Greater, lhs.values(old(ctx)), rhs),
    {
        BaseOps::greater_elem(ctx, lhs, rhs)
    }

    /// Elementwise `>=` of two tensors of one shape, as a boolean tensor.
    pub fn int_greater_equal(ctx: &mut ComputeContext, lhs: Tensor, rhs: Tensor) -> (out: Tensor)
        requires
            lhs.valid(old(ctx)),
            rhs.valid(old(ctx)),
            lhs.dims() == rhs.dims(),
        ensures
            handed_over(old(ctx), final(ctx), seq![lhs.buffer_id(), rhs.buffer_id()], &out),
            out.buffer_id() == old(ctx).len(),
            out.dims() == lhs.dims(),
            out.values(final(ctx)) == compare_values(
                CmpOp::GreaterEqual,
                lhs.values(old(ctx)),
                rhs.values(old(ctx)),
            ),
    {
        BaseOps::greater_equal(ctx, lhs, rhs)
    }

    /// Each element `>=` a scalar, as a boolean tensor.
    pub fn int_greater_equal_elem(ctx: &mut ComputeContext, lhs: Tensor, rhs: i32) -> (out: Tensor)
        requires
            lhs.valid(old(ctx)),
        ensures
            handed_over(old(ctx), final(ctx), seq![lhs.buffer_id()], &out),
            out.buffer_id() == old(ctx).len(),
            out.dims() == lhs.dims(),
            out.values(final(ctx)) == compare_scalar_values(CmpOp::GreaterEqual, lhs.values(old(ctx)), rhs),
    {
        BaseOps::greater_equal_elem(ctx, lhs, rhs)
    }

    /// Elementwise `<` of two tensors of one shape, as a boolean tensor.
    pub fn int_lower(ctx: &mut ComputeContext, lhs: Tensor, rhs: Tensor) -> (out: Tensor)
        requires
            lhs.valid(old(ctx)),
            rhs.valid(old(ctx)),
            lhs.dims() == rhs.dims(),
        ensures
            handed_over(old(ctx), final(ctx), seq![lhs.buffer_id(), rhs.buffer_id()], &out),
            out.buffer_id() == old(ctx).len(),
            out.dims() == lhs.dims(),
            out.values(final(ctx)) == compare_values(CmpOp::Lower, lhs.values(old(ctx)), rhs.values(old(ctx))),
    {
        BaseOps::lower(ctx, lhs, rhs)
    }

    /// Each element `<` a scalar, as a boolean tensor.
    pub fn int_lower_elem(ctx: &mut ComputeContext, lhs: Tensor, rhs: i32) -> (out: Tensor)
        requires
            lhs.valid(old(ctx)),
        ensures
            handed_over(old(ctx), final(ctx), seq![lhs.buffer_id()], &out),
            out.buffer_id() == old(ctx).len(),
            out.dims() == lhs.dims(),
            out.values(final(ctx)) == compare_scalar_values(CmpOp::Lower, lhs.values(old(ctx)), rhs),
    {
        BaseOps::lower_elem(ctx, lhs, rhs)
    }

    /// Elementwise `<=` of two tensors of one shape, as a boolean tensor.
    pub fn int_lower_equal(ctx: &mut ComputeContext, lhs: Tensor, rhs: Tensor) -> (out: Tensor)
        requires
            lhs.valid(old(ctx)),
            rhs.valid(old(ctx)),
            lhs.dims() == rhs.dims(),
        ensures
            handed_over(old(ctx), final(ctx), seq![lhs.buffer_id(), rhs.buffer_id()], &out),
            out.buffer_id() == old(ctx).len(),
            out.dims() == lhs.dims(),
            out.values(final(ctx)) == compare_values(
                CmpOp::LowerEqual,
                lhs.values(old(ctx)),
                rhs.values(old(ctx)),
            ),
    {
        BaseOps::lower_equal(ctx, lhs, rhs)
    }

    /// Each element `<=` a scalar, as a boolean tensor.
    pub fn int_lower_equal_elem(ctx: &mut ComputeContext, lhs: Tensor, rhs: i32) -> (out: Tensor)
        requires
            lhs.valid(old(ctx)),
        ensures
            handed_over(old(ctx), final(ctx), seq![lhs.buffer_id()], &out),
            out.buffer_id() == old(ctx).len(),
            out.dims() == lhs.dims(),
            out.values(final(ctx)) == compare_scalar_values(CmpOp::LowerEqual, lhs.values(old(ctx)), rhs),
    {
        BaseOps::lower_equal_elem(ctx, lhs, rhs)
    }

    /// Elementwise sum with broadcasting; the result may reuse either
    /// operand's buffer when that operand is its only owner.
    pub fn int_add(ctx: &mut ComputeContext, lhs: Tensor, rhs: Tensor) -> (out: Tensor)
        requires
            lhs.valid(old(ctx)),
            rhs.valid(old(ctx)),
            broadcastable(lhs.dims(), rhs.dims()),
            prod(broadcast_dims(lhs.dims(), rhs.dims())) <= usize::MAX,
        ensures
            handed_over(old(ctx), final(ctx), seq![lhs.buffer_id(), rhs.buffer_id()], &out),
            out.buffer_id() as nat == if absorbs(old(ctx), &lhs, &rhs) {
                lhs.buffer_id() as nat
            } else if absorbs(old(ctx), &rhs, &lhs) {
                rhs.buffer_id() as nat
            } else {
                old(ctx).len()
            },
            out.dims() == broadcast_dims(lhs.dims(), rhs.dims()),
            out.values(final(ctx)) == binary_values(
                ElemOp::Add,
                lhs.values(old(ctx)),
                lhs.dims(),
                rhs.values(old(ctx)),
                rhs.dims(),
            ),
    {
        NumericOps::add(ctx, lhs, rhs)
    }

    /// Adds a scalar to every element, in place when the handle is the only
    /// owner of its buffer.
    pub fn int_add_scalar(ctx: &mut ComputeContext, lhs: Tensor, rhs: i32) -> (out: Tensor)
        requires
            lhs.valid(old(ctx)),
        ensures
            handed_over(old(ctx), final(ctx), seq![lhs.buffer_id()], &out),
            out.buffer_id() as nat == if old(ctx).owner_count(lhs.buffer_id()) == 1 {
                lhs.buffer_id() as nat
            } else {
                old(ctx).len()
            },
            out.dims() == lhs.dims(),
            out.values(final(ctx)) == scalar_values(ElemOp::Add, lhs.values(old(ctx)), rhs),
    {
        NumericOps::add_scalar(ctx, lhs, rhs)
    }

    /// Elementwise difference with broadcasting; the result may reuse the left
    /// operand's buffer when that operand is its only owner.
    pub fn int_sub(ctx: &mut ComputeContext, lhs: Tensor, rhs: Tensor) -> (out: Tensor)
        requires
            lhs.valid(old(ctx)),
            rhs.valid(old(ctx)),
            broadcastable(lhs.dims(), rhs.dims()),
            prod(broadcast_dims(lhs.dims(), rhs.dims())) <= usize::MAX,
        ensures
            handed_over(old(ctx), final(ctx), seq![lhs.buffer_id(), rhs.buffer_id()], &out),
            out.buffer_id() as nat == if absorbs(old(ctx), &lhs, &rhs) {
                lhs.buffer_id() as nat
            } else {
                old(ctx).len()
            },
            out.dims() == broadcast_dims(lhs.dims(), rhs.dims()),
            out.values(final(ctx)) == binary_values(
                ElemOp::Sub,
                lhs.values(old(ctx)),
                lhs.dims(),
                rhs.values(old(ctx)),
                rhs.dims(),
            ),
    {
        NumericOps::sub(ctx, lhs, rhs)
    }

    /// Subtracts a scalar from every element, in place when the handle is the
    /// only owner of its buffer.
    pub fn int_sub_scalar(ctx: &mut ComputeContext, lhs: Tensor, rhs: i32) -> (out: Tensor)
        requires
            lhs.valid(old(ctx)),
        ensures
            handed_over(old(ctx), final(ctx), seq![lhs.buffer_id()], &out),
            out.buffer_id() as nat == if old(ctx).owner_count(lhs.buffer_id()) == 1 {
                lhs.buffer_id() as nat
            } else {
                old(ctx).len()
            },
            out.dims() == lhs.dims(),
            out.values(final(ctx)) == scalar_values(ElemOp::Sub, lhs.values(old(ctx)), rhs),
    {
        NumericOps::sub_scalar(ctx, lhs, rhs)
    }

    /// Elementwise product with broadcasting; the result may reuse either
    /// operand's buffer when that operand is its only owner.
    pub fn int_mul(ctx: &mut ComputeContext, lhs: Tensor, rhs: Tensor) -> (out: Tensor)
        requires
            lhs.valid(old(ctx)),
            rhs.valid(old(ctx)),
            broadcastable(lhs.dims(), rhs.dims()),
            prod(broadcast_dims(lhs.dims(), rhs.dims())) <= usize::MAX,
        ensures
            handed_over(old(ctx), final(ctx), seq![lhs.buffer_id(), rhs.buffer_id()], &out),
            out.buffer_id() as nat == if absorbs(old(ctx), &lhs, &rhs) {
                lhs.buffer_id() as nat
            } else if absorbs(old(ctx), &rhs, &lhs) {
                rhs.buffer_id() as nat
            } else {
                old(ctx).len()
            },
            out.dims() == broadcast_dims(lhs.dims(), rhs.dims()),
            out.values(final(ctx)) == binary_values(
                ElemOp::Mul,
                lhs.values(old(ctx)),
                lhs.dims(),
                rhs.values(old(ctx)),
                rhs.dims(),
            ),
    {
        NumericOps::mul(ctx, lhs, rhs)
    }

    /// Multiplies every element by a scalar, in place when the handle is the
    /// only owner of its buffer.
    pub fn int_mul_scalar(ctx: &mut ComputeContext, lhs: Tensor, rhs: i32) -> (out: Tensor)
        requires
            lhs.valid(old(ctx)),
        ensures
            handed_over(old(ctx), final(ctx), seq![lhs.buffer_id()], &out),
            out.buffer_id() as nat == if old(ctx).owner_count(lhs.buffer_id()) == 1 {
                lhs.buffer_id() as nat
            } else {
                old(ctx).len()
            },
            out.dims() == lhs.dims(),
            out.values(final(ctx)) == scalar_values(ElemOp::Mul, lhs.values(old(ctx)), rhs),
    {
        NumericOps::mul_scalar(ctx, lhs, rhs)
    }

    /// Elementwise quotient with broadcasting; the result may reuse the left
    /// operand's buffer when that operand is its only owner.
    pub fn int_div(ctx: &mut ComputeContext, lhs: Tensor, rhs: Tensor) -> (out: Tensor)
        requires
            lhs.valid(old(ctx)),
            rhs.valid(old(ctx)),
            broadcastable(lhs.dims(), rhs.dims()),
            prod(broadcast_dims(lhs.dims(), rhs.dims())) <= usize::MAX,
        ensures
            handed_over(old(ctx), final(ctx), seq![lhs.buffer_id(), rhs.buffer_id()], &out),
            out.buffer_id() as nat == if absorbs(old(ctx), &lhs, &rhs) {
                lhs.buffer_id() as nat
            } else {
                old(ctx).len()
            },
            out.dims() == broadcast_dims(lhs.dims(), rhs.dims()),
            out.values(final(ctx)) == binary_values(
                ElemOp::Div,
                lhs.values(old(ctx)),
                lhs.dims(),
                rhs.values(old(ctx)),
                rhs.dims(),
            ),
    {
        NumericOps::div(ctx, lhs, rhs)
    }

    /// Divides every element by a scalar, in place when the handle is the only
    /// owner of its buffer.
    pub fn int_div_scalar(ctx: &mut ComputeContext, lhs: Tensor, rhs: i32) -> (out: Tensor)
        requires
            lhs.valid(old(ctx)),
        ensures
            handed_over(old(ctx), final(ctx), seq![lhs.buffer_id()], &out),
            out.buffer_id() as nat == if old(ctx).owner_count(lhs.buffer_id()) == 1 {
                lhs.buffer_id() as nat
            } else {
                old(ctx).len()
            },
            out.dims() == lhs.dims(),
            out.values(final(ctx)) == scalar_values(ElemOp::Div, lhs.values(old(ctx)), rhs),
    {
        NumericOps::div_scalar(ctx, lhs, rhs)
    }

    /// A fresh tensor of the given shape, every element zero.
    pub fn int_zeros(ctx: &mut ComputeContext, shape: Shape) -> (out: Tensor)
        requires
            old(ctx).wf(),
            prod(shape@) <= usize::MAX,
        ensures
            final(ctx).wf(),
            out.valid(final(ctx)),
            out.dims() == shape@,
            out.buffer_id() == old(ctx).len(),
            final(ctx).view() == old(ctx).view().push(
                BufferState { data: Seq::new(prod(shape@), |i: int| 0i32), owners: 1 },
            ),
    {
        NumericOps::zeros(ctx, shape)
    }

    /// A fresh tensor of the given shape, every element one: zeros with one
    /// added in place.
    pub fn int_ones(ctx: &mut ComputeContext, shape: Shape) -> (out: Tensor)
        requires
            old(ctx).wf(),
            prod(shape@) <= usize::MAX,
        ensures
            final(ctx).wf(),
            out.valid(final(ctx)),
            out.dims() == shape@,
            out.buffer_id() == old(ctx).len(),
            final(ctx).owner_count(out.buffer_id()) == 1,
            out.values(final(ctx)) == Seq::new(prod(shape@), |i: int| 1i32),
            forall|b: int| 0 <= b < old(ctx).len() ==> #[trigger] final(ctx).view()[b] == old(ctx).view()[b],
    {
        NumericOps::ones(ctx, shape)
    }

    /// Sum of all elements, as a one-element tensor of rank one.
    pub fn int_sum(ctx: &mut ComputeContext, tensor: Tensor) -> (out: Tensor)
        requires
            tensor.valid(old(ctx)),
        ensures
            handed_over(old(ctx), final(ctx), seq![tensor.buffer_id()], &out),
            out.buffer_id() == old(ctx).len(),
            out.dims() == seq![1usize],
            out.values(final(ctx)) == seq![sum_of(tensor.values(old(ctx)))],
    {
        NumericOps::sum(ctx, tensor)
    }

    /// Sum along one axis, which becomes of extent one.
    pub fn int_sum_dim(ctx: &mut ComputeContext, tensor: Tensor, dim: usize) -> (out: Tensor)
        requires
            tensor.valid(old(ctx)),
            dim < tensor.dims().len(),
            prod(reduced_dims(tensor.dims(), dim as int)) <= usize::MAX,
        ensures
            handed_over(old(ctx), final(ctx), seq![tensor.buffer_id()], &out),
            out.dims() == reduced_dims(tensor.dims(), dim as int),
            out.values(final(ctx)) == reduce_dim_values(
                Reduction::Sum,
                tensor.values(old(ctx)),
                tensor.dims(),
                dim as int,
            ),
    {
        NumericOps::sum_dim(ctx, tensor, dim)
    }

    /// Mean of all elements: their sum divided by their count.
    pub fn int_mean(ctx: &mut ComputeContext, tensor: Tensor) -> (out: Tensor)
        requires
            tensor.valid(old(ctx)),
        ensures
            handed_over(old(ctx), final(ctx), seq![tensor.buffer_id()], &out),
            out.buffer_id() == old(ctx).len(),
            out.dims() == seq![1usize],
            out.values(final(ctx)) == seq![
                div_elem(sum_of(tensor.values(old(ctx))), tensor.values(old(ctx)).len() as i32),
            ],
    {
        NumericOps::mean(ctx, tensor)
    }

    /// Mean along one axis, which becomes of extent one.
    pub fn int_mean_dim(ctx: &mut ComputeContext, tensor: Tensor, dim: usize) -> (out: Tensor)
        requires
            tensor.valid(old(ctx)),
            dim < tensor.dims().len(),
            prod(reduced_dims(tensor.dims(), dim as int)) <= usize::MAX,
        ensures
            handed_over(old(ctx), final(ctx), seq![tensor.buffer_id()], &out),
            out.dims() == reduced_dims(tensor.dims(), dim as int),
            out.values(final(ctx)) == reduce_dim_values(
                Reduction::Mean,
                tensor.values(old(ctx)),
                tensor.dims(),
                dim as int,
            ),
    {
        NumericOps::mean_dim(ctx, tensor, dim)
    }

    /// Position along one axis of the first greatest element; the axis becomes
    /// of extent one.
    pub fn int_argmax(ctx: &mut ComputeContext, tensor: Tensor, dim: usize) -> (out: Tensor)
        requires
            tensor.valid(old(ctx)),
            dim < tensor.dims().len(),
            prod(reduced_dims(tensor.dims(), dim as int)) <= usize::MAX,
        ensures
            handed_over(old(ctx), final(ctx), seq![tensor.buffer_id()], &out),
            out.dims() == reduced_dims(tensor.dims(), dim as int),
            out.values(final(ctx)) == reduce_dim_values(
                Reduction::ArgMax,
                tensor.values(old(ctx)),
                tensor.dims(),
                dim as int,
            ),
    {
        NumericOps::argmax(ctx, tensor, dim)
    }

    /// Position along one axis of the first least element; the axis becomes
    /// of extent one.
    pub fn int_argmin(ctx: &mut ComputeContext, tensor: Tensor, dim: usize) -> (out: Tensor)
        requires
            tensor.valid(old(ctx)),
            dim < tensor.dims().len(),
            prod(reduced_dims(tensor.dims(), dim as int)) <= usize::MAX,
        ensures
            handed_over(old(ctx), final(ctx), seq![tensor.buffer_id()], &out),
            out.dims() == reduced_dims(tensor.dims(), dim as int),
            out.values(final(ctx)) == reduce_dim_values(
                Reduction::ArgMin,
                tensor.values(old(ctx)),
                tensor.dims(),
                dim as int,
            ),
    {
        NumericOps::argmin(ctx, tensor, dim)
    }
}

} // verus!

use vstd::prelude::*;
use crate::base::{compare_scalar_values, compare_values, encode, BaseOps, CmpOp, HostData, TensorError};
use crate::cat::{buffers_of, cat, cat_compatible, cat_dims, cat_values, contents_of, extent_sum, shapes_of};
use crate::context::{after_release, BufferState, ComputeContext};
use crate::index::{assigned, ranges_valid, region_dims, region_lows, region_values};
use crate::ownership::{dropped, handed_over, released_except};
use crate::shape::{prod, Shape};
use crate::tensor::Tensor;

verus! {

/// Boolean tensor contents in host memory, row-major.
pub struct BoolData {
    pub value: Vec<bool>,
    pub shape: Shape,
}

/// Reading a buffer element as a boolean: anything but zero is true.
pub open spec fn decode(x: i32) -> bool {
    x != 0
}

pub open spec fn encode_all(v: Seq<bool>) -> Seq<i32> {
    Seq::new(v.len(), |i: int| encode(v[i]))
}

pub open spec fn decode_all(v: Seq<i32>) -> Seq<bool> {
    Seq::new(v.len(), |i: int| decode(v[i]))
}

/// The elements are booleans as stored: each one or zero.
pub open spec fn bool_valued(v: Seq<i32>) -> bool {
    forall|i: int| 0 <= i < v.len() ==> #[trigger] v[i] == 0 || v[i] == 1
}

/// Encoding booleans as one and zero and reading them back gives the same
/// booleans.
pub proof fn lemma_bool_round_trip(v: Seq<bool>)
    ensures
        decode_all(encode_all(v)) == v,
{
    assert(decode_all(encode_all(v)) =~= v);
}

/// The backend's operations on boolean and integer tensors. Booleans are
/// stored as one and zero in 32-bit buffers, the width of the integer kind.
pub struct WgpuBackend;

impl WgpuBackend {
    /// A fresh all-false boolean tensor.
    pub fn bool_empty(ctx: &mut ComputeContext, shape: Shape) -> (out: Tensor)
        requires
            old(ctx).wf(),
            prod(shape@) <= usize::MAX,
        ensures
            final(ctx).wf(),
            out.valid(final(ctx)),
            out.dims() == shape@,
            out.buffer_id() == old(ctx).len(),
            final(ctx).view() == old(ctx).view().push(
                BufferState { data: Seq::new(prod(shape@), |i: int| 0i32), owners: 1 },
            ),
            bool_valued(out.values(final(ctx))),
    {
        BaseOps::empty(ctx, shape)
    }

    pub fn bool_shape(tensor: &Tensor) -> (r: Shape)
        ensures
            r@ == tensor.dims(),
    {
        tensor.shape().clone_shape()
    }

    /// Reads a boolean tensor back to the host, dropping the handle.
    pub fn bool_into_data(ctx: &mut ComputeContext, tensor: Tensor) -> (r: BoolData)
        requires
            tensor.valid(old(ctx)),
        ensures
            final(ctx).wf(),
            r.value@ == decode_all(tensor.values(old(ctx))),
            r.shape@ == tensor.dims(),
            final(ctx).view() == old(ctx).view().update(
                tensor.buffer_id() as int,
                after_release(old(ctx).view()[tensor.buffer_id() as int]),
            ),
    {
        let data = BaseOps::into_data(ctx, tensor);
        let n = data.value.len();
        let mut value: Vec<bool> = Vec::with_capacity(n);
        let mut i: usize = 0;
        while i < n
            invariant
                n == data.value@.len(),
                i <= n,
                value@ =~= decode_all(data.value@).take(i as int),
            decreases n - i,
        {
            value.push(data.value[i] != 0);
            i = i + 1;
        }
        proof {
            assert(decode_all(data.value@).take(n as int) =~= decode_all(data.value@));
        }
        BoolData { value, shape: data.shape }
    }

    /// Uploads boolean host data, true as one and false as zero.
    pub fn bool_from_data(ctx: &mut ComputeContext, data: BoolData) -> (out: Tensor)
        requires
            old(ctx).wf(),
            data.value@.len() == prod(data.shape@),
        ensures
            final(ctx).wf(),
            out.valid(final(ctx)),
            out.dims() == data.shape@,
            out.buffer_id() == old(ctx).len(),
            final(ctx).view() == old(ctx).view().push(
                BufferState { data: encode_all(data.value@), owners: 1 },
            ),
            bool_valued(out.values(final(ctx))),
    {
        let BoolData { value, shape } = data;
        let n = value.len();
        let mut ints: Vec<i32> = Vec::with_capacity(n);
        let mut i: usize = 0;
        while i < n
            invariant
                n == value@.len(),
                i <= n,
                ints@ =~= encode_all(value@).take(i as int),
            decreases n - i,
        {
            ints.push(
                match value[i] {
                    true => 1,
                    false => 0,
                },
            );
            i = i + 1;
        }
        proof {
            assert(encode_all(value@).take(n as int) =~= encode_all(value@));
        }
        let out = BaseOps::from_data(ctx, HostData { value: ints, shape });
        proof {
            assert(out.values(ctx) == encode_all(value@));
        }
        out
    }

    /// The same tensor seen as integers: booleans already are stored as one
    /// and zero at integer width, so nothing moves.
    pub fn bool_into_int(tensor: Tensor) -> (out: Tensor)
        ensures
            out == tensor,
    {
        tensor
    }

    /// The same elements under another shape of equal element count.
    pub fn bool_reshape(ctx: &mut ComputeContext, tensor: Tensor, shape: Shape) -> (r: Result<Tensor, TensorError>)
        requires
            tensor.valid(old(ctx)),
        ensures
            final(ctx).wf(),
            r is Err <==> prod(shape@) != prod(tensor.dims()),
            r is Err ==> dropped(old(ctx), final(ctx), seq![tensor.buffer_id()]),
            r is Ok ==> final(ctx).view() == old(ctx).view() && r->Ok_0.valid(final(ctx))
                && r->Ok_0.dims() == shape@ && r->Ok_0.buffer_id() == tensor.buffer_id(),
    {
        BaseOps::reshape(ctx, tensor, shape)
    }

    /// The boolean sub-tensor addressed by one range per leading axis.
    pub fn bool_index(ctx: &mut ComputeContext, tensor: Tensor, ranges: Vec<std::ops::Range<usize>>) -> (r: Result<Tensor, TensorError>)
        requires
            tensor.valid(old(ctx)),
        ensures
            r is Err <==> !ranges_valid(tensor.dims(), ranges@),
            r is Err ==> dropped(old(ctx), final(ctx), seq![tensor.buffer_id()]),
            r is Ok ==> handed_over(old(ctx), final(ctx), seq![tensor.buffer_id()], &r->Ok_0)
                && r->Ok_0.dims() == region_dims(tensor.dims(), ranges@)
                && r->Ok_0.values(final(ctx)) == region_values(
                    tensor.values(old(ctx)),
                    region_dims(tensor.dims(), ranges@),
                    tensor.dims(),
                    region_lows(tensor.dims(), ranges@),
                ),
    {
        BaseOps::index(ctx, tensor, ranges)
    }

    /// Writes a boolean tensor over the addressed region, copying the buffer
    /// first unless the handle is its only owner.
    pub fn bool_index_assign(
        ctx: &mut ComputeContext,
        tensor: Tensor,
        ranges: Vec<std::ops::Range<usize>>,
        value: Tensor,
    ) -> (r: Result<Tensor, TensorError>)
        requires
            tensor.valid(old(ctx)),
            value.valid(old(ctx)),
        ensures
            r is Err <==> !ranges_valid(tensor.dims(), ranges@) || value.dims() != region_dims(
                tensor.dims(),
                ranges@,
            ),
            r is Err ==> dropped(old(ctx), final(ctx), seq![tensor.buffer_id(), value.buffer_id()]),
            r is Ok ==> handed_over(old(ctx), final(ctx), seq![tensor.buffer_id(), value.buffer_id()], &r->Ok_0)
                && r->Ok_0.dims() == tensor.dims()
                && assigned(
                    r->Ok_0.values(final(ctx)),
                    tensor.values(old(ctx)),
                    value.values(old(ctx)),
                    region_dims(tensor.dims(), ranges@),
                    tensor.dims(),
                    region_lows(tensor.dims(), ranges@),
                ),
    {
        BaseOps::index_assign(ctx, tensor, ranges, value)
    }

    /// The device that holds the tensor: that of its context.
    pub fn bool_device(ctx: &ComputeContext, tensor: &Tensor) -> (r: usize)
        ensures
            r == ctx.device_id(),
    {
        ctx.device()
    }

    /// Concatenates boolean tensors along axis `dim`.
    pub fn bool_cat(ctx: &mut ComputeContext, tensors: Vec<Tensor>, dim: usize) -> (out: Tensor)
        requires
            old(ctx).wf(),
            forall|t: int| 0 <= t < tensors@.len() ==> (#[trigger] tensors@[t]).valid(old(ctx)),
            cat_compatible(shapes_of(tensors@), dim as int),
            extent_sum(shapes_of(tensors@), dim as int) <= usize::MAX,
            prod(cat_dims(shapes_of(tensors@), dim as int)) <= usize::MAX,
        ensures
            final(ctx).wf(),
            out.valid(final(ctx)),
            out.dims() == cat_dims(shapes_of(tensors@), dim as int),
            cat_values(
                out.values(final(ctx)),
                contents_of(old(ctx), tensors@),
                shapes_of(tensors@),
                dim as int,
            ),
            released_except(old(ctx), final(ctx), buffers_of(tensors@), old(ctx).len() as int),
    {
        cat(ctx, tensors, dim)
    }

    /// Elementwise equality of two boolean tensors of one shape.
    pub fn bool_equal(ctx: &mut ComputeContext, lhs: Tensor, rhs: Tensor) -> (out: Tensor)
        requires
            lhs.valid(old(ctx)),
            rhs.valid(old(ctx)),
            lhs.dims() == rhs.dims(),
            bool_valued(lhs.values(old(ctx))),
            bool_valued(rhs.values(old(ctx))),
        ensures
            handed_over(old(ctx), final(ctx), seq![lhs.buffer_id(), rhs.buffer_id()], &out),
            out.dims() == lhs.dims(),
            out.values(final(ctx)) == compare_values(CmpOp::Equal, lhs.values(old(ctx)), rhs.values(old(ctx))),
            bool_valued(out.values(final(ctx))),
            decode_all(out.values(final(ctx))) == Seq::new(
                lhs.values(old(ctx)).len(),
                |i: int| decode(lhs.values(old(ctx))[i]) == decode(rhs.values(old(ctx))[i]),
            ),
    {
        let ghost l = lhs.values(ctx);
        let ghost r = rhs.values(ctx);
        let out = BaseOps::equal(ctx, lhs, rhs);
        proof {
            assert(decode_all(out.values(ctx)) =~= Seq::new(l.len(), |i: int| decode(l[i]) == decode(r[i])));
        }
        out
    }

    /// Whether each element of a boolean tensor equals `rhs`.
    pub fn bool_equal_elem(ctx: &mut ComputeContext, lhs: Tensor, rhs: bool) -> (out: Tensor)
        requires
            lhs.valid(old(ctx)),
            bool_valued(lhs.values(old(ctx))),
        ensures
            handed_over(old(ctx), final(ctx), seq![lhs.buffer_id()], &out),
            out.dims() == lhs.dims(),
            out.values(final(ctx)) == compare_scalar_values(CmpOp::Equal, lhs.values(old(ctx)), encode(rhs)),
            bool_valued(out.values(final(ctx))),
            decode_all(out.values(final(ctx))) == Seq::new(
                lhs.values(old(ctx)).len(),
                |i: int| decode(lhs.values(old(ctx))[i]) == rhs,
            ),
    {
        let ghost l = lhs.values(ctx);
        let out = BaseOps::equal_elem(
            ctx,
            lhs,
            match rhs {
                true => 1,
                false => 0,
            },
        );
        proof {
            assert(decode_all(out.values(ctx)) =~= Seq::new(l.len(), |i: int| decode(l[i]) == rhs));
        }
        out
    }
}

} // verus!

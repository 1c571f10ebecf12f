use vstd::prelude::*;
use crate::context::ComputeContext;
use crate::shape::{prod, Shape};

verus! {

/// A tensor handle: a shape and a reference to a device buffer, which other
/// handles may share. Handles are made by the operations of this crate only,
/// so that each one is counted among its buffer's owners.
pub struct Tensor {
    shape: Shape,
    buffer: usize,
}

impl Tensor {
    pub closed spec fn dims(&self) -> Seq<usize> {
        self.shape@
    }

    pub closed spec fn buffer_id(&self) -> usize {
        self.buffer
    }

    /// The handle refers to a live buffer that holds one element per position
    /// of its shape.
    pub open spec fn valid(&self, ctx: &ComputeContext) -> bool {
        &&& ctx.wf()
        &&& ctx.live(self.buffer_id())
        &&& ctx.contents(self.buffer_id()).len() == prod(self.dims())
    }

    /// The elements of the tensor, in row-major order.
    pub open spec fn values(&self, ctx: &ComputeContext) -> Seq<i32> {
        ctx.contents(self.buffer_id())
    }

    pub(crate) fn from_parts(shape: Shape, buffer: usize) -> (r: Tensor)
        ensures
            r.dims() == shape@,
            r.buffer_id() == buffer,
    {
        Tensor { shape, buffer }
    }

    pub fn shape(&self) -> (r: &Shape)
        ensures
            r@ == self.dims(),
    {
        &self.shape
    }

    pub fn buffer(&self) -> (r: usize)
        ensures
            r == self.buffer_id(),
    {
        self.buffer
    }

    /// A second handle on the same buffer.
    pub fn share(&self, ctx: &mut ComputeContext) -> (r: Tensor)
        requires
            self.valid(old(ctx)),
            old(ctx).owner_count(self.buffer_id()) < usize::MAX,
        ensures
            final(ctx).device_id() == old(ctx).device_id(),
            final(ctx).wf(),
            r.dims() == self.dims(),
            r.buffer_id() == self.buffer_id(),
            final(ctx).view() == old(ctx).view().update(
                self.buffer_id() as int,
                crate::context::BufferState {
                    data: old(ctx).contents(self.buffer_id()),
                    owners: old(ctx).owner_count(self.buffer_id()) + 1,
                },
            ),
    {
        ctx.retain(self.buffer);
        Tensor { shape: self.shape.clone_shape(), buffer: self.buffer }
    }

    /// Drops the handle.
    pub fn release(self, ctx: &mut ComputeContext)
        requires
            old(ctx).wf(),
            self.buffer_id() < old(ctx).len(),
        ensures
            final(ctx).device_id() == old(ctx).device_id(),
            final(ctx).wf(),
            final(ctx).view() == old(ctx).view().update(
                self.buffer_id() as int,
                crate::context::after_release(old(ctx).view()[self.buffer_id() as int]),
            ),
    {
        ctx.release(self.buffer);
    }
}

} // verus!

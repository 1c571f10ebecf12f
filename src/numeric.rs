use vstd::prelude::*;
use crate::context::{BufferState, ComputeContext};
use crate::elementwise::{
    binary_kernel, binary_kernel_inplace, binary_values, broadcast_dims, broadcastable,
    commutative, lemma_broadcast_fits, lemma_inplace_matches_allocating,
    lemma_swapped_inplace_matches_allocating, scalar_kernel, scalar_kernel_inplace,
    scalar_values, ElemOp,
};
use crate::shape::{prod, Shape};
use crate::ownership::{
    handed_over, lemma_count_small, lemma_released_list_kept, lemma_released_start, release_recorded,
};
use crate::tensor::Tensor;

verus! {

/// The result of combining `a` with `b` may be written over `a`: its handle
/// is the only owner of its buffer, `b` reads another buffer, and the
/// broadcast shape is already the shape of `a`.
pub open spec fn absorbs(ctx: &ComputeContext, a: &Tensor, b: &Tensor) -> bool {
    &&& ctx.owner_count(a.buffer_id()) == 1
    &&& a.buffer_id() != b.buffer_id()
    &&& broadcast_dims(a.dims(), b.dims()) == a.dims()
}

impl Tensor {
    /// The handle is the only owner of its buffer.
    pub fn can_mut(&self, ctx: &ComputeContext) -> (r: bool)
        requires
            self.valid(ctx),
        ensures
            r == (ctx.owner_count(self.buffer_id()) == 1),
    {
        ctx.is_exclusive(self.buffer())
    }

    /// The result of combining `self` with `other` may be written over `self`:
    /// it is the only owner of its buffer, `other` reads another buffer, and
    /// the broadcast shape is already the shape of `self`.
    pub fn can_mut_broadcast(&self, ctx: &ComputeContext, other: &Tensor) -> (r: bool)
        requires
            self.valid(ctx),
            other.valid(ctx),
            broadcastable(self.dims(), other.dims()),
        ensures
            r == absorbs(ctx, self, other),
    {
        if !ctx.is_exclusive(self.buffer()) || self.buffer() == other.buffer() {
            return false;
        }
        let a = self.shape();
        let b = other.shape();
        let n = a.rank();
        let mut k: usize = 0;
        while k < n
            invariant
                n == a@.len(),
                n == b@.len(),
                a@ == self.dims(),
                b@ == other.dims(),
                k <= n,
                forall|j: int| 0 <= j < k ==> broadcast_dims(a@, b@)[j] == a@[j],
            decreases n - k,
        {
            if a.dims[k] == 1 && b.dims[k] != 1 {
                assert(broadcast_dims(a@, b@)[k as int] != a@[k as int]);
                assert(broadcast_dims(self.dims(), other.dims()) != self.dims());
                return false;
            }
            k = k + 1;
        }
        assert(broadcast_dims(a@, b@) =~= a@);
        true
    }
}

/// Elementwise arithmetic, reductions and constant tensors over 32-bit signed
/// elements.
pub struct NumericOps;

impl NumericOps {
    /// A fresh tensor of the given shape, every element zero.
    pub fn zeros(ctx: &mut ComputeContext, shape: Shape) -> (out: Tensor)
        requires
            old(ctx).wf(),
            prod(shape@) <= usize::MAX,
        ensures
            final(ctx).wf(),
            out.valid(final(ctx)),
            out.dims() == shape@,
            out.buffer_id() == old(ctx).len(),
            final(ctx).view() == old(ctx).view().push(
                BufferState { data: Seq::new(prod(shape@), |i: int| 0i32), owners: 1 },
            ),
    {
        let n = shape.num_elements();
        let b = ctx.create_buffer(n);
        Tensor::from_parts(shape, b)
    }

    /// A fresh tensor of the given shape, every element one: zeros with one
    /// added in place.
    pub fn ones(ctx: &mut ComputeContext, shape: Shape) -> (out: Tensor)
        requires
            old(ctx).wf(),
            prod(shape@) <= usize::MAX,
        ensures
            final(ctx).wf(),
            out.valid(final(ctx)),
            out.dims() == shape@,
            out.buffer_id() == old(ctx).len(),
            final(ctx).owner_count(out.buffer_id()) == 1,
            out.values(final(ctx)) == Seq::new(prod(shape@), |i: int| 1i32),
            forall|b: int| 0 <= b < old(ctx).len() ==> #[trigger] final(ctx).view()[b] == old(ctx).view()[b],
    {
        let z = Self::zeros(ctx, shape);
        let ghost zc = *ctx;
        let ghost z_b = z.buffer_id();
        let out = Self::add_scalar(ctx, z, 1);
        proof {
            assert(out.values(ctx) =~= Seq::new(prod(out.dims()), |i: int| 1i32));
            assert forall|b: int| 0 <= b < old(ctx).len() implies #[trigger] ctx.view()[b] == old(ctx).view()[b] by {
                lemma_count_small(z_b, z_b, b as usize);
                assert(ctx.view()[(b as usize) as int] == zc.view()[(b as usize) as int]);
            }
        }
        out
    }

    fn binary(ctx: &mut ComputeContext, op: ElemOp, lhs: Tensor, rhs: Tensor, swap: bool) -> (out: Tensor)
        requires
            lhs.valid(old(ctx)),
            rhs.valid(old(ctx)),
            broadcastable(lhs.dims(), rhs.dims()),
            prod(broadcast_dims(lhs.dims(), rhs.dims())) <= usize::MAX,
            swap ==> commutative(op),
        ensures
            handed_over(old(ctx), final(ctx), seq![lhs.buffer_id(), rhs.buffer_id()], &out),
            out.buffer_id() as nat == if absorbs(old(ctx), &lhs, &rhs) {
                lhs.buffer_id() as nat
            } else if swap && absorbs(old(ctx), &rhs, &lhs) {
                rhs.buffer_id() as nat
            } else {
                old(ctx).len()
            },
            out.dims() == broadcast_dims(lhs.dims(), rhs.dims()),
            out.values(final(ctx)) == binary_values(
                op,
                lhs.values(old(ctx)),
                lhs.dims(),
                rhs.values(old(ctx)),
                rhs.dims(),
            ),
    {
        proof {
            lemma_broadcast_fits(lhs.dims(), rhs.dims());
        }
        let ghost l = lhs.values(ctx);
        let ghost r = rhs.values(ctx);
        let ghost c0 = *ctx;
        let ghost lb = lhs.buffer_id();
        let ghost rb = rhs.buffer_id();
        proof {
            lemma_count_small(lb, rb, lb);
            lemma_count_small(lb, rb, rb);
        }
        if lhs.can_mut_broadcast(ctx, &rhs) {
            proof {
                lemma_inplace_matches_allocating(op, l, lhs.dims(), r, rhs.dims());
            }
            binary_kernel_inplace(ctx, op, &lhs, &rhs);
            proof {
                lemma_released_start(&c0, ctx, lb as int);
                lemma_released_list_kept(&c0, ctx, Seq::empty(), lb);
                assert(Seq::<usize>::empty().push(lb) =~= seq![lb]);
            }
            let ghost mid = *ctx;
            let ghost hs = seq![lb];
            let ghost kp: int = lb as int;
            release_recorded(ctx, rhs, Ghost(c0), Ghost(hs), Ghost(kp));
            proof {
                assert(seq![lb].push(rb) =~= seq![lb, rb]);
                assert(ctx.view()[lb as int] == mid.view()[lb as int]);
            }
            return lhs;
        }
        if swap && rhs.can_mut_broadcast(ctx, &lhs) {
            proof {
                lemma_broadcast_fits(rhs.dims(), lhs.dims());
                lemma_swapped_inplace_matches_allocating(op, l, lhs.dims(), r, rhs.dims());
            }
            binary_kernel_inplace(ctx, op, &rhs, &lhs);
            proof {
                lemma_released_start(&c0, ctx, rb as int);
            }
            let ghost mid = *ctx;
            let ghost hs = Seq::empty();
            let ghost kp: int = rb as int;
            release_recorded(ctx, lhs, Ghost(c0), Ghost(hs), Ghost(kp));
            proof {
                assert(Seq::<usize>::empty().push(lb) =~= seq![lb]);
                lemma_released_list_kept(&c0, ctx, seq![lb], rb);
                assert(seq![lb].push(rb) =~= seq![lb, rb]);
                assert(ctx.view()[rb as int] == mid.view()[rb as int]);
            }
            return rhs;
        }
        let out = binary_kernel(ctx, op, &lhs, &rhs);
        let ghost ob = out.buffer_id();
        proof {
            lemma_released_start(&c0, ctx, ob as int);
        }
        let ghost m1 = *ctx;
        let ghost hs = Seq::empty();
        let ghost kp: int = ob as int;
        release_recorded(ctx, lhs, Ghost(c0), Ghost(hs), Ghost(kp));
        proof {
            assert(Seq::<usize>::empty().push(lb) =~= seq![lb]);
        }
        let ghost hs = seq![lb];
        let ghost kp: int = ob as int;
        release_recorded(ctx, rhs, Ghost(c0), Ghost(hs), Ghost(kp));
        proof {
            assert(seq![lb].push(rb) =~= seq![lb, rb]);
            assert(ctx.view()[ob as int] == m1.view()[ob as int]);
        }
        out
    }

    fn scalar(ctx: &mut ComputeContext, op: ElemOp, lhs: Tensor, rhs: i32) -> (out: Tensor)
        requires
            lhs.valid(old(ctx)),
        ensures
            handed_over(old(ctx), final(ctx), seq![lhs.buffer_id()], &out),
            out.buffer_id() as nat == if old(ctx).owner_count(lhs.buffer_id()) == 1 {
                lhs.buffer_id() as nat
            } else {
                old(ctx).len()
            },
            out.dims() == lhs.dims(),
            out.values(final(ctx)) == scalar_values(op, lhs.values(old(ctx)), rhs),
    {
        let ghost c0 = *ctx;
        let ghost lb = lhs.buffer_id();
        proof {
            lemma_count_small(lb, lb, lb);
        }
        if lhs.can_mut(ctx) {
            scalar_kernel_inplace(ctx, op, &lhs, rhs);
            proof {
                lemma_released_start(&c0, ctx, lb as int);
                lemma_released_list_kept(&c0, ctx, Seq::empty(), lb);
                assert(Seq::<usize>::empty().push(lb) =~= seq![lb]);
            }
            return lhs;
        }
        let out = scalar_kernel(ctx, op, &lhs, rhs);
        let ghost ob = out.buffer_id();
        proof {
            lemma_released_start(&c0, ctx, ob as int);
        }
        let ghost m1 = *ctx;
        let ghost hs = Seq::empty();
        let ghost kp: int = ob as int;
        release_recorded(ctx, lhs, Ghost(c0), Ghost(hs), Ghost(kp));
        proof {
            assert(Seq::<usize>::empty().push(lb) =~= seq![lb]);
            assert(ctx.view()[ob as int] == m1.view()[ob as int]);
        }
        out
    }

    /// Elementwise sum with broadcasting; the result may reuse either
    /// operand's buffer when that operand is its only owner.
    pub fn add(ctx: &mut ComputeContext, lhs: Tensor, rhs: Tensor) -> (out: Tensor)
        requires
            lhs.valid(old(ctx)),
            rhs.valid(old(ctx)),
            broadcastable(lhs.dims(), rhs.dims()),
            prod(broadcast_dims(lhs.dims(), rhs.dims())) <= usize::MAX,
        ensures
            handed_over(old(ctx), final(ctx), seq![lhs.buffer_id(), rhs.buffer_id()], &out),
            out.buffer_id() as nat == if absorbs(old(ctx), &lhs, &rhs) {
                lhs.buffer_id() as nat
            } else if absorbs(old(ctx), &rhs, &lhs) {
                rhs.buffer_id() as nat
            } else {
                old(ctx).len()
            },
            out.dims() == broadcast_dims(lhs.dims(), rhs.dims()),
            out.values(final(ctx)) == binary_values(
                ElemOp::Add,
                lhs.values(old(ctx)),
                lhs.dims(),
                rhs.values(old(ctx)),
                rhs.dims(),
            ),
    {
        Self::binary(ctx, ElemOp::Add, lhs, rhs, true)
    }

    /// Elementwise difference with broadcasting; the result may reuse the left
    /// operand's buffer when that operand is its only owner.
    pub fn sub(ctx: &mut ComputeContext, lhs: Tensor, rhs: Tensor) -> (out: Tensor)
        requires
            lhs.valid(old(ctx)),
            rhs.valid(old(ctx)),
            broadcastable(lhs.dims(), rhs.dims()),
            prod(broadcast_dims(lhs.dims(), rhs.dims())) <= usize::MAX,
        ensures
            handed_over(old(ctx), final(ctx), seq![lhs.buffer_id(), rhs.buffer_id()], &out),
            out.buffer_id() as nat == if absorbs(old(ctx), &lhs, &rhs) {
                lhs.buffer_id() as nat
            } else {
                old(ctx).len()
            },
            out.dims() == broadcast_dims(lhs.dims(), rhs.dims()),
            out.values(final(ctx)) == binary_values(
                ElemOp::Sub,
                lhs.values(old(ctx)),
                lhs.dims(),
                rhs.values(old(ctx)),
                rhs.dims(),
            ),
    {
        Self::binary(ctx, ElemOp::Sub, lhs, rhs, false)
    }

    /// Elementwise product with broadcasting; the result may reuse either
    /// operand's buffer when that operand is its only owner.
    pub fn mul(ctx: &mut ComputeContext, lhs: Tensor, rhs: Tensor) -> (out: Tensor)
        requires
            lhs.valid(old(ctx)),
            rhs.valid(old(ctx)),
            broadcastable(lhs.dims(), rhs.dims()),
            prod(broadcast_dims(lhs.dims(), rhs.dims())) <= usize::MAX,
        ensures
            handed_over(old(ctx), final(ctx), seq![lhs.buffer_id(), rhs.buffer_id()], &out),
            out.buffer_id() as nat == if absorbs(old(ctx), &lhs, &rhs) {
                lhs.buffer_id() as nat
            } else if absorbs(old(ctx), &rhs, &lhs) {
                rhs.buffer_id() as nat
            } else {
                old(ctx).len()
            },
            out.dims() == broadcast_dims(lhs.dims(), rhs.dims()),
            out.values(final(ctx)) == binary_values(
                ElemOp::Mul,
                lhs.values(old(ctx)),
                lhs.dims(),
                rhs.values(old(ctx)),
                rhs.dims(),
            ),
    {
        Self::binary(ctx, ElemOp::Mul, lhs, rhs, true)
    }

    /// Elementwise quotient with broadcasting; the result may reuse the left
    /// operand's buffer when that operand is its only owner.
    pub fn div(ctx: &mut ComputeContext, lhs: Tensor, rhs: Tensor) -> (out: Tensor)
        requires
            lhs.valid(old(ctx)),
            rhs.valid(old(ctx)),
            broadcastable(lhs.dims(), rhs.dims()),
            prod(broadcast_dims(lhs.dims(), rhs.dims())) <= usize::MAX,
        ensures
            handed_over(old(ctx), final(ctx), seq![lhs.buffer_id(), rhs.buffer_id()], &out),
            out.buffer_id() as nat == if absorbs(old(ctx), &lhs, &rhs) {
                lhs.buffer_id() as nat
            } else {
                old(ctx).len()
            },
            out.dims() == broadcast_dims(lhs.dims(), rhs.dims()),
            out.values(final(ctx)) == binary_values(
                ElemOp::Div,
                lhs.values(old(ctx)),
                lhs.dims(),
                rhs.values(old(ctx)),
                rhs.dims(),
            ),
    {
        Self::binary(ctx, ElemOp::Div, lhs, rhs, false)
    }

    /// Adds a scalar to every element, in place when the handle is the only
    /// owner of its buffer.
    pub fn add_scalar(ctx: &mut ComputeContext, lhs: Tensor, rhs: i32) -> (out: Tensor)
        requires
            lhs.valid(old(ctx)),
        ensures
            handed_over(old(ctx), final(ctx), seq![lhs.buffer_id()], &out),
            out.buffer_id() as nat == if old(ctx).owner_count(lhs.buffer_id()) == 1 {
                lhs.buffer_id() as nat
            } else {
                old(ctx).len()
            },
            out.dims() == lhs.dims(),
            out.values(final(ctx)) == scalar_values(ElemOp::Add, lhs.values(old(ctx)), rhs),
    {
        Self::scalar(ctx, ElemOp::Add, lhs, rhs)
    }

    /// Subtracts a scalar from every element, in place when the handle is the
    /// only owner of its buffer.
    pub fn sub_scalar(ctx: &mut ComputeContext, lhs: Tensor, rhs: i32) -> (out: Tensor)
        requires
            lhs.valid(old(ctx)),
        ensures
            handed_over(old(ctx), final(ctx), seq![lhs.buffer_id()], &out),
            out.buffer_id() as nat == if old(ctx).owner_count(lhs.buffer_id()) == 1 {
                lhs.buffer_id() as nat
            } else {
                old(ctx).len()
            },
            out.dims() == lhs.dims(),
            out.values(final(ctx)) == scalar_values(ElemOp::Sub, lhs.values(old(ctx)), rhs),
    {
        Self::scalar(ctx, ElemOp::Sub, lhs, rhs)
    }

    /// Multiplies every element by a scalar, in place when the handle is the
    /// only owner of its buffer.
    pub fn mul_scalar(ctx: &mut ComputeContext, lhs: Tensor, rhs: i32) -> (out: Tensor)
        requires
            lhs.valid(old(ctx)),
        ensures
            handed_over(old(ctx), final(ctx), seq![lhs.buffer_id()], &out),
            out.buffer_id() as nat == if old(ctx).owner_count(lhs.buffer_id()) == 1 {
                lhs.buffer_id() as nat
            } else {
                old(ctx).len()
            },
            out.dims() == lhs.dims(),
            out.values(final(ctx)) == scalar_values(ElemOp::Mul, lhs.values(old(ctx)), rhs),
    {
        Self::scalar(ctx, ElemOp::Mul, lhs, rhs)
    }

    /// Divides every element by a scalar, in place when the handle is the only
    /// owner of its buffer.
    pub fn div_scalar(ctx: &mut ComputeContext, lhs: Tensor, rhs: i32) -> (out: Tensor)
        requires
            lhs.valid(old(ctx)),
        ensures
            handed_over(old(ctx), final(ctx), seq![lhs.buffer_id()], &out),
            out.buffer_id() as nat == if old(ctx).owner_count(lhs.buffer_id()) == 1 {
                lhs.buffer_id() as nat
            } else {
                old(ctx).len()
            },
            out.dims() == lhs.dims(),
            out.values(final(ctx)) == scalar_values(ElemOp::Div, lhs.values(old(ctx)), rhs),
    {
        Self::scalar(ctx, ElemOp::Div, lhs, rhs)
    }
}

} // verus!

use vstd::prelude::*;
use crate::kernel::{kernel_key, KernelTemplate};
use crate::base::BaseOps;
use crate::bool_ops::decode;
use crate::context::{BufferState, ComputeContext};
use crate::ownership::{
    handed_over, lemma_count_push, lemma_count_small, lemma_released_list_kept, lemma_released_start,
    release_recorded,
};
use crate::tensor::Tensor;

verus! {

/// Where the mask is true the element comes from `value`, elsewhere from `t`.
pub open spec fn masked_values(t: Seq<i32>, mask: Seq<i32>, value: Seq<i32>) -> Seq<i32> {
    Seq::new(t.len(), |i: int| if decode(mask[i]) { value[i] } else { t[i] })
}

/// Where the mask is true the element becomes `v`, elsewhere it is kept.
pub open spec fn filled_values(t: Seq<i32>, mask: Seq<i32>, v: i32) -> Seq<i32> {
    Seq::new(t.len(), |i: int| if decode(mask[i]) { v } else { t[i] })
}

/// Writes the masked selection into buffer `ob`, reading `tb`, `mb` and, when
/// `vb` is given, the elements of `vb` (else the scalar `v`).
fn mask_kernel(ctx: &mut ComputeContext, ob: usize, tb: usize, mb: usize, vb: Option<usize>, v: i32, n: usize)
    requires
        old(ctx).wf(),
        ob < old(ctx).len(),
        tb < old(ctx).len(),
        mb < old(ctx).len(),
        mb != ob,
        ob == tb || old(ctx).contents(ob).len() == n,
        old(ctx).contents(tb).len() == n,
        old(ctx).contents(mb).len() == n,
        vb is Some ==> vb->0 < old(ctx).len() && vb->0 != ob && old(ctx).contents(vb->0).len() == n,
    ensures
        final(ctx).wf(),
        final(ctx).view() == old(ctx).view().update(
            ob as int,
            BufferState {
                data: match vb {
                    Some(b) => masked_values(
                        old(ctx).contents(tb),
                        old(ctx).contents(mb),
                        old(ctx).contents(b),
                    ),
                    None => filled_values(old(ctx).contents(tb), old(ctx).contents(mb), v),
                },
                owners: old(ctx).owner_count(ob),
            },
        ),
{
    ctx.compile(kernel_key(KernelTemplate::Mask));
    let ghost t = ctx.contents(tb);
    let ghost m = ctx.contents(mb);
    let ghost expected = match vb {
        Some(b) => masked_values(t, m, ctx.contents(b)),
        None => filled_values(t, m, v),
    };
    let mut i: usize = 0;
    while i < n
        invariant
            ctx.wf(),
            ctx.len() == old(ctx).len(),
            ob < ctx.len(),
            tb < ctx.len(),
            mb < ctx.len(),
            mb != ob,
            t == old(ctx).contents(tb),
            m == old(ctx).contents(mb),
            t.len() == n,
            m.len() == n,
            vb is Some ==> vb->0 < ctx.len() && vb->0 != ob && old(ctx).contents(vb->0).len() == n,
            expected == match vb {
                Some(b) => masked_values(t, m, old(ctx).contents(b)),
                None => filled_values(t, m, v),
            },
            forall|b: int| 0 <= b < ctx.len() && b != ob ==> ctx.view()[b] == old(ctx).view()[b],
            ctx.owner_count(ob) == old(ctx).owner_count(ob),
            ctx.contents(ob).len() == n,
            i <= n,
            forall|j: int| 0 <= j < i ==> ctx.contents(ob)[j] == expected[j],
            ob == tb ==> forall|j: int| i <= j < n ==> ctx.contents(ob)[j] == t[j],
        decreases n - i,
    {
        proof {
            if ob != tb {
                assert(ctx.view()[tb as int] == old(ctx).view()[tb as int]);
            }
            assert(ctx.view()[mb as int] == old(ctx).view()[mb as int]);
        }
        let x = ctx.get(tb, i);
        let c = ctx.get(mb, i);
        let y = if c != 0 {
            match vb {
                Some(b) => {
                    proof {
                        assert(ctx.view()[b as int] == old(ctx).view()[b as int]);
                    }
                    ctx.get(b, i)
                },
                None => v,
            }
        } else {
            x
        };
        ctx.set(ob, i, y);
        i = i + 1;
    }
    proof {
        assert(ctx.contents(ob) =~= expected);
        assert(ctx.view() =~= old(ctx).view().update(
            ob as int,
            BufferState { data: expected, owners: old(ctx).owner_count(ob) },
        ));
    }
}

impl BaseOps {
    fn mask_op(ctx: &mut ComputeContext, tensor: Tensor, mask: Tensor, value: Option<Tensor>, v: i32) -> (out: Tensor)
        requires
            tensor.valid(old(ctx)),
            mask.valid(old(ctx)),
            mask.dims() == tensor.dims(),
            value is Some ==> value->0.valid(old(ctx)) && value->0.dims() == tensor.dims(),
        ensures
            final(ctx).wf(),
            out.valid(final(ctx)),
            out.dims() == tensor.dims(),
            final(ctx).owner_count(out.buffer_id()) == 1,
            out.buffer_id() as nat == if old(ctx).owner_count(tensor.buffer_id()) == 1 && tensor.buffer_id()
                != mask.buffer_id() && (value is None || tensor.buffer_id() != value->0.buffer_id()) {
                tensor.buffer_id() as nat
            } else {
                old(ctx).len()
            },
            out.values(final(ctx)) == match value {
                Some(t) => masked_values(tensor.values(old(ctx)), mask.values(old(ctx)), t.values(old(ctx))),
                None => filled_values(tensor.values(old(ctx)), mask.values(old(ctx)), v),
            },
            handed_over(
                old(ctx),
                final(ctx),
                match value {
                    Some(t) => seq![tensor.buffer_id(), mask.buffer_id(), t.buffer_id()],
                    None => seq![tensor.buffer_id(), mask.buffer_id()],
                },
                &out,
            ),
    {
        let tb = tensor.buffer();
        let mb = mask.buffer();
        let vb: Option<usize> = match &value {
            Some(t) => Some(t.buffer()),
            None => None,
        };
        let n = ctx.buffer_len(tb);
        let distinct = match vb {
            Some(b) => tb != b,
            None => true,
        };
        let in_place = ctx.is_exclusive(tb) && tb != mb && distinct;
        let ob = if in_place {
            tb
        } else {
            ctx.create_buffer(n)
        };
        mask_kernel(ctx, ob, tb, mb, vb, v, n);
        let shape = tensor.shape().clone_shape();
        let ghost k = *ctx;
        let ghost c0 = *old(ctx);
        let ghost keep: int = ob as int;
        let ghost none: Seq<usize> = Seq::empty();
        proof {
            lemma_released_start(&c0, ctx, keep);
        }
        if in_place {
            proof {
                lemma_released_list_kept(&c0, ctx, none, tb);
            }
        } else {
            release_recorded(ctx, tensor, Ghost(c0), Ghost(none), Ghost(keep));
        }
        let ghost h1 = seq![tb];
        proof {
            assert(none.push(tb) =~= h1);
        }
        release_recorded(ctx, mask, Ghost(c0), Ghost(h1), Ghost(keep));
        let ghost h2 = seq![tb, mb];
        proof {
            assert(h1.push(mb) =~= h2);
        }
        match value {
            Some(t) => {
                let ghost x = t.buffer_id();
                release_recorded(ctx, t, Ghost(c0), Ghost(h2), Ghost(keep));
                proof {
                    assert(h2.push(x) =~= seq![tb, mb, x]);
                    lemma_count_push(h2, x, ob);
                    lemma_count_small(tb, mb, ob);
                }
            },
            None => {
                proof {
                    lemma_count_small(tb, mb, ob);
                }
            },
        }
        proof {
            assert(ctx.view()[ob as int] == k.view()[ob as int]);
        }
        Tensor::from_parts(shape, ob)
    }

    /// Takes the elements of `value` where `mask` is true and those of
    /// `tensor` elsewhere; all three of one shape. The result reuses
    /// `tensor`'s buffer when its handle is the only owner and neither other
    /// operand reads it. The handles are dropped.
    pub fn mask_where(ctx: &mut ComputeContext, tensor: Tensor, mask: Tensor, value: Tensor) -> (out: Tensor)
        requires
            tensor.valid(old(ctx)),
            mask.valid(old(ctx)),
            value.valid(old(ctx)),
            mask.dims() == tensor.dims(),
            value.dims() == tensor.dims(),
        ensures
            final(ctx).wf(),
            out.valid(final(ctx)),
            out.dims() == tensor.dims(),
            final(ctx).owner_count(out.buffer_id()) == 1,
            out.buffer_id() as nat == if old(ctx).owner_count(tensor.buffer_id()) == 1 && tensor.buffer_id()
                != mask.buffer_id() && tensor.buffer_id() != value.buffer_id() {
                tensor.buffer_id() as nat
            } else {
                old(ctx).len()
            },
            out.values(final(ctx)) == masked_values(
                tensor.values(old(ctx)),
                mask.values(old(ctx)),
                value.values(old(ctx)),
            ),
            handed_over(old(ctx), final(ctx), seq![tensor.buffer_id(), mask.buffer_id(), value.buffer_id()], &out),
    {
        Self::mask_op(ctx, tensor, mask, Some(value), 0)
    }

    /// Sets the elements of `tensor` where `mask` (of the same shape) is true
    /// to `value`. The result reuses `tensor`'s buffer when its handle is the
    /// only owner and the mask reads another buffer. The handles are dropped.
    pub fn mask_fill(ctx: &mut ComputeContext, tensor: Tensor, mask: Tensor, value: i32) -> (out: Tensor)
        requires
            tensor.valid(old(ctx)),
            mask.valid(old(ctx)),
            mask.dims() == tensor.dims(),
        ensures
            final(ctx).wf(),
            out.valid(final(ctx)),
            out.dims() == tensor.dims(),
            final(ctx).owner_count(out.buffer_id()) == 1,
            out.buffer_id() as nat == if old(ctx).owner_count(tensor.buffer_id()) == 1 && tensor.buffer_id()
                != mask.buffer_id() {
                tensor.buffer_id() as nat
            } else {
                old(ctx).len()
            },
            out.values(final(ctx)) == filled_values(tensor.values(old(ctx)), mask.values(old(ctx)), value),
            handed_over(old(ctx), final(ctx), seq![tensor.buffer_id(), mask.buffer_id()], &out),
    {
        Self::mask_op(ctx, tensor, mask, None, value)
    }
}

} // verus!

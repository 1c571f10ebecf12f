use vstd::prelude::*;
use crate::context::{after_release, BufferState, ComputeContext};
use crate::tensor::Tensor;

verus! {

/// A buffer's state after `n` of its handles are dropped.
pub open spec fn drop_handles(s: BufferState, n: nat) -> BufferState
    decreases n,
{
    if n == 0 {
        s
    } else {
        after_release(drop_handles(s, (n - 1) as nat))
    }
}

/// How many of the dropped handles, listed by buffer, refer to buffer `b`.
pub open spec fn handle_count(handles: Seq<usize>, b: usize) -> nat
    decreases handles.len(),
{
    if handles.len() == 0 {
        0
    } else {
        handle_count(handles.drop_last(), b) + if handles.last() == b {
            1nat
        } else {
            0nat
        }
    }
}

/// Every existing buffer but `keep` changed only by dropping the handles
/// listed in `handles`: each lost exactly as many owners as it has entries
/// there, and its elements are kept until the last owner goes.
pub open spec fn released_except(
    old_ctx: &ComputeContext,
    new_ctx: &ComputeContext,
    handles: Seq<usize>,
    keep: int,
) -> bool {
    forall|b: usize|
        b < old_ctx.len() && b != keep ==> #[trigger] new_ctx.view()[b as int] == drop_handles(
            old_ctx.view()[b as int],
            handle_count(handles, b),
        )
}

/// A refused call: the handles listed in `handles` were dropped and nothing
/// else changed.
pub open spec fn dropped(old_ctx: &ComputeContext, new_ctx: &ComputeContext, handles: Seq<usize>) -> bool {
    &&& new_ctx.wf()
    &&& new_ctx.len() == old_ctx.len()
    &&& released_except(old_ctx, new_ctx, handles, -1)
}

/// The effect of an operation that consumed the handles listed in `handles`
/// and returned `out`: `out` is the only handle on its buffer, which is either
/// fresh or a consumed buffer that had no other owner; every other existing
/// buffer lost exactly its consumed handles.
pub open spec fn handed_over(
    old_ctx: &ComputeContext,
    new_ctx: &ComputeContext,
    handles: Seq<usize>,
    out: &Tensor,
) -> bool {
    &&& new_ctx.wf()
    &&& out.valid(new_ctx)
    &&& new_ctx.owner_count(out.buffer_id()) == 1
    &&& new_ctx.len() >= old_ctx.len()
    &&& released_except(old_ctx, new_ctx, handles, out.buffer_id() as int)
    &&& (out.buffer_id() == old_ctx.len() || (old_ctx.owner_count(out.buffer_id()) == 1 && handle_count(
        handles,
        out.buffer_id(),
    ) == 1))
}

pub proof fn lemma_drop_small(s: BufferState)
    ensures
        drop_handles(s, 0) == s,
        drop_handles(s, 1) == after_release(s),
        drop_handles(s, 2) == after_release(after_release(s)),
{
    assert(drop_handles(s, 1) == after_release(drop_handles(s, 0)));
    assert(drop_handles(s, 2) == after_release(drop_handles(s, 1)));
}

pub proof fn lemma_count_push(handles: Seq<usize>, x: usize, b: usize)
    ensures
        handle_count(handles.push(x), b) == handle_count(handles, b) + if x == b {
            1nat
        } else {
            0nat
        },
{
    assert(handles.push(x).drop_last() =~= handles);
}

pub proof fn lemma_count_small(x: usize, y: usize, b: usize)
    ensures
        handle_count(Seq::<usize>::empty(), b) == 0,
        handle_count(seq![x], b) == if x == b {
            1nat
        } else {
            0nat
        },
        handle_count(seq![x, y], b) == handle_count(seq![x], b) + if y == b {
            1nat
        } else {
            0nat
        },
{
    lemma_count_push(Seq::<usize>::empty(), x, b);
    assert(Seq::<usize>::empty().push(x) =~= seq![x]);
    lemma_count_push(seq![x], y, b);
    assert(seq![x].push(y) =~= seq![x, y]);
}

/// Nothing dropped yet: the buffers but `keep` are as they were.
pub proof fn lemma_released_start(old_ctx: &ComputeContext, ctx: &ComputeContext, keep: int)
    requires
        forall|b: int| 0 <= b < old_ctx.len() && b != keep ==> ctx.view()[b] == old_ctx.view()[b],
        ctx.len() >= old_ctx.len(),
    ensures
        released_except(old_ctx, ctx, Seq::empty(), keep),
{
    assert forall|b: usize| b < old_ctx.len() && b != keep implies #[trigger] ctx.view()[b as int] == drop_handles(
        old_ctx.view()[b as int],
        handle_count(Seq::empty(), b),
    ) by {
        assert(ctx.view()[b as int] == old_ctx.view()[b as int]);
    }
}

/// The kept buffer may be listed among the dropped handles without changing
/// what is said of the others.
pub proof fn lemma_released_list_kept(
    old_ctx: &ComputeContext,
    ctx: &ComputeContext,
    handles: Seq<usize>,
    keep: usize,
)
    requires
        released_except(old_ctx, ctx, handles, keep as int),
    ensures
        released_except(old_ctx, ctx, handles.push(keep), keep as int),
{
    assert forall|b: usize| b < old_ctx.len() && b != keep as int implies #[trigger] ctx.view()[b as int]
        == drop_handles(old_ctx.view()[b as int], handle_count(handles.push(keep), b)) by {
        lemma_count_push(handles, keep, b);
    }
}

/// Drops the handle `t`, recording its buffer among the dropped handles.
pub(crate) fn release_recorded(
    ctx: &mut ComputeContext,
    t: Tensor,
    Ghost(old_ctx): Ghost<ComputeContext>,
    Ghost(handles): Ghost<Seq<usize>>,
    Ghost(keep): Ghost<int>,
)
    requires
        old(ctx).wf(),
        t.buffer_id() < old(ctx).len(),
        t.buffer_id() != keep,
        old(ctx).len() >= old_ctx.len(),
        released_except(&old_ctx, old(ctx), handles, keep),
    ensures
        final(ctx).wf(),
        final(ctx).len() == old(ctx).len(),
        final(ctx).view() == old(ctx).view().update(
            t.buffer_id() as int,
            after_release(old(ctx).view()[t.buffer_id() as int]),
        ),
        released_except(&old_ctx, final(ctx), handles.push(t.buffer_id()), keep),
{
    let x = t.buffer();
    t.release(ctx);
    proof {
        assert forall|b: usize| b < old_ctx.len() && b != keep implies #[trigger] ctx.view()[b as int]
            == drop_handles(old_ctx.view()[b as int], handle_count(handles.push(x), b)) by {
            lemma_count_push(handles, x, b);
            assert(old(ctx).view()[b as int] == drop_handles(old_ctx.view()[b as int], handle_count(handles, b)));
            if b == x {
                assert(handle_count(handles.push(x), b) == handle_count(handles, b) + 1);
            }
        }
    }
}

/// Drops one handle after a kernel that left every existing buffer but
/// `keep` as it was in `old_ctx`.
pub(crate) fn release_one(ctx: &mut ComputeContext, t: Tensor, Ghost(old_ctx): Ghost<ComputeContext>, Ghost(keep): Ghost<int>)
    requires
        old(ctx).wf(),
        old(ctx).len() >= old_ctx.len(),
        forall|b: int| 0 <= b < old_ctx.len() && b != keep ==> old(ctx).view()[b] == old_ctx.view()[b],
        t.buffer_id() < old_ctx.len(),
        t.buffer_id() != keep,
    ensures
        final(ctx).wf(),
        final(ctx).len() == old(ctx).len(),
        0 <= keep < old(ctx).len() ==> final(ctx).view()[keep] == old(ctx).view()[keep],
        final(ctx).view() == old(ctx).view().update(
            t.buffer_id() as int,
            after_release(old(ctx).view()[t.buffer_id() as int]),
        ),
        released_except(&old_ctx, final(ctx), seq![t.buffer_id()], keep),
{
    proof {
        lemma_released_start(&old_ctx, ctx, keep);
    }
    let ghost x = t.buffer_id();
    let ghost hs: Seq<usize> = Seq::empty();
    release_recorded(ctx, t, Ghost(old_ctx), Ghost(hs), Ghost(keep));
    proof {
        assert(hs.push(x) =~= seq![x]);
    }
}

/// Drops two handles after a kernel that left every existing buffer but
/// `keep` as it was in `old_ctx`.
pub(crate) fn release_two(
    ctx: &mut ComputeContext,
    t: Tensor,
    u: Tensor,
    Ghost(old_ctx): Ghost<ComputeContext>,
    Ghost(keep): Ghost<int>,
)
    requires
        old(ctx).wf(),
        old(ctx).len() >= old_ctx.len(),
        forall|b: int| 0 <= b < old_ctx.len() && b != keep ==> old(ctx).view()[b] == old_ctx.view()[b],
        t.buffer_id() < old_ctx.len(),
        t.buffer_id() != keep,
        u.buffer_id() < old_ctx.len(),
        u.buffer_id() != keep,
    ensures
        final(ctx).wf(),
        final(ctx).len() == old(ctx).len(),
        0 <= keep < old(ctx).len() ==> final(ctx).view()[keep] == old(ctx).view()[keep],
        released_except(&old_ctx, final(ctx), seq![t.buffer_id(), u.buffer_id()], keep),
{
    let ghost x = t.buffer_id();
    let ghost y = u.buffer_id();
    release_one(ctx, t, Ghost(old_ctx), Ghost(keep));
    let ghost hs = seq![x];
    release_recorded(ctx, u, Ghost(old_ctx), Ghost(hs), Ghost(keep));
    proof {
        assert(hs.push(y) =~= seq![x, y]);
    }
}

/// Drops three handles after a kernel that left every existing buffer but
/// `keep` as it was in `old_ctx`.
pub(crate) fn release_three(
    ctx: &mut ComputeContext,
    t: Tensor,
    u: Tensor,
    w: Tensor,
    Ghost(old_ctx): Ghost<ComputeContext>,
    Ghost(keep): Ghost<int>,
)
    requires
        old(ctx).wf(),
        old(ctx).len() >= old_ctx.len(),
        forall|b: int| 0 <= b < old_ctx.len() && b != keep ==> old(ctx).view()[b] == old_ctx.view()[b],
        t.buffer_id() < old_ctx.len(),
        t.buffer_id() != keep,
        u.buffer_id() < old_ctx.len(),
        u.buffer_id() != keep,
        w.buffer_id() < old_ctx.len(),
        w.buffer_id() != keep,
    ensures
        final(ctx).wf(),
        final(ctx).len() == old(ctx).len(),
        0 <= keep < old(ctx).len() ==> final(ctx).view()[keep] == old(ctx).view()[keep],
        released_except(&old_ctx, final(ctx), seq![t.buffer_id(), u.buffer_id(), w.buffer_id()], keep),
{
    let ghost x = t.buffer_id();
    let ghost y = u.buffer_id();
    let ghost z = w.buffer_id();
    release_two(ctx, t, u, Ghost(old_ctx), Ghost(keep));
    let ghost hs = seq![x, y];
    release_recorded(ctx, w, Ghost(old_ctx), Ghost(hs), Ghost(keep));
    proof {
        assert(hs.push(z) =~= seq![x, y, z]);
    }
}

} // verus!

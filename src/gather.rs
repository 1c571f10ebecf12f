use vstd::prelude::*;
use crate::kernel::{kernel_key, KernelTemplate};
use crate::base::{BaseOps, TensorError};
use crate::cat::outer_count;
use crate::context::ComputeContext;
use crate::ownership::{dropped, handed_over, release_three, release_two};
use crate::reduce::{inner_count, lemma_lane_bound, strided};
use crate::shape::{all_positive, lemma_prod_positive, lemma_prod_split, prod, Shape};
use crate::tensor::Tensor;

verus! {

/// The two shapes have one rank, above `dim`, and agree off axis `dim`.
pub open spec fn same_off_axis(a: Seq<usize>, b: Seq<usize>, dim: int) -> bool {
    &&& a.len() == b.len()
    &&& 0 <= dim < a.len()
    &&& forall|k: int| 0 <= k < a.len() && k != dim ==> a[k] == b[k]
}

/// Every element is a position along an axis of extent `n`.
pub open spec fn indices_in_range(idx: Seq<i32>, n: nat) -> bool {
    forall|i: int| 0 <= i < idx.len() ==> 0 <= #[trigger] idx[i] < n
}

/// Gathering along `dim`: position `i` of the result, of the shape of the
/// indices, reads the tensor at the same coordinates but along `dim`, where it
/// reads at the index held at `i`.
pub open spec fn gather_values(t: Seq<i32>, idx: Seq<i32>, dims: Seq<usize>, dim: int, m: nat) -> Seq<i32> {
    let inner = inner_count(dims, dim);
    let n = dims[dim] as nat;
    Seq::new(
        idx.len(),
        |i: int| t[(i / (m * inner) as int) * (n * inner) + idx[i] * inner + i % inner as int],
    )
}

/// Wrapping sum of the values whose index equals `k`.
pub open spec fn matching_sum(ix: Seq<i32>, vs: Seq<i32>, k: int) -> i32
    decreases ix.len(),
{
    if ix.len() == 0 {
        0
    } else {
        let rest = matching_sum(ix.drop_last(), vs.take(ix.len() - 1), k);
        if ix.last() == k {
            rest.wrapping_add(vs[ix.len() - 1])
        } else {
            rest
        }
    }
}

/// Scattering along `dim` with sums: each element of the tensor gains every
/// value whose index, among those at its coordinates off `dim`, names its
/// position along `dim`.
pub open spec fn scatter_values(
    t: Seq<i32>,
    idx: Seq<i32>,
    val: Seq<i32>,
    dims: Seq<usize>,
    dim: int,
    m: nat,
) -> Seq<i32> {
    let inner = inner_count(dims, dim);
    let n = dims[dim] as nat;
    Seq::new(
        t.len(),
        |p: int|
            {
                let o = p / (n * inner) as int;
                let k = (p / inner as int) % n as int;
                let q = p % inner as int;
                let base = (o * m * inner + q) as nat;
                t[p].wrapping_add(
                    matching_sum(strided(idx, base, inner, m), strided(val, base, inner, m), k),
                )
            },
    )
}

fn indices_ok(ctx: &ComputeContext, b: usize, n: usize) -> (r: bool)
    requires
        ctx.wf(),
        b < ctx.len(),
    ensures
        r == indices_in_range(ctx.contents(b), n as nat),
{
    let len = ctx.buffer_len(b);
    let mut i: usize = 0;
    while i < len
        invariant
            ctx.wf(),
            b < ctx.len(),
            len == ctx.contents(b).len(),
            i <= len,
            forall|j: int| 0 <= j < i ==> 0 <= #[trigger] ctx.contents(b)[j] < n,
        decreases len - i,
    {
        let x = ctx.get(b, i);
        if x < 0 || x as usize >= n {
            return false;
        }
        i = i + 1;
    }
    true
}

/// Sizes shared by gather and scatter: elements before, along and after the
/// axis, with the facts the kernels need about them.
proof fn lemma_axis_sizes(td: Seq<usize>, id: Seq<usize>, dim: int)
    requires
        same_off_axis(td, id, dim),
    ensures
        outer_count(td, dim) == outer_count(id, dim),
        inner_count(td, dim) == inner_count(id, dim),
        prod(td) == outer_count(td, dim) * (td[dim] as nat) * inner_count(td, dim),
        prod(id) == outer_count(td, dim) * (id[dim] as nat) * inner_count(td, dim),
{
    assert(td.subrange(0, dim) =~= id.subrange(0, dim));
    assert(td.subrange(dim + 1, td.len() as int) =~= id.subrange(dim + 1, id.len() as int));
    lemma_prod_split(td, dim);
    lemma_prod_split(id, dim);
}

impl BaseOps {
    /// Reads, for each position of `indexes`, the element of `tensor` at the
    /// same coordinates off axis `dim` and at the held index along it. An
    /// index outside the axis is refused. The handles are dropped.
    pub fn gather(ctx: &mut ComputeContext, dim: usize, tensor: Tensor, indexes: Tensor) -> (r: Result<Tensor, TensorError>)
        requires
            tensor.valid(old(ctx)),
            indexes.valid(old(ctx)),
            same_off_axis(tensor.dims(), indexes.dims(), dim as int),
        ensures
            final(ctx).wf(),
            r is Err <==> !indices_in_range(indexes.values(old(ctx)), tensor.dims()[dim as int] as nat),
            r is Err ==> r->Err_0 == TensorError::IndexOutOfBounds,
            r is Err ==> dropped(old(ctx), final(ctx), seq![tensor.buffer_id(), indexes.buffer_id()]),
            r is Ok ==> handed_over(old(ctx), final(ctx), seq![tensor.buffer_id(), indexes.buffer_id()], &r->Ok_0)
                && r->Ok_0.buffer_id() == old(ctx).len()
                && r->Ok_0.dims() == indexes.dims()
                && r->Ok_0.values(final(ctx)) == gather_values(
                    tensor.values(old(ctx)),
                    indexes.values(old(ctx)),
                    tensor.dims(),
                    dim as int,
                    indexes.dims()[dim as int] as nat,
                ),
    {
        let tb = tensor.buffer();
        let ib = indexes.buffer();
        let n = tensor.shape().dims[dim];
        if !indices_ok(ctx, ib, n) {
            let ghost c0 = *old(ctx);
            let ghost keep: int = -1;
            release_two(ctx, tensor, indexes, Ghost(c0), Ghost(keep));
            return Err(TensorError::IndexOutOfBounds);
        }
        ctx.compile(kernel_key(KernelTemplate::Gather));
        let ghost td = tensor.dims();
        let ghost id = indexes.dims();
        let ghost t = tensor.values(ctx);
        let ghost ix = indexes.values(ctx);
        let ghost d = dim as int;
        let ghost expected = gather_values(t, ix, td, d, id[d] as nat);
        let ghost outer = outer_count(td, d);
        proof {
            lemma_axis_sizes(td, id, d);
            ctx.lemma_contents_len(tb);
            ctx.lemma_contents_len(ib);
        }
        let total = ctx.buffer_len(ib);
        let ob = ctx.create_buffer(total);
        if total > 0 {
            let rank = tensor.shape().rank();
            let m = indexes.shape().dims[dim];
            proof {
                lemma_prod_positive(id);
                let tail = id.subrange(d + 1, id.len() as int);
                assert(all_positive(tail)) by {
                    assert forall|k: int| 0 <= k < tail.len() implies tail[k] >= 1 by {
                        assert(tail[k] == id[d + 1 + k]);
                    }
                }
                lemma_prod_positive(tail);
                lemma_prod_positive(id.subrange(0, d));
                assert(all_positive(id.subrange(0, d))) by {
                    assert forall|k: int| 0 <= k < d implies id.subrange(0, d)[k] >= 1 by {
                        assert(id[k] >= 1);
                    }
                }
                let inner_g = inner_count(td, d);
                assert(0 <= ix[0] < n);
                assert(inner_g <= prod(td) && n * inner_g <= prod(td) && m * inner_g <= prod(id)) by (nonlinear_arith)
                    requires
                        prod(td) == outer * n * inner_g,
                        prod(id) == outer * m * inner_g,
                        outer >= 1,
                        inner_g >= 1,
                        n >= 1,
                        m >= 1;
            }
            let inner = tensor.shape().sub_shape(dim + 1, rank).num_elements();
            let block = m * inner;
            let width = n * inner;
            let mut i: usize = 0;
            while i < total
                invariant
                    ctx.wf(),
                    ob == old(ctx).len(),
                    ctx.len() == ob + 1,
                    tb < ob,
                    ib < ob,
                    t == old(ctx).contents(tb),
                    ix == old(ctx).contents(ib),
                    forall|b: int| 0 <= b < ob ==> ctx.view()[b] == old(ctx).view()[b],
                    ctx.owner_count(ob) == 1,
                    ctx.contents(ob).len() == total,
                    total == ix.len(),
                    total == outer * m * inner,
                    t.len() == outer * n * inner,
                    t.len() <= usize::MAX,
                    inner > 0,
                    block == m * inner,
                    width == n * inner,
                    inner == inner_count(td, d),
                    n == td[d],
                    m == id[d],
                    d == dim,
                    d < td.len(),
                    indices_in_range(ix, n as nat),
                    expected == gather_values(t, ix, td, d, m as nat),
                    i <= total,
                    forall|j: int| 0 <= j < i ==> ctx.contents(ob)[j] == expected[j],
                decreases total - i,
            {
                proof {
                    assert(block > 0) by (nonlinear_arith)
                        requires block == m * inner, total == outer * m * inner, i < total;
                }
                let o = i / block;
                let q = i % inner;
                proof {
                    assert(ctx.view()[ib as int] == old(ctx).view()[ib as int]);
                    assert(ctx.view()[tb as int] == old(ctx).view()[tb as int]);
                    assert(o < outer) by (nonlinear_arith)
                        requires o == i / block, i < outer * m * inner, block == m * inner, block > 0;
                }
                let k = ctx.get(ib, i);
                proof {
                    assert(0 <= ix[i as int] < n);
                    lemma_lane_bound(o as nat, outer, n as nat, inner as nat, k as nat, q as nat);
                    assert(o * width + k * inner + q < t.len()) by (nonlinear_arith)
                        requires
                            o * n * inner + k * inner + q < outer * n * inner,
                            width == n * inner,
                            t.len() == outer * n * inner;
                    assert(o * width <= o * width + k * inner) by (nonlinear_arith)
                        requires k >= 0;
                }
                let x = ctx.get(tb, o * width + (k as usize) * inner + q);
                ctx.set(ob, i, x);
                i = i + 1;
            }
            proof {
                assert(ctx.contents(ob) =~= expected);
            }
        } else {
            proof {
                assert(ctx.contents(ob) =~= expected);
            }
        }
        let shape = indexes.shape().clone_shape();
        let ghost c0 = *old(ctx);
        let ghost keep: int = ob as int;
        release_two(ctx, tensor, indexes, Ghost(c0), Ghost(keep));
        proof {
        }
        Ok(Tensor::from_parts(shape, ob))
    }

    /// Adds each element of `value` into `tensor` at the same coordinates off
    /// axis `dim` and, along it, at the position held by `indexes` (both of
    /// one shape). An index outside the axis is refused. The result is a
    /// fresh buffer; the handles are dropped.
    pub fn scatter(
        ctx: &mut ComputeContext,
        dim: usize,
        tensor: Tensor,
        indexes: Tensor,
        value: Tensor,
    ) -> (r: Result<Tensor, TensorError>)
        requires
            tensor.valid(old(ctx)),
            indexes.valid(old(ctx)),
            value.valid(old(ctx)),
            same_off_axis(tensor.dims(), indexes.dims(), dim as int),
            value.dims() == indexes.dims(),
        ensures
            final(ctx).wf(),
            r is Err <==> !indices_in_range(indexes.values(old(ctx)), tensor.dims()[dim as int] as nat),
            r is Err ==> r->Err_0 == TensorError::IndexOutOfBounds,
            r is Err ==> dropped(old(ctx), final(ctx), seq![tensor.buffer_id(), indexes.buffer_id(), value.buffer_id()]),
            r is Ok ==> handed_over(
                old(ctx),
                final(ctx),
                seq![tensor.buffer_id(), indexes.buffer_id(), value.buffer_id()],
                &r->Ok_0,
            ) && r->Ok_0.buffer_id() == old(ctx).len()
                && r->Ok_0.dims() == tensor.dims()
                && r->Ok_0.values(final(ctx)) == scatter_values(
                    tensor.values(old(ctx)),
                    indexes.values(old(ctx)),
                    value.values(old(ctx)),
                    tensor.dims(),
                    dim as int,
                    indexes.dims()[dim as int] as nat,
                ),
    {
        let tb = tensor.buffer();
        let ib = indexes.buffer();
        let vb = value.buffer();
        let n = tensor.shape().dims[dim];
        if !indices_ok(ctx, ib, n) {
            let ghost c0 = *old(ctx);
            let ghost keep: int = -1;
            release_three(ctx, tensor, indexes, value, Ghost(c0), Ghost(keep));
            return Err(TensorError::IndexOutOfBounds);
        }
        let out = Self::scatter_kernel(ctx, dim, &tensor, &indexes, &value);
        let ghost c0 = *old(ctx);
        let ghost keep: int = out.buffer_id() as int;
        release_three(ctx, tensor, indexes, value, Ghost(c0), Ghost(keep));
        Ok(out)
    }

    /// The scatter of `value` into `tensor`, in a fresh buffer.
    fn scatter_kernel(
        ctx: &mut ComputeContext,
        dim: usize,
        tensor: &Tensor,
        indexes: &Tensor,
        value: &Tensor,
    ) -> (out: Tensor)
        requires
            tensor.valid(old(ctx)),
            indexes.valid(old(ctx)),
            value.valid(old(ctx)),
            same_off_axis(tensor.dims(), indexes.dims(), dim as int),
            value.dims() == indexes.dims(),
            indices_in_range(indexes.values(old(ctx)), tensor.dims()[dim as int] as nat),
        ensures
            final(ctx).wf(),
            final(ctx).len() == old(ctx).len() + 1,
            out.buffer_id() == old(ctx).len(),
            out.valid(final(ctx)),
            final(ctx).owner_count(out.buffer_id()) == 1,
            out.dims() == tensor.dims(),
            out.values(final(ctx)) == scatter_values(
                tensor.values(old(ctx)),
                indexes.values(old(ctx)),
                value.values(old(ctx)),
                tensor.dims(),
                dim as int,
                indexes.dims()[dim as int] as nat,
            ),
            forall|b: int| 0 <= b < old(ctx).len() ==> #[trigger] final(ctx).view()[b] == old(ctx).view()[b],
    {
        let tb = tensor.buffer();
        let ib = indexes.buffer();
        let vb = value.buffer();
        let n = tensor.shape().dims[dim];
        let m = indexes.shape().dims[dim];
        ctx.compile(kernel_key(KernelTemplate::Scatter));
        let ghost td = tensor.dims();
        let ghost id = indexes.dims();
        let ghost t = tensor.values(ctx);
        let ghost ix = indexes.values(ctx);
        let ghost vs = value.values(ctx);
        let ghost d = dim as int;
        let ghost expected = scatter_values(t, ix, vs, td, d, m as nat);
        let ghost outer = outer_count(td, d);
        proof {
            lemma_axis_sizes(td, id, d);
            ctx.lemma_contents_len(tb);
            ctx.lemma_contents_len(ib);
        }
        let total = ctx.buffer_len(tb);
        let nb = ctx.create_buffer(total);
        if total > 0 {
            let rank = tensor.shape().rank();
            proof {
                lemma_prod_positive(td);
                let tail = td.subrange(d + 1, td.len() as int);
                assert(all_positive(tail)) by {
                    assert forall|k: int| 0 <= k < tail.len() implies tail[k] >= 1 by {
                        assert(tail[k] == td[d + 1 + k]);
                    }
                }
                lemma_prod_positive(tail);
                let head = td.subrange(0, d);
                assert(all_positive(head)) by {
                    assert forall|k: int| 0 <= k < d implies head[k] >= 1 by {
                        assert(td[k] >= 1);
                    }
                }
                lemma_prod_positive(head);
                let inner_g = inner_count(td, d);
                assert(inner_g <= prod(td) && n * inner_g <= prod(td)) by (nonlinear_arith)
                    requires prod(td) == outer * n * inner_g, outer >= 1, inner_g >= 1, n >= 1;
            }
            let inner = tensor.shape().sub_shape(dim + 1, rank).num_elements();
            let width = n * inner;
            let mut p: usize = 0;
            while p < total
                invariant
                    ctx.wf(),
                    nb == old(ctx).len(),
                    ctx.len() == nb + 1,
                    tb < nb && ib < nb && vb < nb,
                    t == old(ctx).contents(tb),
                    ix == old(ctx).contents(ib),
                    vs == old(ctx).contents(vb),
                    forall|b: int| 0 <= b < nb ==> ctx.view()[b] == old(ctx).view()[b],
                    ctx.owner_count(nb) == 1,
                    ctx.contents(nb).len() == total,
                    total == t.len(),
                    t.len() == outer * n * inner,
                    ix.len() == outer * m * inner,
                    vs.len() == ix.len(),
                    ix.len() <= usize::MAX,
                    inner > 0,
                    n > 0,
                    width == n * inner,
                    inner == inner_count(td, d),
                    n == td[d],
                    m == id[d],
                    d == dim,
                    d < td.len(),
                    expected == scatter_values(t, ix, vs, td, d, m as nat),
                    p <= total,
                    forall|j: int| 0 <= j < p ==> ctx.contents(nb)[j] == expected[j],
                decreases total - p,
            {
                proof {
                    assert(width > 0) by (nonlinear_arith)
                        requires width == n * inner, n > 0, inner > 0;
                }
                let o = p / width;
                let k = (p / inner) % n;
                let q = p % inner;
                proof {
                    assert(o < outer) by (nonlinear_arith)
                        requires o == p / width, p < outer * n * inner, width == n * inner, width > 0;
                    assert(ctx.view()[tb as int] == old(ctx).view()[tb as int]);
                    if m > 0 {
                        lemma_lane_bound(o as nat, outer, m as nat, inner as nat, (m - 1) as nat, q as nat);
                        assert(o * m * inner + q < outer * m * inner) by (nonlinear_arith)
                            requires o * m * inner + (m - 1) * inner + q < outer * m * inner, m > 0;
                    } else {
                        assert(o * m * inner == 0) by (nonlinear_arith)
                            requires m == 0;
                    }
                    assert(o * m <= o * m * inner) by (nonlinear_arith)
                        requires inner >= 1;
                }
                let base = o * m * inner + q;
                let ghost il = strided(ix, base as nat, inner as nat, m as nat);
                let ghost vl = strided(vs, base as nat, inner as nat, m as nat);
                let mut sum: i32 = 0;
                let mut j: usize = 0;
                while j < m
                    invariant
                        ctx.wf(),
                        ctx.len() == nb + 1,
                        ib < nb && vb < nb,
                        forall|b: int| 0 <= b < nb ==> ctx.view()[b] == old(ctx).view()[b],
                        ix == old(ctx).contents(ib),
                        vs == old(ctx).contents(vb),
                        ix.len() == outer * m * inner,
                        ix.len() <= usize::MAX,
                        vs.len() == ix.len(),
                        o < outer,
                        q < inner,
                        il == strided(ix, base as nat, inner as nat, m as nat),
                        vl == strided(vs, base as nat, inner as nat, m as nat),
                        base == o * m * inner + q,
                        j <= m,
                        sum == matching_sum(il.take(j as int), vl.take(j as int), k as int),
                    decreases m - j,
                {
                    proof {
                        lemma_lane_bound(o as nat, outer, m as nat, inner as nat, j as nat, q as nat);
                        assert(j * inner <= o * m * inner + j * inner) by (nonlinear_arith);
                        assert(ctx.view()[ib as int] == old(ctx).view()[ib as int]);
                        assert(ctx.view()[vb as int] == old(ctx).view()[vb as int]);
                        let a = il.take(j + 1);
                        assert(a.drop_last() =~= il.take(j as int));
                        assert(vl.take(j + 1).take(j as int) =~= vl.take(j as int));
                    }
                    let x = ctx.get(ib, base + j * inner);
                    if x >= 0 && x as usize == k {
                        let y = ctx.get(vb, base + j * inner);
                        sum = sum.wrapping_add(y);
                    }
                    j = j + 1;
                }
                proof {
                    assert(il.take(m as int) =~= il);
                    assert(vl.take(m as int) =~= vl);
                }
                let x = ctx.get(tb, p);
                ctx.set(nb, p, x.wrapping_add(sum));
                p = p + 1;
            }
            proof {
                assert(ctx.contents(nb) =~= expected);
            }
        } else {
            proof {
                assert(ctx.contents(nb) =~= expected);
            }
        }
        Tensor::from_parts(tensor.shape().clone_shape(), nb)
    }
}

} // verus!

use vstd::prelude::*;
use crate::kernel::{kernel_key, KernelTemplate};
use crate::context::ComputeContext;
use crate::elementwise::{div_elem, scalar_values, ElemOp};
use crate::numeric::NumericOps;
use crate::ownership::{drop_handles, handle_count, lemma_count_small, handed_over, release_one};
use crate::shape::{all_positive, lemma_prod_positive, lemma_prod_split, prod, Shape};
use crate::tensor::Tensor;

verus! {

/// Wrapping sum of a sequence.
pub open spec fn sum_of(v: Seq<i32>) -> i32
    decreases v.len(),
{
    if v.len() == 0 {
        0
    } else {
        sum_of(v.drop_last()).wrapping_add(v.last())
    }
}

/// Position of the first greatest (`max`) or first least element; zero for an
/// empty sequence.
pub open spec fn arg_best(v: Seq<i32>, max: bool) -> nat
    decreases v.len(),
{
    if v.len() <= 1 {
        0
    } else {
        let p = arg_best(v.drop_last(), max);
        let c = v.last();
        if (max && c > v[p as int]) || (!max && c < v[p as int]) {
            (v.len() - 1) as nat
        } else {
            p
        }
    }
}

/// What a reduction computes from the elements it folds.
#[derive(PartialEq, Eq, Structural, Clone, Copy, Debug)]
pub enum Reduction {
    Sum,
    Mean,
    ArgMax,
    ArgMin,
}

pub open spec fn reduce(kind: Reduction, lane: Seq<i32>) -> i32 {
    match kind {
        Reduction::Sum => sum_of(lane),
        Reduction::Mean => div_elem(sum_of(lane), lane.len() as i32),
        Reduction::ArgMax => arg_best(lane, true) as i32,
        Reduction::ArgMin => arg_best(lane, false) as i32,
    }
}

/// `n` elements of `v`, from `base` on, `step` apart.
pub open spec fn strided(v: Seq<i32>, base: nat, step: nat, n: nat) -> Seq<i32> {
    Seq::new(n, |k: int| v[base + k * step])
}

/// Elements per step along axis `dim`: the product of the axes after it.
pub open spec fn inner_count(dims: Seq<usize>, dim: int) -> nat {
    prod(dims.subrange(dim + 1, dims.len() as int))
}

/// The elements that reduce into position `j` of the result of reducing axis
/// `dim`: those whose coordinates agree with `j`'s off that axis.
pub open spec fn lane(v: Seq<i32>, dims: Seq<usize>, dim: int, j: nat) -> Seq<i32> {
    let inner = inner_count(dims, dim);
    let n = dims[dim] as nat;
    strided(v, (j / inner) * n * inner + j % inner, inner, n)
}

/// Shape of the result of reducing axis `dim`: that axis becomes one.
pub open spec fn reduced_dims(dims: Seq<usize>, dim: int) -> Seq<usize> {
    dims.update(dim, 1)
}

/// The result of reducing axis `dim`, in row-major order.
pub open spec fn reduce_dim_values(kind: Reduction, v: Seq<i32>, dims: Seq<usize>, dim: int) -> Seq<i32> {
    Seq::new(prod(reduced_dims(dims, dim)), |j: int| reduce(kind, lane(v, dims, dim, j as nat)))
}

pub proof fn lemma_lane_bound(o: nat, outer: nat, n: nat, inner: nat, k: nat, q: nat)
    requires
        o < outer,
        k < n,
        q < inner,
    ensures
        o * n * inner + k * inner + q < outer * n * inner,
{
    assert(o * n * inner + k * inner + q < (o * n + k + 1) * inner) by (nonlinear_arith)
        requires q < inner;
    assert((o * n + k + 1) * inner <= (o + 1) * n * inner) by (nonlinear_arith)
        requires k < n;
    assert((o + 1) * n * inner <= outer * n * inner) by (nonlinear_arith)
        requires o < outer;
}

/// Folds the strided elements of buffer `b`.
fn reduce_strided(ctx: &ComputeContext, b: usize, base: usize, step: usize, n: usize, kind: Reduction) -> (r: i32)
    requires
        ctx.wf(),
        b < ctx.len(),
        n == 0 || base + (n - 1) * step < ctx.contents(b).len(),
    ensures
        r == reduce(kind, strided(ctx.contents(b), base as nat, step as nat, n as nat)),
{
    let ghost v = ctx.contents(b);
    let ghost s = strided(v, base as nat, step as nat, n as nat);
    let mut acc: i32 = 0;
    let mut best: usize = 0;
    let mut best_v: i32 = 0;
    let mut k: usize = 0;
    proof {
        ctx.lemma_contents_len(b);
    }
    while k < n
        invariant
            ctx.wf(),
            b < ctx.len(),
            v == ctx.contents(b),
            v.len() <= usize::MAX,
            s == strided(v, base as nat, step as nat, n as nat),
            n == 0 || base + (n - 1) * step < v.len(),
            k <= n,
            acc == sum_of(s.take(k as int)),
            (kind is ArgMax || kind is ArgMin) && k > 0 ==> best == arg_best(
                s.take(k as int),
                kind is ArgMax,
            ) && best < k && best_v == s[best as int],
            k == 0 ==> best == 0,
        decreases n - k,
    {
        proof {
            assert(k * step <= (n - 1) * step) by (nonlinear_arith)
                requires k <= n - 1;
        }
        let x = ctx.get(b, base + k * step);
        proof {
            let t = s.take(k + 1);
            assert(t.drop_last() =~= s.take(k as int));
            assert(x == s[k as int]);
            assert(t.last() == x);
            if k > 0 && (kind is ArgMax || kind is ArgMin) {
                assert(t[best as int] == s[best as int]);
            }
        }
        acc = acc.wrapping_add(x);
        if k == 0 {
            best = 0;
            best_v = x;
        } else {
            let better = match kind {
                Reduction::ArgMax => x > best_v,
                Reduction::ArgMin => x < best_v,
                _ => false,
            };
            if better {
                best = k;
                best_v = x;
            }
        }
        k = k + 1;
    }
    proof {
        assert(s.take(n as int) =~= s);
    }
    match kind {
        Reduction::Sum => acc,
        Reduction::Mean => crate::elementwise::apply_op(ElemOp::Div, acc, #[verifier::truncate] (n as i32)),
        Reduction::ArgMax => #[verifier::truncate] (best as i32),
        Reduction::ArgMin => #[verifier::truncate] (best as i32),
    }
}

fn reduce_dim(ctx: &mut ComputeContext, tensor: Tensor, dim: usize, kind: Reduction) -> (out: Tensor)
    requires
        tensor.valid(old(ctx)),
        dim < tensor.dims().len(),
        prod(reduced_dims(tensor.dims(), dim as int)) <= usize::MAX,
    ensures
        handed_over(old(ctx), final(ctx), seq![tensor.buffer_id()], &out),
        out.buffer_id() == old(ctx).len(),
        out.dims() == reduced_dims(tensor.dims(), dim as int),
        out.values(final(ctx)) == reduce_dim_values(kind, tensor.values(old(ctx)), tensor.dims(), dim as int),
{
    ctx.compile(kernel_key(KernelTemplate::ReduceDim(kind)));
    let ghost dims = tensor.dims();
    let ghost v = tensor.values(ctx);
    let ghost rd = reduced_dims(dims, dim as int);
    let ghost expected = reduce_dim_values(kind, v, dims, dim as int);
    let shape = tensor.shape();
    let out_shape = shape.with_dim(dim, 1);
    let total = out_shape.num_elements();
    let ob = ctx.create_buffer(total);
    let tb = tensor.buffer();
    if total > 0 {
        let ghost outer = prod(dims.subrange(0, dim as int));
        let ghost inner_g = inner_count(dims, dim as int);
        proof {
            lemma_prod_split(rd, dim as int);
            assert(rd.subrange(0, dim as int) =~= dims.subrange(0, dim as int));
            assert(rd.subrange(dim + 1, rd.len() as int) =~= dims.subrange(dim + 1, dims.len() as int));
            lemma_prod_positive(rd);
            lemma_prod_positive(dims.subrange(0, dim as int));
            assert(all_positive(dims.subrange(0, dim as int))) by {
                assert forall|k: int| 0 <= k < dim implies dims.subrange(0, dim as int)[k] >= 1 by {
                    assert(rd[k] >= 1);
                }
            }
            assert(outer >= 1);
            assert(inner_g <= outer * inner_g) by (nonlinear_arith)
                requires outer >= 1;
            lemma_prod_split(dims, dim as int);
            ctx.lemma_contents_len(tb);
        }
        let rank = shape.rank();
        let inner = shape.sub_shape(dim + 1, rank).num_elements();
        let n = shape.dims[dim];
        let mut j: usize = 0;
        while j < total
            invariant
                ctx.wf(),
                ob == old(ctx).len(),
                ctx.len() == ob + 1,
                tb < ob,
                v == old(ctx).contents(tb),
                forall|b: int| 0 <= b < ob ==> ctx.view()[b] == old(ctx).view()[b],
                ctx.owner_count(ob) == 1,
                ctx.contents(ob).len() == total,
                total == prod(rd),
                rd == reduced_dims(dims, dim as int),
                dim < dims.len(),
                total == outer * inner,
                inner == inner_g,
                inner_g == inner_count(dims, dim as int),
                n == dims[dim as int],
                v.len() == outer * n * inner,
                v.len() <= usize::MAX,
                expected == reduce_dim_values(kind, v, dims, dim as int),
                j <= total,
                forall|i: int| 0 <= i < j ==> ctx.contents(ob)[i] == expected[i],
            decreases total - j,
        {
            let o = j / inner;
            let q = j % inner;
            proof {
                assert(o < outer) by (nonlinear_arith)
                    requires o == j / inner, j < outer * inner, inner > 0;
                assert(q < inner);
                if n > 0 {
                    lemma_lane_bound(o as nat, outer, n as nat, inner as nat, (n - 1) as nat, q as nat);
                    assert(o * n * inner + q < outer * n * inner) by (nonlinear_arith)
                        requires o * n * inner + (n - 1) * inner + q < outer * n * inner, n > 0;
                } else {
                    assert(o * n * inner == 0) by (nonlinear_arith)
                        requires n == 0;
                }
                assert(o * n <= o * n * inner) by (nonlinear_arith)
                    requires inner >= 1;
                assert(ctx.view()[tb as int] == old(ctx).view()[tb as int]);
            }
            let base = o * n * inner + q;
            let x = reduce_strided(ctx, tb, base, inner, n, kind);
            proof {
                assert(lane(v, dims, dim as int, j as nat) == strided(v, base as nat, inner as nat, n as nat));
            }
            ctx.set(ob, j, x);
            j = j + 1;
        }
        proof {
            assert(ctx.contents(ob) =~= expected);
        }
    } else {
        proof {
            assert(ctx.contents(ob) =~= expected);
        }
    }
    let ghost c0 = *old(ctx);
    let ghost keep: int = ob as int;
    release_one(ctx, tensor, Ghost(c0), Ghost(keep));
    proof {
    }
    Tensor::from_parts(out_shape, ob)
}

impl NumericOps {
    /// Sum of all elements, as a one-element tensor of rank one.
    pub fn sum(ctx: &mut ComputeContext, tensor: Tensor) -> (out: Tensor)
        requires
            tensor.valid(old(ctx)),
        ensures
            handed_over(old(ctx), final(ctx), seq![tensor.buffer_id()], &out),
            out.buffer_id() == old(ctx).len(),
            out.dims() == seq![1usize],
            out.values(final(ctx)) == seq![sum_of(tensor.values(old(ctx)))],
    {
        ctx.compile(kernel_key(KernelTemplate::ReduceAll));
        let ghost v = tensor.values(ctx);
        let tb = tensor.buffer();
        let n = ctx.buffer_len(tb);
        proof {
            if n > 0 {
                assert((n - 1) * 1 == n - 1);
            }
        }
        let x = reduce_strided(ctx, tb, 0, 1, n, Reduction::Sum);
        proof {
            assert(strided(v, 0, 1, n as nat) =~= v);
        }
        let mut data: Vec<i32> = Vec::new();
        data.push(x);
        let ob = ctx.create_buffer_with_data(data);
        let ghost c0 = *old(ctx);
        let ghost keep: int = ob as int;
        release_one(ctx, tensor, Ghost(c0), Ghost(keep));
        proof {
            assert(data@ =~= seq![sum_of(v)]);
        }
        let mut dims: Vec<usize> = Vec::new();
        dims.push(1);
        proof {
            assert(dims@ =~= seq![1usize]);
            assert(seq![1usize].drop_last() =~= Seq::<usize>::empty());
            assert(prod(seq![1usize]) == prod(Seq::<usize>::empty()) * 1);
        }
        Tensor::from_parts(Shape::new(dims), ob)
    }

    /// Sum along one axis, which becomes of extent one.
    pub fn sum_dim(ctx: &mut ComputeContext, tensor: Tensor, dim: usize) -> (out: Tensor)
        requires
            tensor.valid(old(ctx)),
            dim < tensor.dims().len(),
            prod(reduced_dims(tensor.dims(), dim as int)) <= usize::MAX,
        ensures
            handed_over(old(ctx), final(ctx), seq![tensor.buffer_id()], &out),
            out.dims() == reduced_dims(tensor.dims(), dim as int),
            out.values(final(ctx)) == reduce_dim_values(
                Reduction::Sum,
                tensor.values(old(ctx)),
                tensor.dims(),
                dim as int,
            ),
    {
        reduce_dim(ctx, tensor, dim, Reduction::Sum)
    }

    /// Mean of all elements: their sum divided by their count.
    pub fn mean(ctx: &mut ComputeContext, tensor: Tensor) -> (out: Tensor)
        requires
            tensor.valid(old(ctx)),
        ensures
            handed_over(old(ctx), final(ctx), seq![tensor.buffer_id()], &out),
            out.buffer_id() == old(ctx).len(),
            out.dims() == seq![1usize],
            out.values(final(ctx)) == seq![
                div_elem(sum_of(tensor.values(old(ctx))), tensor.values(old(ctx)).len() as i32),
            ],
    {
        let ghost v = tensor.values(ctx);
        let n = ctx.buffer_len(tensor.buffer());
        let ghost tb = tensor.buffer_id();
        let s = Self::sum(ctx, tensor);
        let ghost c1 = *ctx;
        let ghost sb = s.buffer_id();
        let out = Self::div_scalar(ctx, s, n as i32);
        proof {
            lemma_count_small(tb, tb, sb);
            assert forall|b: usize| b < old(ctx).len() && b != out.buffer_id() as int implies #[trigger] ctx.view()[b as int]
                == drop_handles(old(ctx).view()[b as int], handle_count(seq![tb], b)) by {
                lemma_count_small(sb, sb, b);
                lemma_count_small(tb, tb, b);
                assert(ctx.view()[b as int] == drop_handles(c1.view()[b as int], handle_count(seq![sb], b)));
            }
            assert(scalar_values(ElemOp::Div, seq![sum_of(v)], n as i32) =~= seq![
                div_elem(sum_of(v), n as i32),
            ]);
        }
        out
    }

    /// Mean along one axis, which becomes of extent one.
    pub fn mean_dim(ctx: &mut ComputeContext, tensor: Tensor, dim: usize) -> (out: Tensor)
        requires
            tensor.valid(old(ctx)),
            dim < tensor.dims().len(),
            prod(reduced_dims(tensor.dims(), dim as int)) <= usize::MAX,
        ensures
            handed_over(old(ctx), final(ctx), seq![tensor.buffer_id()], &out),
            out.dims() == reduced_dims(tensor.dims(), dim as int),
            out.values(final(ctx)) == reduce_dim_values(
                Reduction::Mean,
                tensor.values(old(ctx)),
                tensor.dims(),
                dim as int,
            ),
    {
        reduce_dim(ctx, tensor, dim, Reduction::Mean)
    }

    /// Position along one axis of the first greatest element; the axis becomes
    /// of extent one.
    pub fn argmax(ctx: &mut ComputeContext, tensor: Tensor, dim: usize) -> (out: Tensor)
        requires
            tensor.valid(old(ctx)),
            dim < tensor.dims().len(),
            prod(reduced_dims(tensor.dims(), dim as int)) <= usize::MAX,
        ensures
            handed_over(old(ctx), final(ctx), seq![tensor.buffer_id()], &out),
            out.dims() == reduced_dims(tensor.dims(), dim as int),
            out.values(final(ctx)) == reduce_dim_values(
                Reduction::ArgMax,
                tensor.values(old(ctx)),
                tensor.dims(),
                dim as int,
            ),
    {
        reduce_dim(ctx, tensor, dim, Reduction::ArgMax)
    }

    /// Position along one axis of the first least element; the axis becomes
    /// of extent one.
    pub fn argmin(ctx: &mut ComputeContext, tensor: Tensor, dim: usize) -> (out: Tensor)
        requires
            tensor.valid(old(ctx)),
            dim < tensor.dims().len(),
            prod(reduced_dims(tensor.dims(), dim as int)) <= usize::MAX,
        ensures
            handed_over(old(ctx), final(ctx), seq![tensor.buffer_id()], &out),
            out.dims() == reduced_dims(tensor.dims(), dim as int),
            out.values(final(ctx)) == reduce_dim_values(
                Reduction::ArgMin,
                tensor.values(old(ctx)),
                tensor.dims(),
                dim as int,
            ),
    {
        reduce_dim(ctx, tensor, dim, Reduction::ArgMin)
    }
}

} // verus!

use vstd::prelude::*;
use crate::kernel::{kernel_key, KernelTemplate};
use vstd::arithmetic::div_mod::{lemma_breakdown, lemma_div_denominator, lemma_fundamental_div_mod};
use crate::base::{BaseOps, TensorError};
use crate::cat::{
    block_width, cat_compatible, cat_dims, cat_offset, cat_places, cat_values, cat_width,
    extent_sum, in_block, lemma_extent_mono, lemma_extent_step, outer_count,
};
use crate::index::{ranges_valid, region_dims, region_index, region_lows, region_values};
use crate::context::ComputeContext;
use crate::ownership::{dropped, handed_over, release_one};
use crate::reduce::inner_count;
use crate::shape::{lemma_prod_positive, lemma_prod_split, prod};
use crate::tensor::Tensor;

verus! {

/// The elements of the sub-tensor that keeps positions `lo` up to `hi` of
/// axis `dim` and every position of the other axes, row-major.
pub open spec fn slice_dim_values(v: Seq<i32>, dims: Seq<usize>, dim: int, lo: nat, hi: nat) -> Seq<i32> {
    let inner = inner_count(dims, dim);
    let w = ((hi - lo) as nat) * inner;
    let width = dims[dim] as nat * inner;
    Seq::new(
        outer_count(dims, dim) * w,
        |i: int| v[(i / w as int) * width + lo * inner + i % w as int],
    )
}

/// Each input of a concatenation is recovered from the result by keeping,
/// along the concatenation axis, the range that the inputs before it end at
/// and that it ends at.
pub proof fn lemma_cat_then_slice(
    out: Seq<i32>,
    ins: Seq<Seq<i32>>,
    shapes: Seq<Seq<usize>>,
    dim: int,
    t: int,
)
    requires
        cat_compatible(shapes, dim),
        ins.len() == shapes.len(),
        forall|u: int| 0 <= u < shapes.len() ==> (#[trigger] ins[u]).len() == prod(shapes[u]),
        cat_values(out, ins, shapes, dim),
        extent_sum(shapes, dim) <= usize::MAX,
        0 <= t < shapes.len(),
    ensures
        slice_dim_values(
            out,
            cat_dims(shapes, dim),
            dim,
            extent_sum(shapes.take(t), dim),
            extent_sum(shapes.take(t + 1), dim),
        ) == ins[t],
{
    let s0 = shapes[0];
    let cd = cat_dims(shapes, dim);
    let lo = extent_sum(shapes.take(t), dim);
    let hi = extent_sum(shapes.take(t + 1), dim);
    assert(shapes.take(t + 1).drop_last() =~= shapes.take(t));
    assert(hi == lo + shapes[t][dim] as nat);
    assert(cd.subrange(0, dim) =~= s0.subrange(0, dim));
    assert(cd.subrange(dim + 1, cd.len() as int) =~= s0.subrange(dim + 1, s0.len() as int));
    assert(shapes[t].subrange(0, dim) =~= s0.subrange(0, dim));
    assert(shapes[t].subrange(dim + 1, shapes[t].len() as int) =~= s0.subrange(dim + 1, s0.len() as int));
    lemma_prod_split(shapes[t], dim);
    let inner = inner_count(s0, dim);
    let outer = outer_count(s0, dim);
    let w = block_width(shapes, dim, t);
    assert(w == ((hi - lo) as nat) * inner);
    assert(ins[t].len() == outer * w) by (nonlinear_arith)
        requires ins[t].len() == outer * (shapes[t][dim] as nat) * inner, w == (shapes[t][dim] as nat) * inner;
    let sl = slice_dim_values(out, cd, dim, lo, hi);
    assert(sl.len() == ins[t].len());
    assert forall|i: int| 0 <= i < sl.len() implies sl[i] == ins[t][i] by {
        let o = i / w as int;
        let r = i % w as int;
        assert(w > 0) by (nonlinear_arith)
            requires 0 <= i < outer * w;
        lemma_fundamental_div_mod(i, w as int);
        assert(0 <= r < w);
        assert(0 <= o < outer) by (nonlinear_arith)
            requires i == w * o + r, 0 <= r < w, 0 <= i < outer * w, w > 0;
        assert(in_block(shapes, dim, t, o, r));
        assert(cat_places(out, ins, shapes, dim, t, o, r));
        assert(cat_offset(shapes, dim, t) == lo * inner);
        assert(cat_width(shapes, dim) == (cd[dim] as nat) * inner);
        assert(o * w + r == i) by (nonlinear_arith)
            requires i == w * o + r;
    }
    assert(sl =~= ins[t]);
}

/// A region that keeps every axis whole is read in place: position `i` of
/// the region is position `i` of the tensor.
pub proof fn lemma_region_index_whole(dims: Seq<usize>, lows: Seq<usize>, i: nat)
    requires
        lows.len() == dims.len(),
        forall|k: int| 0 <= k < lows.len() ==> lows[k] == 0,
        i < prod(dims),
    ensures
        region_index(dims, dims, lows, i) == i,
    decreases dims.len(),
{
    if dims.len() > 0 {
        let p = dims.drop_last();
        let d = dims.last() as nat;
        lemma_prod_positive(dims);
        assert(d >= 1);
        let q = i / d;
        lemma_fundamental_div_mod(i as int, d as int);
        assert(q < prod(p)) by (nonlinear_arith)
            requires i == d * q + i % d, i % d >= 0, i < prod(p) * d, d >= 1;
        lemma_region_index_whole(p, lows.drop_last(), q);
        assert(lows.last() == 0);
        assert(q * d == d * q) by (nonlinear_arith);
    }
}

/// A region that keeps every axis whole but `dim`, where it keeps
/// `ext[dim]` positions from `lows[dim]`, reads the positions of the
/// single-axis slice.
pub proof fn lemma_region_index_axis(ext: Seq<usize>, dims: Seq<usize>, lows: Seq<usize>, dim: int, i: nat)
    requires
        ext.len() == dims.len(),
        lows.len() == dims.len(),
        0 <= dim < dims.len(),
        forall|k: int| 0 <= k < dims.len() && k != dim ==> ext[k] == dims[k] && lows[k] == 0,
        lows[dim] + ext[dim] <= dims[dim],
        i < prod(ext),
    ensures
        region_index(ext, dims, lows, i) == (i / (ext[dim] as nat * inner_count(dims, dim))) * (
        dims[dim] as nat * inner_count(dims, dim)) + lows[dim] * inner_count(dims, dim) + i % (
        ext[dim] as nat * inner_count(dims, dim)),
    decreases dims.len(),
{
    let n = dims.len() as int;
    let pe = ext.drop_last();
    let pd = dims.drop_last();
    let pl = lows.drop_last();
    lemma_prod_positive(ext);
    let d = ext.last() as nat;
    assert(d >= 1);
    let q = i / d;
    lemma_fundamental_div_mod(i as int, d as int);
    assert(q < prod(pe)) by (nonlinear_arith)
        requires i == d * q + i % d, i % d >= 0, i < prod(pe) * d, d >= 1;
    let lo = lows[dim] as nat;
    if dim == n - 1 {
        assert(dims.subrange(dim + 1, n) =~= Seq::<usize>::empty());
        assert(inner_count(dims, dim) == 1);
        assert(pe =~= pd);
        lemma_region_index_whole(pd, pl, q);
        assert(ext[dim] as nat * 1 == d);
        assert(lo * 1 == lo);
    } else {
        lemma_region_index_axis(pe, pd, pl, dim, q);
        let tail = dims.subrange(dim + 1, n);
        assert(tail.drop_last() =~= pd.subrange(dim + 1, n - 1));
        assert(tail.last() == dims.last());
        let inner1 = inner_count(pd, dim);
        assert(inner_count(dims, dim) == inner1 * d);
        assert(lows.last() == 0);
        assert(ext[dim] == pe[dim] && dims[dim] == pd[dim] && lows[dim] == pl[dim]);
        let k = ext[dim] as nat;
        let big = dims[dim] as nat;
        let w1 = k * inner1;
        let width1 = big * inner1;
        assert forall|j: int| 0 <= j < pe.len() implies pe[j] >= 1 by {
            assert(ext[j] >= 1);
        }
        lemma_prod_positive(pe);
        assert(inner1 >= 1) by {
            let t1 = pd.subrange(dim + 1, n - 1);
            assert forall|j: int| 0 <= j < t1.len() implies t1[j] >= 1 by {
                assert(t1[j] == pe[dim + 1 + j]);
            }
            lemma_prod_positive(t1);
        }
        assert(w1 >= 1) by (nonlinear_arith)
            requires w1 == k * inner1, k >= 1, inner1 >= 1;
        lemma_div_denominator(i as int, d as int, w1 as int);
        lemma_breakdown(i as int, d as int, w1 as int);
        assert(k * (inner1 * d) == d * w1) by (nonlinear_arith)
            requires w1 == k * inner1;
        assert(big * (inner1 * d) == width1 * d) by (nonlinear_arith)
            requires width1 == big * inner1;
        let r = i % d;
        let a = q / w1;
        let b = q % w1;
        assert((a * width1 + lo * inner1 + b) * d + r == a * (width1 * d) + lo * (inner1 * d) + (d * b + r))
            by (nonlinear_arith);
    }
}

/// The region lemma in the terms of `slice_dim_values`.
proof fn lemma_region_index_slice(
    ext: Seq<usize>,
    dims: Seq<usize>,
    lows: Seq<usize>,
    dim: int,
    lo: nat,
    hi: nat,
    i: nat,
)
    requires
        ext.len() == dims.len(),
        lows.len() == dims.len(),
        0 <= dim < dims.len(),
        forall|k: int| 0 <= k < dims.len() && k != dim ==> ext[k] == dims[k] && lows[k] == 0,
        lows[dim] + ext[dim] <= dims[dim],
        lows[dim] == lo,
        lo <= hi,
        ext[dim] == hi - lo,
        i < prod(ext),
    ensures
        region_index(ext, dims, lows, i) == (i as int / (((hi - lo) as nat) * inner_count(dims, dim)) as int) * (
        (dims[dim] as nat) * inner_count(dims, dim)) + lo * inner_count(dims, dim) + i as int % (((hi
            - lo) as nat) * inner_count(dims, dim)) as int,
{
    lemma_region_index_axis(ext, dims, lows, dim, i);
    let inner = inner_count(dims, dim);
    let e = ext[dim] as nat;
    let k = (hi - lo) as nat;
    assert(e == k);
    let wa = e * inner;
    let wb = k * inner;
    assert(wa == wb);
    let q = i as int / wa as int;
    let r = i as int % wa as int;
    assert(q == i as int / wb as int);
    assert(r == i as int % wb as int);
    assert(lows[dim] * inner == lo * inner);
    let x = (dims[dim] as nat) * inner;
    let ri = region_index(ext, dims, lows, i);
    assert(ri == (i / wa) * x + lows[dim] * inner + i % wa);
    assert(i / wa == q && i % wa == r);
    let a = i / wa;
    let b = i % wa;
    let c = lows[dim] * inner;
    assert(ri == q * x + lo * inner + r) by (nonlinear_arith)
        requires ri == a * x + c + b, a == q, b == r, c == lo * inner;
    assert(q == i as int / (((hi - lo) as nat) * inner) as int);
}

/// Each input of a concatenation is recovered from the result by `index`
/// with whole ranges on the axes before `dim` and, on `dim`, the range that
/// the inputs before it end at and that it ends at.
pub proof fn lemma_cat_then_index(
    out: Seq<i32>,
    ins: Seq<Seq<i32>>,
    shapes: Seq<Seq<usize>>,
    dim: int,
    t: int,
)
    requires
        cat_compatible(shapes, dim),
        ins.len() == shapes.len(),
        forall|u: int| 0 <= u < shapes.len() ==> (#[trigger] ins[u]).len() == prod(shapes[u]),
        cat_values(out, ins, shapes, dim),
        extent_sum(shapes, dim) <= usize::MAX,
        0 <= t < shapes.len(),
    ensures
        ranges_valid(cat_dims(shapes, dim), cat_ranges(shapes, dim, t)),
        region_dims(cat_dims(shapes, dim), cat_ranges(shapes, dim, t)) == shapes[t],
        region_values(
            out,
            region_dims(cat_dims(shapes, dim), cat_ranges(shapes, dim, t)),
            cat_dims(shapes, dim),
            region_lows(cat_dims(shapes, dim), cat_ranges(shapes, dim, t)),
        ) == ins[t],
{
    let cd = cat_dims(shapes, dim);
    let rs = cat_ranges(shapes, dim, t);
    let ext = region_dims(cd, rs);
    let lows = region_lows(cd, rs);
    let lo = extent_sum(shapes.take(t), dim);
    let hi = extent_sum(shapes.take(t + 1), dim);
    lemma_extent_step(shapes, dim, t);
    lemma_extent_mono(shapes, dim, t + 1, shapes.len() as int);
    assert(shapes.take(shapes.len() as int) =~= shapes);
    assert(ranges_valid(cd, rs));
    assert(ext =~= shapes[t]);
    lemma_cat_then_slice(out, ins, shapes, dim, t);
    let sl = slice_dim_values(out, cd, dim, lo, hi);
    let rv = region_values(out, ext, cd, lows);
    assert(rv.len() == sl.len());
    assert(lows[dim] as nat == lo);
    assert(ext[dim] as nat == hi - lo);
    assert forall|i: int| 0 <= i < rv.len() implies rv[i] == sl[i] by {
        lemma_region_index_slice(ext, cd, lows, dim, lo, hi, i as nat);
    }
    assert(rv =~= sl);
}

/// The ranges that pick input `t` out of a concatenation along `dim`: whole
/// on the axes before `dim`; on `dim`, from the extent of the inputs before
/// `t` to that extent plus `t`'s own. The axes after `dim` are kept whole.
pub open spec fn cat_ranges(shapes: Seq<Seq<usize>>, dim: int, t: int) -> Seq<std::ops::Range<usize>> {
    Seq::new(
        (dim + 1) as nat,
        |k: int|
            if k < dim {
                (std::ops::Range { start: 0usize, end: shapes[0][k] })
            } else {
                (std::ops::Range {
                    start: extent_sum(shapes.take(t), dim) as usize,
                    end: extent_sum(shapes.take(t + 1), dim) as usize,
                })
            },
    )
}

impl BaseOps {
    /// The sub-tensor that keeps positions `start` up to `end` of axis `dim`,
    /// in a fresh buffer. A range outside the axis is refused. The handle is
    /// dropped either way.
    pub fn narrow(ctx: &mut ComputeContext, tensor: Tensor, dim: usize, start: usize, end: usize) -> (r: Result<Tensor, TensorError>)
        requires
            tensor.valid(old(ctx)),
        ensures
            r is Err <==> !(dim < tensor.dims().len() && start <= end && end <= tensor.dims()[dim as int]),
            r is Err ==> r->Err_0 == TensorError::IndexOutOfBounds,
            r is Err ==> dropped(old(ctx), final(ctx), seq![tensor.buffer_id()]),
            r is Ok ==> handed_over(old(ctx), final(ctx), seq![tensor.buffer_id()], &r->Ok_0)
                && r->Ok_0.buffer_id() == old(ctx).len()
                && r->Ok_0.dims() == tensor.dims().update(dim as int, (end - start) as usize)
                && r->Ok_0.values(final(ctx)) == slice_dim_values(
                    tensor.values(old(ctx)),
                    tensor.dims(),
                    dim as int,
                    start as nat,
                    end as nat,
                ),
    {
        let rank = tensor.shape().rank();
        if !(dim < rank && start <= end && end <= tensor.shape().dims[dim]) {
            let ghost c0 = *old(ctx);
            let ghost keep: int = -1;
            release_one(ctx, tensor, Ghost(c0), Ghost(keep));
            return Err(TensorError::IndexOutOfBounds);
        }
        ctx.compile(kernel_key(KernelTemplate::Narrow));
        let ghost dims = tensor.dims();
        let ghost v = tensor.values(ctx);
        let ghost d = dim as int;
        let ghost expected = slice_dim_values(v, dims, d, start as nat, end as nat);
        let out_shape = tensor.shape().with_dim(dim, end - start);
        let ghost od = out_shape@;
        let ghost outer_g = outer_count(dims, d);
        let ghost inner_g = inner_count(dims, d);
        let ghost n_g = dims[d] as nat;
        let ghost k_g = (end - start) as nat;
        proof {
            lemma_prod_split(dims, d);
            lemma_prod_split(od, d);
            assert(od.subrange(0, d) =~= dims.subrange(0, d));
            assert(od.subrange(d + 1, od.len() as int) =~= dims.subrange(d + 1, dims.len() as int));
            ctx.lemma_contents_len(tensor.buffer_id());
            assert(prod(od) <= prod(dims)) by (nonlinear_arith)
                requires prod(od) == outer_g * k_g * inner_g, prod(dims) == outer_g * n_g * inner_g, k_g <= n_g;
        }
        let total = out_shape.num_elements();
        let ob = ctx.create_buffer(total);
        let tb = tensor.buffer();
        if total > 0 {
            proof {
                assert(outer_g > 0 && inner_g > 0 && k_g > 0) by (nonlinear_arith)
                    requires total == outer_g * k_g * inner_g, total > 0;
                assert(inner_g <= prod(dims) && n_g * inner_g <= prod(dims)) by (nonlinear_arith)
                    requires prod(dims) == outer_g * n_g * inner_g, outer_g > 0, n_g >= k_g, k_g > 0;
            }
            let inner = tensor.shape().sub_shape(dim + 1, rank).num_elements();
            proof {
                assert((end - start) * inner <= n_g * inner_g && start * inner <= n_g * inner_g)
                    by (nonlinear_arith)
                    requires inner == inner_g, end <= n_g, start <= end;
            }
            let w = (end - start) * inner;
            let width = tensor.shape().dims[dim] * inner;
            let lo = start * inner;
            proof {
                assert(lo + w <= width) by (nonlinear_arith)
                    requires lo == start * inner, w == (end - start) * inner, width == n_g * inner, end <= n_g;
                assert(w > 0) by (nonlinear_arith)
                    requires w == (end - start) * inner, inner == inner_g, inner_g > 0, k_g == end - start, k_g > 0;
                assert(total == outer_g * w) by (nonlinear_arith)
                    requires total == outer_g * k_g * inner_g, w == k_g * inner, inner == inner_g;
                assert(v.len() == outer_g * width) by (nonlinear_arith)
                    requires v.len() == outer_g * n_g * inner_g, width == n_g * inner, inner == inner_g;
            }
            let mut i: usize = 0;
            while i < total
                invariant
                    ctx.wf(),
                    ob == old(ctx).len(),
                    ctx.len() == ob + 1,
                    tb < ob,
                    v == old(ctx).contents(tb),
                    forall|b: int| 0 <= b < ob ==> ctx.view()[b] == old(ctx).view()[b],
                    ctx.owner_count(ob) == 1,
                    ctx.contents(ob).len() == total,
                    total == outer_g * w,
                    w > 0,
                    lo + w <= width,
                    v.len() == outer_g * width,
                    v.len() <= usize::MAX,
                    inner == inner_g,
                    inner_g == inner_count(dims, d),
                    w == k_g * inner,
                    width == n_g * inner,
                    lo == start * inner,
                    n_g == dims[d],
                    k_g == end - start,
                    outer_g == outer_count(dims, d),
                    expected == slice_dim_values(v, dims, d, start as nat, end as nat),
                    i <= total,
                    forall|j: int| 0 <= j < i ==> ctx.contents(ob)[j] == expected[j],
                decreases total - i,
            {
                let o = i / w;
                let r = i % w;
                proof {
                    assert(o < outer_g) by (nonlinear_arith)
                        requires o == i / w, i < outer_g * w, w > 0;
                    assert(o * width + lo + r < outer_g * width) by (nonlinear_arith)
                        requires o < outer_g, lo + r < width;
                    assert(ctx.view()[tb as int] == old(ctx).view()[tb as int]);
                }
                let x = ctx.get(tb, o * width + lo + r);
                ctx.set(ob, i, x);
                i = i + 1;
            }
            proof {
                assert(expected.len() == outer_g * w);
                assert(ctx.contents(ob) =~= expected);
            }
        } else {
            proof {
                assert(outer_g * (k_g * inner_g) == 0) by (nonlinear_arith)
                    requires total == outer_g * k_g * inner_g, total == 0;
                assert(ctx.contents(ob) =~= expected);
            }
        }
        let ghost c0 = *old(ctx);
        let ghost keep: int = ob as int;
        release_one(ctx, tensor, Ghost(c0), Ghost(keep));
        proof {
        }
        Ok(Tensor::from_parts(out_shape, ob))
    }
}

} // verus!

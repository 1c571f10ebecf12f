use vstd::prelude::*;
use crate::kernel::{kernel_key, KernelTemplate};
use crate::context::ComputeContext;
use crate::reduce::inner_count;
use crate::shape::{lemma_prod_positive, lemma_prod_split, prod};
use crate::ownership::{lemma_released_start, release_recorded, released_except};
use crate::tensor::Tensor;

verus! {

/// Sum of the extents along axis `dim` of the given shapes.
pub open spec fn extent_sum(shapes: Seq<Seq<usize>>, dim: int) -> nat
    decreases shapes.len(),
{
    if shapes.len() == 0 {
        0
    } else {
        extent_sum(shapes.drop_last(), dim) + shapes.last()[dim] as nat
    }
}

/// Number of outer blocks for axis `dim`: the product of the axes before it.
pub open spec fn outer_count(dims: Seq<usize>, dim: int) -> nat {
    prod(dims.subrange(0, dim))
}

pub open spec fn shapes_of(ts: Seq<Tensor>) -> Seq<Seq<usize>> {
    Seq::new(ts.len(), |t: int| ts[t].dims())
}

/// The buffers of the handles, in order.
pub open spec fn buffers_of(ts: Seq<Tensor>) -> Seq<usize> {
    Seq::new(ts.len(), |t: int| ts[t].buffer_id())
}

pub open spec fn contents_of(ctx: &ComputeContext, ts: Seq<Tensor>) -> Seq<Seq<i32>> {
    Seq::new(ts.len(), |t: int| ts[t].values(ctx))
}

/// At least one shape; all of one rank, which exceeds `dim`; and equal off
/// axis `dim`.
pub open spec fn cat_compatible(shapes: Seq<Seq<usize>>, dim: int) -> bool {
    &&& shapes.len() >= 1
    &&& 0 <= dim < shapes[0].len()
    &&& forall|t: int| 0 <= t < shapes.len() ==> #[trigger] shapes[t].len() == shapes[0].len()
    &&& forall|t: int, k: int|
        0 <= t < shapes.len() && 0 <= k < shapes[0].len() && k != dim ==> #[trigger] shapes[t][k]
            == shapes[0][k]
}

/// Shape of the concatenation: the first shape with axis `dim` the sum of
/// the extents.
pub open spec fn cat_dims(shapes: Seq<Seq<usize>>, dim: int) -> Seq<usize> {
    shapes[0].update(dim, extent_sum(shapes, dim) as usize)
}

/// Elements of one outer block of the result.
pub open spec fn cat_width(shapes: Seq<Seq<usize>>, dim: int) -> nat {
    extent_sum(shapes, dim) * inner_count(shapes[0], dim)
}

/// Elements of one outer block of input `t`.
pub open spec fn block_width(shapes: Seq<Seq<usize>>, dim: int, t: int) -> nat {
    shapes[t][dim] as nat * inner_count(shapes[0], dim)
}

/// Where input `t`'s part starts within each outer block of the result.
pub open spec fn cat_offset(shapes: Seq<Seq<usize>>, dim: int, t: int) -> nat {
    extent_sum(shapes.take(t), dim) * inner_count(shapes[0], dim)
}

/// Element `r` of outer block `o` of input `t` stands in the result at
/// block `o`, after the parts of the inputs before `t`.
pub open spec fn cat_places(
    out: Seq<i32>,
    ins: Seq<Seq<i32>>,
    shapes: Seq<Seq<usize>>,
    dim: int,
    t: int,
    o: int,
    r: int,
) -> bool {
    out[o * cat_width(shapes, dim) + cat_offset(shapes, dim, t) + r] == ins[t][o * block_width(
        shapes,
        dim,
        t,
    ) + r]
}

pub open spec fn in_block(shapes: Seq<Seq<usize>>, dim: int, t: int, o: int, r: int) -> bool {
    0 <= t < shapes.len() && 0 <= o < outer_count(shapes[0], dim) && 0 <= r < block_width(shapes, dim, t)
}

/// The elements of the concatenation of `ins`, of shapes `shapes`, along `dim`.
pub open spec fn cat_values(out: Seq<i32>, ins: Seq<Seq<i32>>, shapes: Seq<Seq<usize>>, dim: int) -> bool {
    &&& out.len() == prod(cat_dims(shapes, dim))
    &&& forall|t: int, o: int, r: int|
        in_block(shapes, dim, t, o, r) ==> #[trigger] cat_places(out, ins, shapes, dim, t, o, r)
}

spec fn before(t2: int, o2: int, r2: int, t: int, o: int, r: int) -> bool {
    t2 < t || (t2 == t && (o2 < o || (o2 == o && r2 < r)))
}

spec fn placed_before(
    out: Seq<i32>,
    ins: Seq<Seq<i32>>,
    shapes: Seq<Seq<usize>>,
    dim: int,
    t: int,
    o: int,
    r: int,
) -> bool {
    forall|t2: int, o2: int, r2: int|
        in_block(shapes, dim, t2, o2, r2) && before(t2, o2, r2, t, o, r) ==> #[trigger] cat_places(
            out,
            ins,
            shapes,
            dim,
            t2,
            o2,
            r2,
        )
}

pub proof fn lemma_extent_step(shapes: Seq<Seq<usize>>, dim: int, t: int)
    requires
        0 <= t < shapes.len(),
    ensures
        extent_sum(shapes.take(t + 1), dim) == extent_sum(shapes.take(t), dim) + shapes[t][dim] as nat,
{
    assert(shapes.take(t + 1).drop_last() =~= shapes.take(t));
}

pub proof fn lemma_extent_mono(shapes: Seq<Seq<usize>>, dim: int, t: int, u: int)
    requires
        0 <= t <= u <= shapes.len(),
    ensures
        extent_sum(shapes.take(t), dim) <= extent_sum(shapes.take(u), dim),
    decreases u - t,
{
    if t < u {
        lemma_extent_mono(shapes, dim, t, u - 1);
        lemma_extent_step(shapes, dim, u - 1);
    }
}

proof fn lemma_block_distinct(o1: int, x1: int, o2: int, x2: int, w: int)
    requires
        0 <= o1,
        0 <= o2,
        0 <= x1 < w,
        0 <= x2 < w,
        o1 != o2 || x1 != x2,
    ensures
        o1 * w + x1 != o2 * w + x2,
{
    if o1 < o2 {
        assert(o1 * w + x1 < o2 * w + x2) by (nonlinear_arith)
            requires o1 < o2, 0 <= x1 < w, 0 <= x2;
    } else if o2 < o1 {
        assert(o2 * w + x2 < o1 * w + x1) by (nonlinear_arith)
            requires o2 < o1, 0 <= x2 < w, 0 <= x1;
    }
}

proof fn lemma_block_bound(o: int, outer: int, x: int, w: int)
    requires
        0 <= o < outer,
        0 <= x < w,
    ensures
        o * w + x < outer * w,
{
    assert(o * w + x < outer * w) by (nonlinear_arith)
        requires 0 <= o < outer, 0 <= x < w;
}

/// Concatenates tensors along axis `dim` into a fresh buffer: one copy per
/// input, each placed after the extent of those before it. The handles are
/// dropped.
pub fn cat(ctx: &mut ComputeContext, inputs: Vec<Tensor>, dim: usize) -> (out: Tensor)
    requires
        old(ctx).wf(),
        forall|t: int| 0 <= t < inputs@.len() ==> (#[trigger] inputs@[t]).valid(old(ctx)),
        cat_compatible(shapes_of(inputs@), dim as int),
        extent_sum(shapes_of(inputs@), dim as int) <= usize::MAX,
        prod(cat_dims(shapes_of(inputs@), dim as int)) <= usize::MAX,
    ensures
        final(ctx).wf(),
        out.valid(final(ctx)),
        out.buffer_id() == old(ctx).len(),
        final(ctx).owner_count(out.buffer_id()) == 1,
        out.dims() == cat_dims(shapes_of(inputs@), dim as int),
        cat_values(
            out.values(final(ctx)),
            contents_of(old(ctx), inputs@),
            shapes_of(inputs@),
            dim as int,
        ),
        released_except(old(ctx), final(ctx), buffers_of(inputs@), old(ctx).len() as int),
{
    ctx.compile(kernel_key(KernelTemplate::Cat));
    let ghost shapes = shapes_of(inputs@);
    let ghost ins = contents_of(old(ctx), inputs@);
    let ghost d = dim as int;
    let ghost s0 = shapes[0];
    let count = inputs.len();
    let first = &inputs[0];
    let rank = first.shape().rank();
    let mut ext: usize = 0;
    let mut t: usize = 0;
    while t < count
        invariant
            count == inputs@.len(),
            shapes == shapes_of(inputs@),
            cat_compatible(shapes, d),
            d == dim,
            extent_sum(shapes, d) <= usize::MAX,
            t <= count,
            ext == extent_sum(shapes.take(t as int), d),
        decreases count - t,
    {
        proof {
            lemma_extent_step(shapes, d, t as int);
            lemma_extent_mono(shapes, d, t + 1, count as int);
            assert(shapes.take(count as int) =~= shapes);
            assert(shapes[t as int] == inputs@[t as int].dims());
        }
        ext = ext + inputs[t].shape().dims[dim];
        t = t + 1;
    }
    proof {
        assert(shapes.take(count as int) =~= shapes);
    }
    let out_shape = first.shape().with_dim(dim, ext);
    let total = out_shape.num_elements();
    let ob = ctx.create_buffer(total);
    let ghost cd = cat_dims(shapes, d);
    let ghost outer_g = outer_count(s0, d);
    let ghost inner_g = inner_count(s0, d);
    proof {
        assert(out_shape@ == cd);
        lemma_prod_split(cd, d);
        assert(cd.subrange(0, d) =~= s0.subrange(0, d));
        assert(cd.subrange(d + 1, cd.len() as int) =~= s0.subrange(d + 1, s0.len() as int));
        assert(total == outer_g * ext * inner_g);
        assert forall|t2: int| 0 <= t2 < count implies #[trigger] prod(shapes[t2]) == outer_g * (
        shapes[t2][d] as nat) * inner_g by {
            lemma_prod_split(shapes[t2], d);
            assert(shapes[t2].subrange(0, d) =~= s0.subrange(0, d));
            assert(shapes[t2].subrange(d + 1, shapes[t2].len() as int) =~= s0.subrange(
                d + 1,
                s0.len() as int,
            ));
        }
        assert forall|t2: int| 0 <= t2 < count implies ins[t2].len() == #[trigger] prod(shapes[t2]) by {
            assert(inputs@[t2].valid(old(ctx)));
        }
    }
    if total > 0 {
        proof {
            lemma_prod_positive(cd);
            lemma_prod_positive(s0.subrange(0, d));
            assert(outer_g > 0 && inner_g > 0) by (nonlinear_arith)
                requires total == outer_g * ext * inner_g, total > 0;
            assert(outer_g <= total && inner_g <= total) by (nonlinear_arith)
                requires total == outer_g * ext * inner_g, outer_g > 0, inner_g > 0, ext > 0;
            assert(ext * inner_g <= total) by (nonlinear_arith)
                requires total == outer_g * ext * inner_g, outer_g > 0;
        }
        let outer = first.shape().sub_shape(0, dim).num_elements();
        let inner = first.shape().sub_shape(dim + 1, rank).num_elements();
        let width = ext * inner;
        proof {
            assert(total == outer * width) by (nonlinear_arith)
                requires total == outer_g * ext * inner_g, outer == outer_g, inner == inner_g, width == ext * inner;
        }
        let mut off: usize = 0;
        let mut t: usize = 0;
        proof {
            assert(shapes.take(0) =~= Seq::<Seq<usize>>::empty());
            assert(extent_sum(shapes.take(0), d) == 0);
            assert(0 * inner_g == 0);
        }
        while t < count
            invariant
                ctx.wf(),
                ob == old(ctx).len(),
                ctx.len() == ob + 1,
                forall|b: int| 0 <= b < ob ==> ctx.view()[b] == old(ctx).view()[b],
                ctx.owner_count(ob) == 1,
                ctx.contents(ob).len() == total,
                count == inputs@.len(),
                shapes == shapes_of(inputs@),
                ins == contents_of(old(ctx), inputs@),
                forall|t2: int| 0 <= t2 < count ==> (#[trigger] inputs@[t2]).valid(old(ctx)),
                cat_compatible(shapes, d),
                d == dim,
                s0 == shapes[0],
                ext == extent_sum(shapes, d),
                total == outer * width,
                outer > 0,
                outer == outer_g,
                outer_g == outer_count(s0, d),
                inner == inner_g,
                inner_g == inner_count(s0, d),
                width == ext * inner,
                width == cat_width(shapes, d),
                forall|t2: int| 0 <= t2 < count ==> ins[t2].len() == #[trigger] prod(shapes[t2]),
                forall|t2: int| 0 <= t2 < count ==> #[trigger] prod(shapes[t2]) == outer_g * (
                shapes[t2][d] as nat) * inner_g,
                t <= count,
                off == cat_offset(shapes, d, t as int),
                off <= width,
                placed_before(ctx.contents(ob), ins, shapes, d, t as int, 0, 0),
            decreases count - t,
        {
            let ghost tt = t as int;
            proof {
                assert(shapes[tt] == inputs@[tt].dims());
                lemma_extent_step(shapes, d, tt);
                lemma_extent_mono(shapes, d, tt + 1, count as int);
                assert(shapes.take(count as int) =~= shapes);
                let e0 = extent_sum(shapes.take(tt), d);
                let n_t = shapes[tt][d] as nat;
                assert(e0 + n_t <= ext);
                assert(off + n_t * inner <= width) by (nonlinear_arith)
                    requires off == e0 * inner, e0 + n_t <= ext, width == ext * inner;
                assert(outer * (n_t * inner) == prod(shapes[tt])) by (nonlinear_arith)
                    requires prod(shapes[tt]) == outer * n_t * inner;
                assert(n_t * inner <= prod(shapes[tt])) by (nonlinear_arith)
                    requires prod(shapes[tt]) == outer * (n_t * inner), outer > 0;
                ctx.lemma_contents_len(inputs@[tt].buffer_id());
                assert forall|t2: int, o2: int, r2: int|
                    in_block(shapes, d, t2, o2, r2) && t2 < tt implies cat_offset(shapes, d, t2) + r2 < off by {
                    lemma_extent_step(shapes, d, t2);
                    lemma_extent_mono(shapes, d, t2 + 1, tt);
                    let a = extent_sum(shapes.take(t2), d);
                    let b = extent_sum(shapes.take(tt), d);
                    let n2 = shapes[t2][d] as nat;
                    assert(a * inner + r2 < b * inner) by (nonlinear_arith)
                        requires r2 < n2 * inner, a + n2 <= b;
                }
            }
            let w = inputs[t].shape().dims[dim] * inner;
            let ib = inputs[t].buffer();
            let mut o: usize = 0;
            while o < outer
                invariant
                    ctx.wf(),
                    ob == old(ctx).len(),
                    ctx.len() == ob + 1,
                    forall|b: int| 0 <= b < ob ==> ctx.view()[b] == old(ctx).view()[b],
                    ctx.owner_count(ob) == 1,
                    ctx.contents(ob).len() == total,
                    ib < ob,
                    ins[tt] == old(ctx).contents(ib),
                    ins[tt].len() == outer * w,
                    ins[tt].len() <= usize::MAX,
                    total == outer * width,
                    tt == t,
                    t < count,
                    count == shapes.len(),
                    w == block_width(shapes, d, tt),
                    width == cat_width(shapes, d),
                    off == cat_offset(shapes, d, tt),
                    off + w <= width,
                    outer == outer_count(shapes[0], d),
                    o <= outer,
                    placed_before(ctx.contents(ob), ins, shapes, d, tt, o as int, 0),
                    forall|t2: int, o2: int, r2: int|
                        in_block(shapes, d, t2, o2, r2) && t2 < tt ==> cat_offset(shapes, d, t2) + r2 < off,
                decreases outer - o,
            {
                let mut r: usize = 0;
                while r < w
                    invariant
                        ctx.wf(),
                        ob == old(ctx).len(),
                        ctx.len() == ob + 1,
                        forall|b: int| 0 <= b < ob ==> ctx.view()[b] == old(ctx).view()[b],
                        ctx.owner_count(ob) == 1,
                        ctx.contents(ob).len() == total,
                        ib < ob,
                        ins[tt] == old(ctx).contents(ib),
                        ins[tt].len() == outer * w,
                        ins[tt].len() <= usize::MAX,
                        total == outer * width,
                        tt == t,
                        t < count,
                        count == shapes.len(),
                        w == block_width(shapes, d, tt),
                        width == cat_width(shapes, d),
                        off == cat_offset(shapes, d, tt),
                        off + w <= width,
                        outer == outer_count(shapes[0], d),
                        o < outer,
                        r <= w,
                        placed_before(ctx.contents(ob), ins, shapes, d, tt, o as int, r as int),
                        forall|t2: int, o2: int, r2: int|
                            in_block(shapes, d, t2, o2, r2) && t2 < tt ==> cat_offset(shapes, d, t2) + r2
                                < off,
                    decreases w - r,
                {
                    proof {
                        lemma_block_bound(o as int, outer as int, r as int, w as int);
                        lemma_block_bound(o as int, outer as int, (off + r) as int, width as int);
                        assert(ctx.view()[ib as int] == old(ctx).view()[ib as int]);
                    }
                    let v = ctx.get(ib, o * w + r);
                    let p = o * width + off + r;
                    let ghost before_set = ctx.contents(ob);
                    ctx.set(ob, p, v);
                    proof {
                        let after = ctx.contents(ob);
                        assert forall|t2: int, o2: int, r2: int|
                            in_block(shapes, d, t2, o2, r2) && before(
                                t2,
                                o2,
                                r2,
                                tt,
                                o as int,
                                r + 1,
                            ) implies #[trigger] cat_places(after, ins, shapes, d, t2, o2, r2) by {
                            if t2 == tt && o2 == o && r2 == r {
                                assert(o2 * cat_width(shapes, d) + cat_offset(shapes, d, t2) + r2 == p);
                                assert(after[p as int] == v);
                                assert(o2 * block_width(shapes, d, t2) + r2 == o * w + r);
                            } else {
                                assert(cat_places(before_set, ins, shapes, d, t2, o2, r2));
                                let x2 = cat_offset(shapes, d, t2) + r2;
                                if t2 == tt {
                                    assert(x2 < width);
                                } else {
                                    assert(x2 < off);
                                }
                                lemma_block_distinct(o2, x2, o as int, off + r, width as int);
                                lemma_block_bound(o2, outer as int, x2, width as int);
                            }
                        }
                    }
                    r = r + 1;
                }
                proof {
                    assert forall|t2: int, o2: int, r2: int|
                        in_block(shapes, d, t2, o2, r2) && before(t2, o2, r2, tt, o + 1, 0) implies #[trigger] cat_places(
                        ctx.contents(ob),
                        ins,
                        shapes,
                        d,
                        t2,
                        o2,
                        r2,
                    ) by {
                        assert(before(t2, o2, r2, tt, o as int, w as int));
                    }
                }
                o = o + 1;
            }
            proof {
                lemma_extent_step(shapes, d, tt);
                let e0 = extent_sum(shapes.take(tt), d);
                let n_t = shapes[tt][d] as nat;
                assert(cat_offset(shapes, d, tt + 1) == off + w) by (nonlinear_arith)
                    requires
                        cat_offset(shapes, d, tt + 1) == (e0 + n_t) * inner,
                        off == e0 * inner,
                        w == n_t * inner;
                assert forall|t2: int, o2: int, r2: int|
                    in_block(shapes, d, t2, o2, r2) && before(t2, o2, r2, tt + 1, 0, 0) implies #[trigger] cat_places(
                    ctx.contents(ob),
                    ins,
                    shapes,
                    d,
                    t2,
                    o2,
                    r2,
                ) by {
                    assert(before(t2, o2, r2, tt, outer as int, 0));
                }
            }
            off = off + w;
            t = t + 1;
        }
        proof {
            assert forall|t2: int, o2: int, r2: int| in_block(shapes, d, t2, o2, r2) implies #[trigger] cat_places(
                ctx.contents(ob),
                ins,
                shapes,
                d,
                t2,
                o2,
                r2,
            ) by {
                assert(before(t2, o2, r2, count as int, 0, 0));
            }
        }
    } else {
        proof {
            assert forall|t2: int, o2: int, r2: int| in_block(shapes, d, t2, o2, r2) implies #[trigger] cat_places(
                ctx.contents(ob),
                ins,
                shapes,
                d,
                t2,
                o2,
                r2,
            ) by {
                lemma_extent_step(shapes, d, t2);
                lemma_extent_mono(shapes, d, t2 + 1, count as int);
                assert(shapes.take(count as int) =~= shapes);
                let n_t = shapes[t2][d] as nat;
                assert(false) by (nonlinear_arith)
                    requires
                        total == outer_g * ext * inner_g,
                        total == 0,
                        0 <= o2 < outer_g,
                        0 <= r2 < n_t * inner_g,
                        n_t <= ext;
            }
        }
    }
    let ghost done = *ctx;
    let ghost orig = inputs@;
    let ghost c0 = *old(ctx);
    let ghost keep: int = ob as int;
    let ghost bufs = buffers_of(orig);
    let ghost mut k: int = 0;
    proof {
        lemma_released_start(&c0, ctx, keep);
        assert(bufs.take(0) =~= Seq::<usize>::empty());
        assert(cat_values(done.contents(ob), ins, shapes, d));
    }
    let mut rest = inputs;
    while rest.len() > 0
        invariant
            ctx.wf(),
            ctx.len() == ob + 1,
            ob == old(ctx).len(),
            keep == ob,
            c0 == *old(ctx),
            ctx.view()[ob as int] == done.view()[ob as int],
            0 <= k <= count,
            orig.len() == count,
            bufs == buffers_of(orig),
            rest@ == orig.subrange(k, count as int),
            forall|t2: int| 0 <= t2 < count ==> (#[trigger] orig[t2]).buffer_id() < ob,
            released_except(&c0, ctx, bufs.take(k), keep),
        decreases rest@.len(),
    {
        let first = rest.remove(0);
        let ghost hs = bufs.take(k);
        let ghost x = first.buffer_id();
        proof {
            assert(first == orig[k]);
            assert(hs.push(x) =~= bufs.take(k + 1));
        }
        release_recorded(ctx, first, Ghost(c0), Ghost(hs), Ghost(keep));
        proof {
            k = k + 1;
            assert(rest@ =~= orig.subrange(k, count as int));
        }
    }
    proof {
        assert(bufs.take(count as int) =~= bufs);
        assert(ctx.contents(ob) == done.contents(ob));
    }
    Tensor::from_parts(out_shape, ob)
}

} // verus!

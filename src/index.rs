use vstd::prelude::*;
use crate::kernel::{kernel_key, KernelTemplate};
use vstd::arithmetic::div_mod::lemma_fundamental_div_mod;
use crate::base::{BaseOps, TensorError};
use crate::context::ComputeContext;
use crate::ownership::{
    dropped, handed_over, lemma_count_small, lemma_released_list_kept, lemma_released_start, release_one,
    release_recorded, release_two,
};
use crate::shape::{all_positive, lemma_prod_positive, lemma_prod_prefix_le, prod, Shape};
use crate::tensor::Tensor;

verus! {

/// One half-open range per leading axis, each inside its axis.
pub open spec fn ranges_valid(dims: Seq<usize>, ranges: Seq<std::ops::Range<usize>>) -> bool {
    &&& ranges.len() <= dims.len()
    &&& forall|k: int|
        0 <= k < ranges.len() ==> (#[trigger] ranges[k]).start <= ranges[k].end <= dims[k]
}

/// First position of the region along each axis; axes without a range are
/// kept whole.
pub open spec fn region_lows(dims: Seq<usize>, ranges: Seq<std::ops::Range<usize>>) -> Seq<usize> {
    Seq::new(dims.len(), |k: int| if k < ranges.len() { ranges[k].start } else { 0 })
}

/// Extent of the region along each axis.
pub open spec fn region_dims(dims: Seq<usize>, ranges: Seq<std::ops::Range<usize>>) -> Seq<usize> {
    Seq::new(
        dims.len(),
        |k: int| if k < ranges.len() { (ranges[k].end - ranges[k].start) as usize } else { dims[k] },
    )
}

/// A region of extents `ext` starting at `lows` lies inside shape `dims`.
pub open spec fn within(ext: Seq<usize>, dims: Seq<usize>, lows: Seq<usize>) -> bool {
    &&& ext.len() == dims.len()
    &&& lows.len() == dims.len()
    &&& forall|k: int| 0 <= k < dims.len() ==> lows[k] + ext[k] <= dims[k]
}

/// Position in a tensor of shape `dims` of position `i` of the region of
/// extents `ext` that starts at `lows`, both row-major.
pub open spec fn region_index(ext: Seq<usize>, dims: Seq<usize>, lows: Seq<usize>, i: nat) -> nat
    decreases ext.len(),
{
    if ext.len() == 0 {
        0
    } else {
        let d = ext.last() as nat;
        region_index(ext.drop_last(), dims.drop_last(), lows.drop_last(), i / d) * (dims.last() as nat)
            + (lows.last() as nat) + i % d
    }
}

/// The elements of the region, row-major.
pub open spec fn region_values(v: Seq<i32>, ext: Seq<usize>, dims: Seq<usize>, lows: Seq<usize>) -> Seq<i32> {
    Seq::new(prod(ext), |i: int| v[region_index(ext, dims, lows, i as nat) as int])
}

/// `result` is `v` with the region overwritten by `val`, and every other
/// position kept.
pub open spec fn assigned(
    result: Seq<i32>,
    v: Seq<i32>,
    val: Seq<i32>,
    ext: Seq<usize>,
    dims: Seq<usize>,
    lows: Seq<usize>,
) -> bool {
    &&& result.len() == v.len()
    &&& forall|j: int|
        0 <= j < prod(ext) ==> result[#[trigger] region_index(ext, dims, lows, j as nat) as int] == val[j]
    &&& forall|p: int|
        0 <= p < v.len() && (forall|j: int| 0 <= j < prod(ext) ==> #[trigger] region_index(ext, dims, lows, j as nat) != p)
            ==> result[p] == v[p]
}

proof fn lemma_within_prefix(ext: Seq<usize>, dims: Seq<usize>, lows: Seq<usize>)
    requires
        within(ext, dims, lows),
        ext.len() > 0,
    ensures
        within(ext.drop_last(), dims.drop_last(), lows.drop_last()),
        all_positive(ext) ==> all_positive(ext.drop_last()),
{
}

pub proof fn lemma_region_index_bound(ext: Seq<usize>, dims: Seq<usize>, lows: Seq<usize>, i: nat)
    requires
        within(ext, dims, lows),
        all_positive(ext),
    ensures
        region_index(ext, dims, lows, i) < prod(dims),
    decreases ext.len(),
{
    if ext.len() > 0 {
        lemma_within_prefix(ext, dims, lows);
        let d = ext.last() as nat;
        let big = dims.last() as nat;
        let lo = lows.last() as nat;
        lemma_region_index_bound(ext.drop_last(), dims.drop_last(), lows.drop_last(), i / d);
        let rest = region_index(ext.drop_last(), dims.drop_last(), lows.drop_last(), i / d);
        assert(lo + i % d < big);
        let pd = prod(dims.drop_last());
        assert((rest + 1) * big <= pd * big) by (nonlinear_arith)
            requires rest + 1 <= pd;
        assert(rest * big + big == (rest + 1) * big) by (nonlinear_arith);
    }
}

/// Distinct positions of the region are distinct positions of the tensor.
pub proof fn lemma_region_index_injective(ext: Seq<usize>, dims: Seq<usize>, lows: Seq<usize>, i1: nat, i2: nat)
    requires
        within(ext, dims, lows),
        i1 < prod(ext),
        i2 < prod(ext),
        region_index(ext, dims, lows, i1) == region_index(ext, dims, lows, i2),
    ensures
        i1 == i2,
    decreases ext.len(),
{
    if ext.len() > 0 {
        lemma_prod_positive(ext);
        lemma_within_prefix(ext, dims, lows);
        let pe = ext.drop_last();
        let d = ext.last() as nat;
        let big = dims.last() as nat;
        let lo = lows.last() as nat;
        let q1 = i1 / d;
        let q2 = i2 / d;
        let c1 = i1 % d;
        let c2 = i2 % d;
        lemma_fundamental_div_mod(i1 as int, d as int);
        lemma_fundamental_div_mod(i2 as int, d as int);
        assert(prod(ext) == prod(pe) * d);
        assert(q1 < prod(pe)) by (nonlinear_arith)
            requires i1 == d * q1 + c1, c1 >= 0, i1 < prod(pe) * d, d >= 1;
        assert(q2 < prod(pe)) by (nonlinear_arith)
            requires i2 == d * q2 + c2, c2 >= 0, i2 < prod(pe) * d, d >= 1;
        let r1 = region_index(pe, dims.drop_last(), lows.drop_last(), q1);
        let r2 = region_index(pe, dims.drop_last(), lows.drop_last(), q2);
        assert(lo + c1 < big && lo + c2 < big);
        assert(r1 == r2 && c1 == c2) by (nonlinear_arith)
            requires
                r1 * big + lo + c1 == r2 * big + lo + c2,
                0 <= c1,
                0 <= c2,
                lo + c1 < big,
                lo + c2 < big;
        lemma_region_index_injective(pe, dims.drop_last(), lows.drop_last(), q1, q2);
    }
}

fn region_index_exec(ext: &Vec<usize>, dims: &Vec<usize>, lows: &Vec<usize>, n: usize, i: usize) -> (r: usize)
    requires
        n <= ext@.len(),
        within(ext@, dims@, lows@),
        all_positive(ext@),
        prod(dims@) <= usize::MAX,
    ensures
        r == region_index(
            ext@.subrange(0, n as int),
            dims@.subrange(0, n as int),
            lows@.subrange(0, n as int),
            i as nat,
        ),
    decreases n,
{
    if n == 0 {
        return 0;
    }
    let d = ext[n - 1];
    let rest = region_index_exec(ext, dims, lows, n - 1, i / d);
    proof {
        let se = ext@.subrange(0, n as int);
        let sd = dims@.subrange(0, n as int);
        let sl = lows@.subrange(0, n as int);
        assert(se.drop_last() =~= ext@.subrange(0, n - 1));
        assert(sd.drop_last() =~= dims@.subrange(0, n - 1));
        assert(sl.drop_last() =~= lows@.subrange(0, n - 1));
        assert(within(se, sd, sl));
        assert(all_positive(se));
        lemma_region_index_bound(se, sd, sl, i as nat);
        assert(all_positive(dims@)) by {
            assert forall|k: int| 0 <= k < dims@.len() implies dims@[k] >= 1 by {
                assert(ext@[k] >= 1);
            }
        }
        lemma_prod_prefix_le(dims@, n as int);
    }
    rest * dims[n - 1] + lows[n - 1] + i % d
}

/// The region's lower bounds and extents, or `None` when a range is empty
/// backwards or leaves its axis, or there are more ranges than axes.
fn region_of(shape: &Shape, ranges: &Vec<std::ops::Range<usize>>) -> (r: Option<Region>)
    ensures
        r is None <==> !ranges_valid(shape@, ranges@),
        r is Some ==> r->0.lows@ == region_lows(shape@, ranges@) && r->0.ext@ == region_dims(shape@, ranges@)
            && within(r->0.ext@, shape@, r->0.lows@),
{
    let n = shape.rank();
    if ranges.len() > n {
        return None;
    }
    let mut lows: Vec<usize> = Vec::new();
    let mut ext: Vec<usize> = Vec::new();
    let mut k: usize = 0;
    while k < n
        invariant
            n == shape@.len(),
            ranges@.len() <= n,
            k <= n,
            forall|j: int| 0 <= j < k && j < ranges@.len() ==> (#[trigger] ranges@[j]).start <= ranges@[j].end <= shape@[j],
            lows@ =~= region_lows(shape@, ranges@).take(k as int),
            ext@ =~= region_dims(shape@, ranges@).take(k as int),
        decreases n - k,
    {
        if k < ranges.len() {
            let s = ranges[k].start;
            let e = ranges[k].end;
            if !(s <= e && e <= shape.dims[k]) {
                return None;
            }
            lows.push(s);
            ext.push(e - s);
        } else {
            lows.push(0);
            ext.push(shape.dims[k]);
        }
        k = k + 1;
    }
    proof {
        assert(lows@ =~= region_lows(shape@, ranges@));
        assert(ext@ =~= region_dims(shape@, ranges@));
    }
    Some(Region { lows, ext })
}

/// Lower bounds and extents of an addressed region.
struct Region {
    lows: Vec<usize>,
    ext: Vec<usize>,
}

impl BaseOps {
    /// The sub-tensor addressed by one range per leading axis, in a fresh
    /// buffer. Invalid ranges are refused. The handle is dropped either way.
    pub fn index(ctx: &mut ComputeContext, tensor: Tensor, ranges: Vec<std::ops::Range<usize>>) -> (r: Result<Tensor, TensorError>)
        requires
            tensor.valid(old(ctx)),
        ensures
            r is Err <==> !ranges_valid(tensor.dims(), ranges@),
            r is Err ==> r->Err_0 == TensorError::IndexOutOfBounds,
            r is Err ==> dropped(old(ctx), final(ctx), seq![tensor.buffer_id()]),
            r is Ok ==> handed_over(old(ctx), final(ctx), seq![tensor.buffer_id()], &r->Ok_0)
                && r->Ok_0.buffer_id() == old(ctx).len()
                && r->Ok_0.dims() == region_dims(tensor.dims(), ranges@)
                && r->Ok_0.values(final(ctx)) == region_values(
                    tensor.values(old(ctx)),
                    region_dims(tensor.dims(), ranges@),
                    tensor.dims(),
                    region_lows(tensor.dims(), ranges@),
                ),
    {
        let region = region_of(tensor.shape(), &ranges);
        if region.is_none() {
            let ghost c0 = *old(ctx);
            let ghost keep: int = -1;
            release_one(ctx, tensor, Ghost(c0), Ghost(keep));
            return Err(TensorError::IndexOutOfBounds);
        }
        let Region { lows, ext } = region.unwrap();
        ctx.compile(kernel_key(KernelTemplate::Index));
        let ghost dims = tensor.dims();
        let ghost v = tensor.values(ctx);
        let ghost expected = region_values(v, ext@, dims, lows@);
        let out_shape = Shape::new(ext);
        proof {
            ctx.lemma_contents_len(tensor.buffer_id());
            lemma_region_size(out_shape@, dims, lows@);
        }
        let total = out_shape.num_elements();
        let ob = ctx.create_buffer(total);
        let tb = tensor.buffer();
        let k = out_shape.rank();
        let mut i: usize = 0;
        while i < total
            invariant
                ctx.wf(),
                ob == old(ctx).len(),
                ctx.len() == ob + 1,
                tb < ob,
                v == old(ctx).contents(tb),
                v.len() == prod(dims),
                dims == tensor.dims(),
                prod(dims) <= usize::MAX,
                within(out_shape@, dims, lows@),
                k == out_shape@.len(),
                forall|b: int| 0 <= b < ob ==> ctx.view()[b] == old(ctx).view()[b],
                ctx.owner_count(ob) == 1,
                ctx.contents(ob).len() == total,
                total == prod(out_shape@),
                expected == region_values(v, out_shape@, dims, lows@),
                i <= total,
                forall|j: int| 0 <= j < i ==> ctx.contents(ob)[j] == expected[j],
            decreases total - i,
        {
            proof {
                lemma_prod_positive(out_shape@);
                lemma_region_index_bound(out_shape@, dims, lows@, i as nat);
                assert(out_shape@.subrange(0, k as int) =~= out_shape@);
                assert(dims.subrange(0, k as int) =~= dims);
                assert(lows@.subrange(0, k as int) =~= lows@);
                assert(ctx.view()[tb as int] == old(ctx).view()[tb as int]);
            }
            let p = region_index_exec(&out_shape.dims, &tensor.shape().dims, &lows, k, i);
            let x = ctx.get(tb, p);
            ctx.set(ob, i, x);
            i = i + 1;
        }
        proof {
            assert(ctx.contents(ob) =~= expected);
        }
        let ghost c0 = *old(ctx);
        let ghost keep: int = ob as int;
        release_one(ctx, tensor, Ghost(c0), Ghost(keep));
        proof {
        }
        Ok(Tensor::from_parts(out_shape, ob))
    }

    /// Writes `value` over the region addressed by one range per leading axis.
    /// The tensor's buffer is written in place only when the handle is its
    /// only owner; otherwise it is copied first, so other handles keep seeing
    /// the old elements. Invalid ranges, or a value of another shape than the
    /// region, are refused. Both handles are dropped.
    pub fn index_assign(
        ctx: &mut ComputeContext,
        tensor: Tensor,
        ranges: Vec<std::ops::Range<usize>>,
        value: Tensor,
    ) -> (r: Result<Tensor, TensorError>)
        requires
            tensor.valid(old(ctx)),
            value.valid(old(ctx)),
        ensures
            r is Err <==> !ranges_valid(tensor.dims(), ranges@) || value.dims() != region_dims(
                tensor.dims(),
                ranges@,
            ),
            r == Err::<Tensor, TensorError>(TensorError::IndexOutOfBounds) <==> !ranges_valid(tensor.dims(), ranges@),
            r == Err::<Tensor, TensorError>(TensorError::ShapeMismatch) <==> ranges_valid(tensor.dims(), ranges@)
                && value.dims() != region_dims(tensor.dims(), ranges@),
            r is Err ==> dropped(old(ctx), final(ctx), seq![tensor.buffer_id(), value.buffer_id()]),
            r is Ok ==> handed_over(old(ctx), final(ctx), seq![tensor.buffer_id(), value.buffer_id()], &r->Ok_0)
                && (r->Ok_0.buffer_id() == old(ctx).len() || r->Ok_0.buffer_id() == tensor.buffer_id())
                && r->Ok_0.dims() == tensor.dims()
                && assigned(
                    r->Ok_0.values(final(ctx)),
                    tensor.values(old(ctx)),
                    value.values(old(ctx)),
                    region_dims(tensor.dims(), ranges@),
                    tensor.dims(),
                    region_lows(tensor.dims(), ranges@),
                ),
    {
        let region = region_of(tensor.shape(), &ranges);
        if region.is_none() {
            let ghost c0 = *old(ctx);
            let ghost keep: int = -1;
            release_two(ctx, tensor, value, Ghost(c0), Ghost(keep));
            return Err(TensorError::IndexOutOfBounds);
        }
        let Region { lows, ext } = region.unwrap();
        if !same_dims(&ext, &value.shape().dims) {
            let ghost c0 = *old(ctx);
            let ghost keep: int = -1;
            release_two(ctx, tensor, value, Ghost(c0), Ghost(keep));
            return Err(TensorError::ShapeMismatch);
        }
        ctx.compile(kernel_key(KernelTemplate::IndexAssign));
        let ghost dims = tensor.dims();
        let ghost v = tensor.values(ctx);
        let ghost val = value.values(ctx);
        let ghost ext_g = ext@;
        proof {
            ctx.lemma_contents_len(tensor.buffer_id());
            ctx.lemma_contents_len(value.buffer_id());
        }
        let tensor_b = tensor.buffer();
        let in_place = tensor.can_mut(ctx) && tensor.buffer() != value.buffer();
        let mut replaced: Option<Tensor> = None;
        let target = if in_place {
            tensor
        } else {
            let data = ctx.read(tensor.buffer());
            let b = ctx.create_buffer_with_data(data);
            let copy = Tensor::from_parts(tensor.shape().clone_shape(), b);
            replaced = Some(tensor);
            copy
        };
        proof {
            assert(ctx.view()[value.buffer_id() as int] == old(ctx).view()[value.buffer_id() as int]);
        }
        let ghost start = *ctx;
        proof {
            assert(forall|b: int| 0 <= b < old(ctx).len() ==> start.view()[b] == old(ctx).view()[b]);
            assert(in_place ==> target.buffer_id() == tensor_b && replaced is None);
            assert(!in_place ==> target.buffer_id() == old(ctx).len() && replaced is Some
                && replaced->0.buffer_id() == tensor_b);
            assert(start.owner_count(target.buffer_id()) == 1);
        }
        let tb = target.buffer();
        let vb = value.buffer();
        let ext_shape = Shape::new(ext);
        let total = value.shape().num_elements();
        let k = ext_shape.rank();
        let mut j: usize = 0;
        while j < total
            invariant
                ctx.wf(),
                ctx.len() == start.len(),
                tb < ctx.len(),
                vb < ctx.len(),
                tb != vb,
                forall|b: int| 0 <= b < ctx.len() && b != tb ==> ctx.view()[b] == start.view()[b],
                ctx.owner_count(tb) == start.owner_count(tb),
                ctx.contents(vb) == val,
                val.len() == total,
                total == prod(ext_g),
                ext_shape@ == ext_g,
                k == ext_g.len(),
                within(ext_g, dims, lows@),
                v.len() == prod(dims),
                prod(dims) <= usize::MAX,
                target.dims() == dims,
                ctx.contents(tb).len() == v.len(),
                j <= total,
                forall|i: int|
                    0 <= i < j ==> ctx.contents(tb)[#[trigger] region_index(ext_g, dims, lows@, i as nat) as int]
                        == val[i],
                forall|p: int|
                    0 <= p < v.len() && (forall|i: int|
                        0 <= i < j ==> #[trigger] region_index(ext_g, dims, lows@, i as nat) != p)
                        ==> ctx.contents(tb)[p] == v[p],
            decreases total - j,
        {
            proof {
                lemma_prod_positive(ext_g);
                lemma_region_index_bound(ext_g, dims, lows@, j as nat);
                assert(ext_g.subrange(0, k as int) =~= ext_g);
                assert(dims.subrange(0, k as int) =~= dims);
                assert(lows@.subrange(0, k as int) =~= lows@);
            }
            let p = region_index_exec(&ext_shape.dims, &target.shape().dims, &lows, k, j);
            let x = ctx.get(vb, j);
            let ghost before = ctx.contents(tb);
            ctx.set(tb, p, x);
            proof {
                assert forall|i: int| 0 <= i < j + 1 implies ctx.contents(tb)[#[trigger] region_index(
                    ext_g,
                    dims,
                    lows@,
                    i as nat,
                ) as int] == val[i] by {
                    if i < j {
                        let q = region_index(ext_g, dims, lows@, i as nat);
                        lemma_region_index_bound(ext_g, dims, lows@, i as nat);
                        if q == p {
                            lemma_region_index_injective(ext_g, dims, lows@, i as nat, j as nat);
                        }
                    }
                }
                assert forall|q: int|
                    0 <= q < v.len() && (forall|i: int|
                        0 <= i < j + 1 ==> #[trigger] region_index(ext_g, dims, lows@, i as nat) != q)
                        implies ctx.contents(tb)[q] == v[q] by {
                    let jj: int = j as int;
                    assert(0 <= jj < j + 1);
                    assert(region_index(ext_g, dims, lows@, jj as nat) != q);
                    assert forall|i: int| 0 <= i < j implies #[trigger] region_index(ext_g, dims, lows@, i as nat) != q by {
                        assert(0 <= i < j + 1);
                    }
                    assert(before[q] == v[q]);
                }
            }
            j = j + 1;
        }
        let ghost mid = *ctx;
        let ghost c0 = *old(ctx);
        let ghost keep: int = tb as int;
        let ghost none: Seq<usize> = Seq::empty();
        proof {
            assert forall|b: int| 0 <= b < c0.len() && b != keep implies ctx.view()[b] == c0.view()[b] by {
                assert(start.view()[b] == old(ctx).view()[b]);
            }
            lemma_released_start(&c0, ctx, keep);
        }
        match replaced {
            Some(t) => {
                release_recorded(ctx, t, Ghost(c0), Ghost(none), Ghost(keep));
            },
            None => {
                proof {
                    lemma_released_list_kept(&c0, ctx, none, tb);
                }
            },
        }
        let ghost first = seq![tensor_b];
        proof {
            assert(none.push(tensor_b) =~= first);
        }
        release_recorded(ctx, value, Ghost(c0), Ghost(first), Ghost(keep));
        proof {
            assert(first.push(vb) =~= seq![tensor_b, vb]);
            assert(ctx.view()[tb as int] == mid.view()[tb as int]);
            lemma_count_small(tensor_b, vb, tb);
        }
        Ok(target)
    }
}

fn same_dims(a: &Vec<usize>, b: &Vec<usize>) -> (r: bool)
    ensures
        r == (a@ == b@),
{
    if a.len() != b.len() {
        return false;
    }
    let mut k: usize = 0;
    while k < a.len()
        invariant
            a@.len() == b@.len(),
            k <= a@.len(),
            forall|j: int| 0 <= j < k ==> a@[j] == b@[j],
        decreases a@.len() - k,
    {
        if a[k] != b[k] {
            return false;
        }
        k = k + 1;
    }
    assert(a@ =~= b@);
    true
}

/// A region inside a shape has no more elements than the shape.
proof fn lemma_region_size(ext: Seq<usize>, dims: Seq<usize>, lows: Seq<usize>)
    requires
        within(ext, dims, lows),
    ensures
        prod(ext) <= prod(dims),
    decreases ext.len(),
{
    if ext.len() > 0 {
        lemma_within_prefix(ext, dims, lows);
        lemma_region_size(ext.drop_last(), dims.drop_last(), lows.drop_last());
        let a = prod(ext.drop_last());
        let b = prod(dims.drop_last());
        let e = ext.last() as nat;
        let d = dims.last() as nat;
        assert(e <= d);
        assert(a * e <= b * d) by (nonlinear_arith)
            requires a <= b, e <= d;
    }
}

} // verus!

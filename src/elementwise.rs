use vstd::prelude::*;
use crate::kernel::{kernel_key, KernelTemplate};
use vstd::arithmetic::div_mod::{lemma_div_is_ordered_by_denominator, lemma_fundamental_div_mod};
use crate::context::{BufferState, ComputeContext};
use crate::shape::{all_positive, lemma_prod_positive, lemma_prod_prefix_le, prod, Shape};
use crate::tensor::Tensor;

verus! {

/// The binary operators of the elementwise kernels.
#[derive(PartialEq, Eq, Structural, Clone, Copy, Debug)]
pub enum ElemOp {
    Add,
    Sub,
    Mul,
    Div,
}

pub open spec fn abs(x: int) -> nat {
    if x < 0 {
        (-x) as nat
    } else {
        x as nat
    }
}

/// Integer division rounding toward zero.
pub open spec fn trunc_div(a: int, b: int) -> int {
    if (a < 0) == (b < 0) {
        (abs(a) / abs(b)) as int
    } else {
        -((abs(a) / abs(b)) as int)
    }
}

/// Device integer division: toward zero; a zero divisor, and the one quotient
/// that does not fit, leave the dividend unchanged.
pub open spec fn div_elem(a: i32, b: i32) -> i32 {
    if b == 0 || (a == i32::MIN && b == -1) {
        a
    } else {
        trunc_div(a as int, b as int) as i32
    }
}

/// One application of an operator; sums, differences and products wrap.
pub open spec fn apply(op: ElemOp, a: i32, b: i32) -> i32 {
    match op {
        ElemOp::Add => a.wrapping_add(b),
        ElemOp::Sub => a.wrapping_sub(b),
        ElemOp::Mul => a.wrapping_mul(b),
        ElemOp::Div => div_elem(a, b),
    }
}

pub open spec fn commutative(op: ElemOp) -> bool {
    op is Add || op is Mul
}

fn div_elem_exec(a: i32, b: i32) -> (r: i32)
    ensures
        r == div_elem(a, b),
{
    if b == 0 || (a == i32::MIN && b == -1) {
        return a;
    }
    let ua: u64 = if a < 0 {
        (-(a as i64)) as u64
    } else {
        a as u64
    };
    let ub: u64 = if b < 0 {
        (-(b as i64)) as u64
    } else {
        b as u64
    };
    let q: u64 = ua / ub;
    proof {
        assert(ua == abs(a as int) && ub == abs(b as int));
        lemma_div_is_ordered_by_denominator(ua as int, 1, ub as int);
        assert(ua as int / 1 == ua as int);
        if ub >= 2 {
            lemma_div_is_ordered_by_denominator(ua as int, 2, ub as int);
        }
    }
    if (a < 0) == (b < 0) {
        q as i32
    } else {
        (-(q as i64)) as i32
    }
}

pub fn apply_op(op: ElemOp, a: i32, b: i32) -> (r: i32)
    ensures
        r == apply(op, a, b),
{
    match op {
        ElemOp::Add => a.wrapping_add(b),
        ElemOp::Sub => a.wrapping_sub(b),
        ElemOp::Mul => a.wrapping_mul(b),
        ElemOp::Div => div_elem_exec(a, b),
    }
}

/// Two shapes of one rank broadcast together: along each axis the extents
/// agree or one of them is one.
pub open spec fn broadcastable(a: Seq<usize>, b: Seq<usize>) -> bool {
    &&& a.len() == b.len()
    &&& forall|k: int| 0 <= k < a.len() ==> a[k] == b[k] || a[k] == 1 || b[k] == 1
}

/// The shape of the result of broadcasting `a` against `b`.
pub open spec fn broadcast_dims(a: Seq<usize>, b: Seq<usize>) -> Seq<usize> {
    Seq::new(a.len(), |k: int| if a[k] == 1 { b[k] } else { a[k] })
}

/// `inp` is stretched to `out` by repeating along its axes of extent one.
pub open spec fn fits(inp: Seq<usize>, out: Seq<usize>) -> bool {
    &&& inp.len() == out.len()
    &&& forall|k: int| 0 <= k < inp.len() ==> inp[k] == out[k] || inp[k] == 1
}

/// The position in a tensor of shape `inp` that is read for position `i` of a
/// result of shape `out`: the coordinates of `i`, with those along the
/// repeated axes set to zero.
pub open spec fn source_index(out: Seq<usize>, inp: Seq<usize>, i: nat) -> nat
    decreases out.len(),
{
    if out.len() == 0 {
        0
    } else {
        let d = out.last() as nat;
        let c = if inp.last() == 1 {
            0
        } else {
            i % d
        };
        source_index(out.drop_last(), inp.drop_last(), i / d) * (inp.last() as nat) + c
    }
}

/// The result of the allocating kernel: each position of the broadcast shape
/// combines the corresponding positions of both operands.
pub open spec fn binary_values(
    op: ElemOp,
    l: Seq<i32>,
    ls: Seq<usize>,
    r: Seq<i32>,
    rs: Seq<usize>,
) -> Seq<i32> {
    let out = broadcast_dims(ls, rs);
    Seq::new(
        prod(out),
        |i: int|
            apply(
                op,
                l[source_index(out, ls, i as nat) as int],
                r[source_index(out, rs, i as nat) as int],
            ),
    )
}

/// The result of the in-place kernel, written over `l` position by position.
pub open spec fn inplace_values(
    op: ElemOp,
    l: Seq<i32>,
    r: Seq<i32>,
    ls: Seq<usize>,
    rs: Seq<usize>,
) -> Seq<i32> {
    Seq::new(l.len(), |i: int| apply(op, l[i], r[source_index(ls, rs, i as nat) as int]))
}

/// A scalar applied on the right of every element.
pub open spec fn scalar_values(op: ElemOp, l: Seq<i32>, s: i32) -> Seq<i32> {
    Seq::new(l.len(), |i: int| apply(op, l[i], s))
}

pub proof fn lemma_broadcast_fits(a: Seq<usize>, b: Seq<usize>)
    requires
        broadcastable(a, b),
    ensures
        fits(a, broadcast_dims(a, b)),
        fits(b, broadcast_dims(a, b)),
        broadcast_dims(a, b) == broadcast_dims(b, a),
{
    assert(broadcast_dims(a, b) =~= broadcast_dims(b, a));
}

pub proof fn lemma_fits_positive(inp: Seq<usize>, out: Seq<usize>)
    requires
        fits(inp, out),
        all_positive(out),
    ensures
        all_positive(inp),
{
}

/// A position read against its own shape is the position itself.
pub proof fn lemma_source_index_identity(s: Seq<usize>, i: nat)
    requires
        i < prod(s),
    ensures
        source_index(s, s, i) == i,
    decreases s.len(),
{
    if s.len() > 0 {
        let p = s.drop_last();
        let d = s.last() as nat;
        lemma_prod_positive(s);
        assert(d >= 1);
        let q = i / d;
        lemma_fundamental_div_mod(i as int, d as int);
        assert(prod(s) == prod(p) * d);
        assert(q < prod(p)) by (nonlinear_arith)
            requires i == d * q + i % d, i % d >= 0, i < prod(p) * d, d >= 1;
        lemma_source_index_identity(p, q);
        assert(source_index(s, s, i) == source_index(p, p, q) * d + (if s.last() == 1 {
            0
        } else {
            i % d
        }));
        if s.last() == 1 {
            assert(i / 1 == i);
            assert(i % 1 == 0);
        }
        assert(q * d == d * q) by (nonlinear_arith);
    }
}

/// The source position always lies inside the operand.
pub proof fn lemma_source_index_bound(out: Seq<usize>, inp: Seq<usize>, i: nat)
    requires
        fits(inp, out),
        all_positive(out),
    ensures
        source_index(out, inp, i) < prod(inp),
    decreases out.len(),
{
    if out.len() > 0 {
        let d = out.last() as nat;
        let e = inp.last() as nat;
        let po = out.drop_last();
        let pi = inp.drop_last();
        assert(inp[inp.len() - 1] == out[out.len() - 1] || inp[inp.len() - 1] == 1);
        assert(fits(pi, po));
        lemma_source_index_bound(po, pi, i / d);
        let rest = source_index(po, pi, i / d);
        let c: nat = if e == 1 {
            0
        } else {
            i % d
        };
        assert(c < e);
        assert(rest * e + c < prod(pi) * e) by (nonlinear_arith)
            requires rest < prod(pi), c < e;
    }
}

/// Position of the operand of shape `inp` read for position `i` of a result
/// of shape `out`, over the first `n` axes.
fn source_index_exec(out: &Vec<usize>, inp: &Vec<usize>, n: usize, i: usize) -> (r: usize)
    requires
        n <= out@.len(),
        fits(inp@, out@),
        all_positive(out@),
        prod(inp@) <= usize::MAX,
    ensures
        r == source_index(out@.subrange(0, n as int), inp@.subrange(0, n as int), i as nat),
    decreases n,
{
    if n == 0 {
        return 0;
    }
    let d = out[n - 1];
    let c: usize = if inp[n - 1] == 1 {
        0
    } else {
        i % d
    };
    let rest = source_index_exec(out, inp, n - 1, i / d);
    proof {
        let so = out@.subrange(0, n as int);
        let si = inp@.subrange(0, n as int);
        assert(so.drop_last() =~= out@.subrange(0, n - 1));
        assert(si.drop_last() =~= inp@.subrange(0, n - 1));
        assert(fits(si, so));
        assert(all_positive(so));
        lemma_fits_positive(inp@, out@);
        lemma_source_index_bound(so, si, i as nat);
        lemma_prod_prefix_le(inp@, n as int);
    }
    rest * inp[n - 1] + c
}

/// Position of the operand read for position `i` of the result.
pub fn source_position(out: &Shape, inp: &Shape, i: usize) -> (r: usize)
    requires
        fits(inp@, out@),
        i < prod(out@),
        prod(inp@) <= usize::MAX,
    ensures
        r == source_index(out@, inp@, i as nat),
        r < prod(inp@),
{
    proof {
        lemma_prod_positive(out@);
        lemma_source_index_bound(out@, inp@, i as nat);
        assert(out@.subrange(0, out@.len() as int) =~= out@);
        assert(inp@.subrange(0, inp@.len() as int) =~= inp@);
    }
    source_index_exec(&out.dims, &inp.dims, out.dims.len(), i)
}

/// Whether two shapes broadcast together.
pub fn shapes_broadcastable(a: &Shape, b: &Shape) -> (r: bool)
    ensures
        r == broadcastable(a@, b@),
{
    if a.dims.len() != b.dims.len() {
        return false;
    }
    let n = a.dims.len();
    let mut k: usize = 0;
    while k < n
        invariant
            n == a@.len(),
            n == b@.len(),
            k <= n,
            forall|j: int| 0 <= j < k ==> a@[j] == b@[j] || a@[j] == 1 || b@[j] == 1,
        decreases n - k,
    {
        if !(a.dims[k] == b.dims[k] || a.dims[k] == 1 || b.dims[k] == 1) {
            return false;
        }
        k = k + 1;
    }
    true
}

/// The shape of the result of broadcasting `a` against `b`.
pub fn broadcast_shape(a: &Shape, b: &Shape) -> (r: Shape)
    requires
        a@.len() == b@.len(),
    ensures
        r@ == broadcast_dims(a@, b@),
{
    let n = a.dims.len();
    let mut dims: Vec<usize> = Vec::with_capacity(n);
    let mut k: usize = 0;
    while k < n
        invariant
            n == a@.len(),
            n == b@.len(),
            k <= n,
            dims@ =~= broadcast_dims(a@, b@).subrange(0, k as int),
        decreases n - k,
    {
        if a.dims[k] == 1 {
            dims.push(b.dims[k]);
        } else {
            dims.push(a.dims[k]);
        }
        k = k + 1;
    }
    assert(dims@ =~= broadcast_dims(a@, b@));
    Shape::new(dims)
}

/// Runs a binary kernel into a fresh buffer of the broadcast shape.
pub fn binary_kernel(ctx: &mut ComputeContext, op: ElemOp, lhs: &Tensor, rhs: &Tensor) -> (out: Tensor)
    requires
        lhs.valid(old(ctx)),
        rhs.valid(old(ctx)),
        broadcastable(lhs.dims(), rhs.dims()),
        prod(broadcast_dims(lhs.dims(), rhs.dims())) <= usize::MAX,
    ensures
        final(ctx).wf(),
        out.buffer_id() == old(ctx).len(),
        out.dims() == broadcast_dims(lhs.dims(), rhs.dims()),
        final(ctx).view() == old(ctx).view().push(
            BufferState {
                data: binary_values(op, lhs.values(old(ctx)), lhs.dims(), rhs.values(old(ctx)), rhs.dims()),
                owners: 1,
            },
        ),
{
    ctx.compile(kernel_key(KernelTemplate::Binary(op)));
    let ghost l = lhs.values(ctx);
    let ghost r = rhs.values(ctx);
    let ghost bd = broadcast_dims(lhs.dims(), rhs.dims());
    let ghost expected = binary_values(op, l, lhs.dims(), r, rhs.dims());
    proof {
        lemma_broadcast_fits(lhs.dims(), rhs.dims());
        ctx.lemma_contents_len(lhs.buffer_id());
        ctx.lemma_contents_len(rhs.buffer_id());
    }
    let shape = broadcast_shape(lhs.shape(), rhs.shape());
    let n = shape.num_elements();
    let ob = ctx.create_buffer(n);
    let lb = lhs.buffer();
    let rb = rhs.buffer();
    let mut i: usize = 0;
    while i < n
        invariant
            ctx.wf(),
            n == prod(bd),
            bd == broadcast_dims(lhs.dims(), rhs.dims()),
            shape@ == bd,
            fits(lhs.dims(), bd),
            fits(rhs.dims(), bd),
            ob == old(ctx).len(),
            ctx.len() == ob + 1,
            lb < ob && rb < ob,
            expected.len() == n,
            expected == binary_values(op, l, lhs.dims(), r, rhs.dims()),
            l.len() == prod(lhs.dims()),
            r.len() == prod(rhs.dims()),
            prod(lhs.dims()) <= usize::MAX,
            prod(rhs.dims()) <= usize::MAX,
            forall|b: int| 0 <= b < ob ==> ctx.view()[b] == old(ctx).view()[b],
            l == old(ctx).contents(lb),
            r == old(ctx).contents(rb),
            ctx.owner_count(ob) == 1,
            ctx.contents(ob).len() == n,
            i <= n,
            forall|j: int| 0 <= j < i ==> ctx.contents(ob)[j] == expected[j],
            forall|j: int| i <= j < n ==> ctx.contents(ob)[j] == 0,
        decreases n - i,
    {
        let li = source_position(&shape, lhs.shape(), i);
        let ri = source_position(&shape, rhs.shape(), i);
        let a = ctx.get(lb, li);
        let b = ctx.get(rb, ri);
        let v = apply_op(op, a, b);
        proof {
            assert(ctx.view()[lb as int] == old(ctx).view()[lb as int]);
            assert(ctx.view()[rb as int] == old(ctx).view()[rb as int]);
        }
        ctx.set(ob, i, v);
        i = i + 1;
    }
    proof {
        assert(ctx.contents(ob) =~= expected);
        assert(ctx.view() =~= old(ctx).view().push(BufferState { data: expected, owners: 1 }));
    }
    Tensor::from_parts(shape, ob)
}

/// Runs a binary kernel that writes its result over the left operand.
pub(crate) fn binary_kernel_inplace(ctx: &mut ComputeContext, op: ElemOp, lhs: &Tensor, rhs: &Tensor)
    requires
        lhs.valid(old(ctx)),
        rhs.valid(old(ctx)),
        lhs.buffer_id() != rhs.buffer_id(),
        fits(rhs.dims(), lhs.dims()),
    ensures
        final(ctx).wf(),
        final(ctx).view() == old(ctx).view().update(
            lhs.buffer_id() as int,
            BufferState {
                data: inplace_values(op, lhs.values(old(ctx)), rhs.values(old(ctx)), lhs.dims(), rhs.dims()),
                owners: old(ctx).owner_count(lhs.buffer_id()),
            },
        ),
{
    ctx.compile(kernel_key(KernelTemplate::BinaryInplace(op)));
    let ghost l = lhs.values(ctx);
    let ghost r = rhs.values(ctx);
    let ghost expected = inplace_values(op, l, r, lhs.dims(), rhs.dims());
    proof {
        ctx.lemma_contents_len(rhs.buffer_id());
    }
    let lb = lhs.buffer();
    let rb = rhs.buffer();
    let n = ctx.buffer_len(lb);
    let mut i: usize = 0;
    while i < n
        invariant
            ctx.wf(),
            n == prod(lhs.dims()),
            fits(rhs.dims(), lhs.dims()),
            ctx.len() == old(ctx).len(),
            lb < ctx.len() && rb < ctx.len() && lb != rb,
            expected == inplace_values(op, l, r, lhs.dims(), rhs.dims()),
            l.len() == n,
            r.len() == prod(rhs.dims()),
            prod(rhs.dims()) <= usize::MAX,
            forall|b: int| 0 <= b < ctx.len() && b != lb ==> ctx.view()[b] == old(ctx).view()[b],
            l == old(ctx).contents(lb),
            r == old(ctx).contents(rb),
            ctx.owner_count(lb) == old(ctx).owner_count(lb),
            ctx.contents(lb).len() == n,
            i <= n,
            forall|j: int| 0 <= j < i ==> ctx.contents(lb)[j] == expected[j],
            forall|j: int| i <= j < n ==> ctx.contents(lb)[j] == l[j],
        decreases n - i,
    {
        let ri = source_position(lhs.shape(), rhs.shape(), i);
        let a = ctx.get(lb, i);
        let b = ctx.get(rb, ri);
        let v = apply_op(op, a, b);
        ctx.set(lb, i, v);
        i = i + 1;
    }
    proof {
        assert(ctx.contents(lb) =~= expected);
        assert(ctx.view() =~= old(ctx).view().update(
            lb as int,
            BufferState { data: expected, owners: old(ctx).owner_count(lb) },
        ));
    }
}

/// Applies a scalar to every element, into a fresh buffer.
pub fn scalar_kernel(ctx: &mut ComputeContext, op: ElemOp, lhs: &Tensor, s: i32) -> (out: Tensor)
    requires
        lhs.valid(old(ctx)),
    ensures
        final(ctx).wf(),
        out.buffer_id() == old(ctx).len(),
        out.dims() == lhs.dims(),
        final(ctx).view() == old(ctx).view().push(
            BufferState { data: scalar_values(op, lhs.values(old(ctx)), s), owners: 1 },
        ),
{
    ctx.compile(kernel_key(KernelTemplate::Scalar(op)));
    let ghost l = lhs.values(ctx);
    let ghost expected = scalar_values(op, l, s);
    let lb = lhs.buffer();
    let n = ctx.buffer_len(lb);
    let ob = ctx.create_buffer(n);
    let mut i: usize = 0;
    while i < n
        invariant
            ctx.wf(),
            ob == old(ctx).len(),
            ctx.len() == ob + 1,
            lb < ob,
            l.len() == n,
            expected == scalar_values(op, l, s),
            forall|b: int| 0 <= b < ob ==> ctx.view()[b] == old(ctx).view()[b],
            l == old(ctx).contents(lb),
            ctx.owner_count(ob) == 1,
            ctx.contents(ob).len() == n,
            i <= n,
            forall|j: int| 0 <= j < i ==> ctx.contents(ob)[j] == expected[j],
        decreases n - i,
    {
        let a = ctx.get(lb, i);
        let v = apply_op(op, a, s);
        ctx.set(ob, i, v);
        i = i + 1;
    }
    proof {
        assert(ctx.contents(ob) =~= expected);
        assert(ctx.view() =~= old(ctx).view().push(BufferState { data: expected, owners: 1 }));
    }
    Tensor::from_parts(lhs.shape().clone_shape(), ob)
}

/// Applies a scalar to every element, in place.
pub(crate) fn scalar_kernel_inplace(ctx: &mut ComputeContext, op: ElemOp, lhs: &Tensor, s: i32)
    requires
        lhs.valid(old(ctx)),
    ensures
        final(ctx).wf(),
        final(ctx).view() == old(ctx).view().update(
            lhs.buffer_id() as int,
            BufferState {
                data: scalar_values(op, lhs.values(old(ctx)), s),
                owners: old(ctx).owner_count(lhs.buffer_id()),
            },
        ),
{
    ctx.compile(kernel_key(KernelTemplate::ScalarInplace(op)));
    let ghost l = lhs.values(ctx);
    let ghost expected = scalar_values(op, l, s);
    let lb = lhs.buffer();
    let n = ctx.buffer_len(lb);
    let mut i: usize = 0;
    while i < n
        invariant
            ctx.wf(),
            ctx.len() == old(ctx).len(),
            lb < ctx.len(),
            l.len() == n,
            expected == scalar_values(op, l, s),
            forall|b: int| 0 <= b < ctx.len() && b != lb ==> ctx.view()[b] == old(ctx).view()[b],
            l == old(ctx).contents(lb),
            ctx.owner_count(lb) == old(ctx).owner_count(lb),
            ctx.contents(lb).len() == n,
            i <= n,
            forall|j: int| 0 <= j < i ==> ctx.contents(lb)[j] == expected[j],
            forall|j: int| i <= j < n ==> ctx.contents(lb)[j] == l[j],
        decreases n - i,
    {
        let a = ctx.get(lb, i);
        let v = apply_op(op, a, s);
        ctx.set(lb, i, v);
        i = i + 1;
    }
    proof {
        assert(ctx.contents(lb) =~= expected);
        assert(ctx.view() =~= old(ctx).view().update(
            lb as int,
            BufferState { data: expected, owners: old(ctx).owner_count(lb) },
        ));
    }
}

/// Writing in place over an operand whose shape is already the broadcast
/// shape gives the same elements as the allocating kernel.
pub proof fn lemma_inplace_matches_allocating(
    op: ElemOp,
    l: Seq<i32>,
    ls: Seq<usize>,
    r: Seq<i32>,
    rs: Seq<usize>,
)
    requires
        broadcastable(ls, rs),
        l.len() == prod(ls),
        r.len() == prod(rs),
        broadcast_dims(ls, rs) == ls,
    ensures
        inplace_values(op, l, r, ls, rs) == binary_values(op, l, ls, r, rs),
{
    assert forall|i: int| 0 <= i < l.len() implies #[trigger] source_index(ls, ls, i as nat) == i by {
        lemma_source_index_identity(ls, i as nat);
    }
    assert(inplace_values(op, l, r, ls, rs) =~= binary_values(op, l, ls, r, rs));
}

/// For a commutative operator, writing in place over the right operand, when
/// its shape is the broadcast shape, gives the same elements as the
/// allocating kernel.
pub proof fn lemma_swapped_inplace_matches_allocating(
    op: ElemOp,
    l: Seq<i32>,
    ls: Seq<usize>,
    r: Seq<i32>,
    rs: Seq<usize>,
)
    requires
        commutative(op),
        broadcastable(ls, rs),
        l.len() == prod(ls),
        r.len() == prod(rs),
        broadcast_dims(ls, rs) == rs,
    ensures
        inplace_values(op, r, l, rs, ls) == binary_values(op, l, ls, r, rs),
{
    assert forall|i: int| 0 <= i < r.len() implies #[trigger] source_index(rs, rs, i as nat) == i by {
        lemma_source_index_identity(rs, i as nat);
    }
    assert forall|a: i32, b: i32| #[trigger] apply(op, a, b) == apply(op, b, a) by {
    }
    assert(inplace_values(op, r, l, rs, ls) =~= binary_values(op, l, ls, r, rs));
}

} // verus!

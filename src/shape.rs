use vstd::prelude::*;

verus! {

/// Number of elements of a tensor with the given dimensions.
pub open spec fn prod(dims: Seq<usize>) -> nat
    decreases dims.len(),
{
    if dims.len() == 0 {
        1
    } else {
        prod(dims.drop_last()) * (dims.last() as nat)
    }
}

/// Every dimension is at least one.
pub open spec fn all_positive(dims: Seq<usize>) -> bool {
    forall|k: int| 0 <= k < dims.len() ==> dims[k] >= 1
}

pub proof fn lemma_prod_positive(dims: Seq<usize>)
    ensures
        prod(dims) > 0 <==> all_positive(dims),
    decreases dims.len(),
{
    if dims.len() > 0 {
        let p = dims.drop_last();
        lemma_prod_positive(p);
        let d = dims.last() as nat;
        assert(prod(dims) == prod(p) * d);
        assert(prod(dims) > 0 <==> (prod(p) > 0 && d > 0)) by (nonlinear_arith)
            requires prod(dims) == prod(p) * d;
        if all_positive(dims) {
            assert forall|k: int| 0 <= k < p.len() implies p[k] >= 1 by {
                assert(p[k] == dims[k]);
            }
        }
        if all_positive(p) && d > 0 {
            assert forall|k: int| 0 <= k < dims.len() implies dims[k] >= 1 by {
                if k < p.len() {
                    assert(p[k] == dims[k]);
                }
            }
        }
    }
}

/// With no zero dimension, a prefix has no more elements than the whole.
pub proof fn lemma_prod_prefix_le(dims: Seq<usize>, n: int)
    requires
        0 <= n <= dims.len(),
        all_positive(dims),
    ensures
        prod(dims.subrange(0, n)) <= prod(dims),
    decreases dims.len() - n,
{
    if n < dims.len() {
        lemma_prod_prefix_le(dims, n + 1);
        let a = dims.subrange(0, n + 1);
        assert(a.drop_last() =~= dims.subrange(0, n));
        let d = a.last() as nat;
        assert(d >= 1);
        assert(prod(a) == prod(dims.subrange(0, n)) * d);
        assert(prod(dims.subrange(0, n)) <= prod(a)) by (nonlinear_arith)
            requires prod(a) == prod(dims.subrange(0, n)) * d, d >= 1;
    } else {
        assert(dims.subrange(0, n) =~= dims);
    }
}

/// The product of a concatenation is the product of the parts.
pub proof fn lemma_prod_append(a: Seq<usize>, b: Seq<usize>)
    ensures
        prod(a + b) == prod(a) * prod(b),
    decreases b.len(),
{
    if b.len() == 0 {
        assert(a + b =~= a);
        assert(prod(b) == 1);
        assert(prod(a) * 1 == prod(a));
    } else {
        lemma_prod_append(a, b.drop_last());
        assert((a + b).drop_last() =~= a + b.drop_last());
        assert((a + b).last() == b.last());
        assert(prod(a + b) == prod(a + b.drop_last()) * (b.last() as nat));
        let x = prod(a);
        let y = prod(b.drop_last());
        let d = b.last() as nat;
        assert(prod(b) == y * d);
        assert(prod(a + b.drop_last()) == x * y);
        assert(prod(a + b) == x * prod(b)) by (nonlinear_arith)
            requires prod(a + b) == (x * y) * d, prod(b) == y * d;
    }
}

/// The elements of a shape split around one axis: before it, along it, after it.
pub proof fn lemma_prod_split(dims: Seq<usize>, dim: int)
    requires
        0 <= dim < dims.len(),
    ensures
        prod(dims) == prod(dims.subrange(0, dim)) * (dims[dim] as nat) * prod(
            dims.subrange(dim + 1, dims.len() as int),
        ),
{
    let a = dims.subrange(0, dim + 1);
    let b = dims.subrange(dim + 1, dims.len() as int);
    assert(dims =~= a + b);
    lemma_prod_append(a, b);
    assert(a.drop_last() =~= dims.subrange(0, dim));
}

/// The dimension sizes of a tensor, outermost first (row-major layout).
pub struct Shape {
    pub dims: Vec<usize>,
}

impl View for Shape {
    type V = Seq<usize>;

    open spec fn view(&self) -> Seq<usize> {
        self.dims@
    }
}

impl Shape {
    pub fn new(dims: Vec<usize>) -> (r: Shape)
        ensures
            r@ == dims@,
    {
        Shape { dims }
    }

    pub fn rank(&self) -> (r: usize)
        ensures
            r == self@.len(),
    {
        self.dims.len()
    }

    pub fn clone_shape(&self) -> (r: Shape)
        ensures
            r@ == self@,
    {
        Shape { dims: self.dims.clone() }
    }

    /// The dimensions from `lo` up to `hi`.
    pub fn sub_shape(&self, lo: usize, hi: usize) -> (r: Shape)
        requires
            lo <= hi <= self@.len(),
        ensures
            r@ == self@.subrange(lo as int, hi as int),
    {
        let mut dims: Vec<usize> = Vec::new();
        let mut k: usize = lo;
        while k < hi
            invariant
                lo <= k <= hi,
                hi <= self@.len(),
                dims@ =~= self@.subrange(lo as int, k as int),
            decreases hi - k,
        {
            dims.push(self.dims[k]);
            k = k + 1;
        }
        Shape { dims }
    }

    /// The same dimensions with the one at `k` replaced by `v`.
    pub fn with_dim(&self, k: usize, v: usize) -> (r: Shape)
        requires
            k < self@.len(),
        ensures
            r@ == self@.update(k as int, v),
    {
        let mut dims = self.dims.clone();
        dims.set(k, v);
        Shape { dims }
    }

    /// Total element count: the product of the dimensions.
    pub fn num_elements(&self) -> (r: usize)
        requires
            prod(self@) <= usize::MAX,
        ensures
            r == prod(self@),
    {
        let n = self.dims.len();
        let mut i: usize = 0;
        while i < n
            invariant
                n == self@.len(),
                i <= n,
                forall|k: int| 0 <= k < i ==> self@[k] >= 1,
            decreases n - i,
        {
            if self.dims[i] == 0 {
                proof {
                    lemma_prod_positive(self@);
                }
                return 0;
            }
            i = i + 1;
        }
        proof {
            lemma_prod_positive(self@);
        }
        let mut acc: usize = 1;
        let mut j: usize = 0;
        while j < n
            invariant
                n == self@.len(),
                j <= n,
                all_positive(self@),
                prod(self@) <= usize::MAX,
                acc == prod(self@.subrange(0, j as int)),
            decreases n - j,
        {
            proof {
                let a = self@.subrange(0, j + 1);
                assert(a.drop_last() =~= self@.subrange(0, j as int));
                lemma_prod_prefix_le(self@, j + 1);
            }
            acc = acc * self.dims[j];
            j = j + 1;
        }
        proof {
            assert(self@.subrange(0, n as int) =~= self@);
        }
        acc
    }
}

} // verus!

//! Dense row-major tensors: a flat element buffer and a shape.
use vstd::prelude::*;

verus! {

/// Product of the dimensions of a shape (1 for the empty shape).
pub open spec fn shape_product(shape: Seq<usize>) -> int
    decreases shape.len(),
{
    if shape.len() == 0 {
        1
    } else {
        shape_product(shape.drop_last()) * shape.last()
    }
}

/// Every running product of the shape's dimensions, taken left to right, fits in `usize`.
pub open spec fn shape_fits(shape: Seq<usize>) -> bool {
    forall|k: int| 0 <= k <= shape.len() ==> #[trigger] shape_product(shape.take(k)) <= usize::MAX
}

pub proof fn lemma_shape_product_nonneg(shape: Seq<usize>)
    ensures
        shape_product(shape) >= 0,
    decreases shape.len(),
{
    if shape.len() > 0 {
        lemma_shape_product_nonneg(shape.drop_last());
        vstd::arithmetic::mul::lemma_mul_nonnegative(shape_product(shape.drop_last()), shape.last() as int);
    }
}

pub proof fn lemma_shape_product_take_step(shape: Seq<usize>, i: int)
    requires
        0 <= i < shape.len(),
    ensures
        shape_product(shape.take(i + 1)) == shape_product(shape.take(i)) * shape[i],
{
    assert(shape.take(i + 1).drop_last() =~= shape.take(i));
}

/// Number of elements described by `shape`, computed with checked-free arithmetic.
pub fn shape_numel(shape: &Vec<usize>) -> (n: usize)
    requires
        shape_fits(shape@),
    ensures
        n == shape_product(shape@),
{
    let mut acc: usize = 1;
    let mut i: usize = 0;
    assert(shape@.take(0) =~= Seq::<usize>::empty());
    while i < shape.len()
        invariant
            i <= shape.len(),
            shape_fits(shape@),
            acc == shape_product(shape@.take(i as int)),
        decreases shape.len() - i,
    {
        proof {
            lemma_shape_product_take_step(shape@, i as int);
            assert(shape_product(shape@.take(i + 1)) <= usize::MAX);
        }
        acc = acc * shape[i];
        i = i + 1;
    }
    assert(shape@.take(shape.len() as int) =~= shape@);
    acc
}

/// Element-wise copy of a vector of `Copy` values.
pub fn copy_vec<T: Copy>(v: &Vec<T>) -> (r: Vec<T>)
    ensures
        r@ == v@,
{
    let mut r: Vec<T> = Vec::with_capacity(v.len());
    let mut i: usize = 0;
    while i < v.len()
        invariant
            i <= v.len(),
            r@ == v@.take(i as int),
        decreases v.len() - i,
    {
        r.push(v[i]);
        i = i + 1;
        assert(r@ =~= v@.take(i as int));
    }
    assert(v@.take(v.len() as int) =~= v@);
    r
}

/// A vector of `n` copies of `value`.
pub fn filled_vec<T: Copy>(value: T, n: usize) -> (r: Vec<T>)
    ensures
        r@ == Seq::new(n as nat, |_i: int| value),
{
    let mut r: Vec<T> = Vec::with_capacity(n);
    let mut i: usize = 0;
    while i < n
        invariant
            i <= n,
            r@ == Seq::new(i as nat, |_i: int| value),
        decreases n - i,
    {
        r.push(value);
        i = i + 1;
        assert(r@ =~= Seq::new(i as nat, |_i: int| value));
    }
    r
}

/// A row-major tensor: `data[i]` is the element at the multi-index whose
/// row-major offset is `i` within `shape`.
#[derive(Clone, Debug)]
pub struct Tensor<T> {
    pub data: Vec<T>,
    pub shape: Vec<usize>,
}

impl<T> Tensor<T> {
    /// The buffer holds exactly as many elements as the shape describes.
    pub open spec fn wf(&self) -> bool {
        &&& shape_fits(self.shape@)
        &&& self.data.len() == shape_product(self.shape@)
    }
}

impl<T: Copy> Tensor<T> {
    /// Builds a tensor from a buffer whose length matches the shape.
    pub fn from_data(data: Vec<T>, shape: Vec<usize>) -> (t: Self)
        requires
            shape_fits(shape@),
            data.len() == shape_product(shape@),
        ensures
            t.data@ == data@,
            t.shape@ == shape@,
            t.wf(),
    {
        Tensor { data, shape }
    }

    /// A tensor of the given shape whose every element is `zero`.
    pub fn zeros(shape: Vec<usize>, zero: T) -> (t: Self)
        requires
            shape_fits(shape@),
        ensures
            t.shape@ == shape@,
            t.data@ == Seq::new(shape_product(shape@) as nat, |_i: int| zero),
            t.wf(),
    {
        let n = shape_numel(&shape);
        Tensor { data: filled_vec(zero, n), shape }
    }

    /// Number of elements.
    pub fn numel(&self) -> (n: usize)
        ensures
            n == self.data.len(),
    {
        self.data.len()
    }

    /// Number of dimensions.
    pub fn rank(&self) -> (r: usize)
        ensures
            r == self.shape.len(),
    {
        self.shape.len()
    }

    /// Reinterprets the buffer under a new shape with the same element count.
    pub fn reshape(self, shape: Vec<usize>) -> (t: Self)
        requires
            shape_fits(shape@),
            self.data.len() == shape_product(shape@),
        ensures
            t.data@ == self.data@,
            t.shape@ == shape@,
            t.wf(),
    {
        let mut this = self;
        this.shape = shape;
        this
    }

    /// An element-wise copy of this tensor.
    pub fn duplicate(&self) -> (t: Self)
        ensures
            t.data@ == self.data@,
            t.shape@ == self.shape@,
    {
        Tensor { data: copy_vec(&self.data), shape: copy_vec(&self.shape) }
    }
}


/// Product and fit of a one-dimensional shape.
pub proof fn lemma_shape1(a: usize)
    ensures
        shape_product(seq![a]) == a,
        shape_fits(seq![a]),
{
    let s = seq![a];
    assert(s.drop_last() =~= Seq::<usize>::empty());
    assert(shape_product(Seq::<usize>::empty()) == 1);
    assert(shape_product(s) == shape_product(s.drop_last()) * s.last());
    assert forall|k: int| 0 <= k <= s.len() implies #[trigger] shape_product(s.take(k)) <= usize::MAX by {
        if k == 0 {
            assert(s.take(0) =~= Seq::<usize>::empty());
            assert(shape_product(Seq::<usize>::empty()) == 1);
        } else {
            assert(s.take(1) =~= s);
        }
    }
}

/// Product and fit of a two-dimensional shape.
pub proof fn lemma_shape2(a: usize, b: usize)
    ensures
        shape_product(seq![a, b]) == a * b,
        shape_fits(seq![a, b]) <==> a * b <= usize::MAX,
{
    let s = seq![a, b];
    assert(s.drop_last() =~= seq![a]);
    lemma_shape1(a);
    assert(s.take(0) =~= Seq::<usize>::empty());
    assert(s.take(1) =~= seq![a]);
    assert(s.take(2) =~= s);
    assert(shape_product(Seq::<usize>::empty()) == 1);
    if shape_fits(s) {
        assert(shape_product(s.take(2)) <= usize::MAX);
    }
    if a * b <= usize::MAX {
        assert forall|k: int| 0 <= k <= s.len() implies #[trigger] shape_product(s.take(k)) <= usize::MAX by {
            if k == 0 {
            } else if k == 1 {
            } else {
            }
        }
    }
}

/// Product and fit of a four-dimensional shape.
pub proof fn lemma_shape4(a: usize, b: usize, c: usize, d: usize)
    ensures
        shape_product(seq![a, b, c, d]) == (a * b) * (c * d),
        shape_fits(seq![a, b, c, d]) <==> (a * b <= usize::MAX && a * b * c <= usize::MAX && (a * b) * (c
            * d) <= usize::MAX),
{
    let s = seq![a, b, c, d];
    assert(s.drop_last() =~= seq![a, b, c]);
    assert(seq![a, b, c].drop_last() =~= seq![a, b]);
    lemma_shape2(a, b);
    assert(shape_product(seq![a, b, c]) == a * b * c);
    assert(a * b * c * d == (a * b) * (c * d)) by (nonlinear_arith);
    assert(s.take(0) =~= Seq::<usize>::empty());
    assert(s.take(1) =~= seq![a]);
    assert(s.take(2) =~= seq![a, b]);
    assert(s.take(3) =~= seq![a, b, c]);
    assert(s.take(4) =~= s);
    assert(shape_product(Seq::<usize>::empty()) == 1);
    lemma_shape1(a);
    if a * b <= usize::MAX && a * b * c <= usize::MAX && (a * b) * (c * d) <= usize::MAX {
        assert(a <= usize::MAX);
        assert forall|k: int| 0 <= k <= s.len() implies #[trigger] shape_product(s.take(k)) <= usize::MAX by {
            if k == 0 {
            } else if k == 1 {
            } else if k == 2 {
            } else if k == 3 {
            } else {
            }
        }
    }
    if shape_fits(s) {
        assert(shape_product(s.take(2)) <= usize::MAX);
        assert(shape_product(s.take(3)) <= usize::MAX);
        assert(shape_product(s.take(4)) <= usize::MAX);
    }
}


/// The shape `[a]`.
pub fn shape_vec1(a: usize) -> (v: Vec<usize>)
    ensures
        v@ == seq![a],
{
    let mut v: Vec<usize> = Vec::new();
    v.push(a);
    assert(v@ =~= seq![a]);
    v
}

/// The shape `[a, b]`.
pub fn shape_vec2(a: usize, b: usize) -> (v: Vec<usize>)
    ensures
        v@ == seq![a, b],
{
    let mut v: Vec<usize> = Vec::new();
    v.push(a);
    v.push(b);
    assert(v@ =~= seq![a, b]);
    v
}

/// The shape `[a, b, c, d]`.
pub fn shape_vec4(a: usize, b: usize, c: usize, d: usize) -> (v: Vec<usize>)
    ensures
        v@ == seq![a, b, c, d],
{
    let mut v: Vec<usize> = Vec::new();
    v.push(a);
    v.push(b);
    v.push(c);
    v.push(d);
    assert(v@ =~= seq![a, b, c, d]);
    v
}


/// Product of a three-dimensional shape.
pub proof fn lemma_shape3(a: usize, b: usize, c: usize)
    ensures
        shape_product(seq![a, b, c]) == a * b * c,
{
    let s = seq![a, b, c];
    assert(s.drop_last() =~= seq![a, b]);
    lemma_shape2(a, b);
}

/// Whether two shapes are equal, dimension by dimension.
pub fn same_shape(a: &Vec<usize>, b: &Vec<usize>) -> (r: bool)
    ensures
        r == (a@ == b@),
{
    if a.len() != b.len() {
        return false;
    }
    let mut i: usize = 0;
    while i < a.len()
        invariant
            i <= a.len(),
            a.len() == b.len(),
            forall|k: int| 0 <= k < i ==> a@[k] == b@[k],
        decreases a.len() - i,
    {
        if a[i] != b[i] {
            return false;
        }
        i = i + 1;
    }
    assert(a@ =~= b@);
    true
}

} // verus!

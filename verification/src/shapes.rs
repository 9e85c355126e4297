use vstd::prelude::*;
use crate::array::{axis_ok, axis_layout, norm_axis, normalize_axis, ArrayError, NdArray};
use crate::layout::copy_vec;
use crate::shape::{checked_size, dims_fit, lemma_prod_axis, lemma_prod_split, post_of, pre_of, prod, shape_size};

verus! {

/// The dimensions larger than one, in order.
pub open spec fn dims_above_one(s: Seq<usize>) -> Seq<usize>
    decreases s.len(),
{
    if s.len() == 0 {
        Seq::empty()
    } else if s.last() > 1 {
        dims_above_one(s.drop_last()).push(s.last())
    } else {
        dims_above_one(s.drop_last())
    }
}

/// Inserting a dimension of size one keeps the number of elements.
pub proof fn lemma_prod_insert_one(s: Seq<usize>, ax: int)
    requires
        0 <= ax <= s.len(),
    ensures
        prod(s.insert(ax, 1)) == prod(s),
{
    let t = s.insert(ax, 1);
    lemma_prod_axis(t, ax);
    lemma_prod_split(s, ax);
    assert(t.take(ax) =~= s.take(ax));
    assert(t.skip(ax + 1) =~= s.skip(ax));
}

/// A shape of one, two or three dimensions has the product of its entries.
pub proof fn lemma_prod_small(s: Seq<usize>)
    requires
        1 <= s.len() <= 3,
    ensures
        s.len() == 1 ==> prod(s) == s[0] as nat,
        s.len() == 2 ==> prod(s) == (s[0] as nat) * (s[1] as nat),
        s.len() == 3 ==> prod(s) == (s[0] as nat) * (s[1] as nat) * (s[2] as nat),
{
    let t1 = s.take(1);
    assert(t1.drop_last().len() == 0);
    assert(prod(t1.drop_last()) == 1);
    assert(prod(t1) == prod(t1.drop_last()) * (t1.last() as nat));
    assert(prod(t1) == s[0] as nat);
    if s.len() >= 2 {
        let t2 = s.take(2);
        assert(t2.drop_last() =~= t1);
        assert(prod(t2) == prod(t2.drop_last()) * (t2.last() as nat));
    }
    if s.len() >= 3 {
        let t3 = s.take(3);
        assert(t3.drop_last() =~= s.take(2));
        assert(prod(t3) == prod(t3.drop_last()) * (t3.last() as nat));
    }
    assert(s.take(s.len() as int) =~= s);
}

impl<T: Copy> NdArray<T> {
    /// The elements as a one-dimensional array.
    pub fn flatten(&self) -> (r: NdArray<T>)
        requires
            self.wf(),
        ensures
            r.wf(),
            r.shape@ == seq![self.data@.len() as usize],
            r.data@ == self.data@,
    {
        let mut shape: Vec<usize> = Vec::new();
        shape.push(self.data.len());
        proof { lemma_prod_small(shape@); }
        NdArray { data: copy_vec(&self.data), shape }
    }

    /// Same as `flatten`.
    pub fn ravel(&self) -> (r: NdArray<T>)
        requires
            self.wf(),
        ensures
            r.wf(),
            r.shape@ == seq![self.data@.len() as usize],
            r.data@ == self.data@,
    {
        self.flatten()
    }

    /// Drops every dimension of size at most one; refused when the remaining dimensions do
    /// not hold the same number of elements (an array with a zero dimension).
    pub fn squeeze(&self) -> (r: Result<NdArray<T>, ArrayError>)
        requires
            self.wf(),
        ensures
            r is Ok <==> prod(dims_above_one(self.shape@)) == self.data@.len(),
            r is Err ==> r == Err::<NdArray<T>, ArrayError>(ArrayError::ShapeMismatch),
            r matches Ok(t) ==> t.wf() && t.shape@ == dims_above_one(self.shape@) && t.data@ == self.data@,
    {
        let mut s: Vec<usize> = Vec::new();
        let mut i: usize = 0;
        while i < self.shape.len()
            invariant
                0 <= i <= self.shape@.len(),
                s@ == dims_above_one(self.shape@.take(i as int)),
            decreases self.shape@.len() - i,
        {
            proof {
                assert(self.shape@.take(i as int + 1).drop_last() =~= self.shape@.take(i as int));
            }
            if self.shape[i] > 1 {
                s.push(self.shape[i]);
            }
            i = i + 1;
        }
        assert(self.shape@.take(self.shape@.len() as int) =~= self.shape@);
        let _len = self.data.len();
        match checked_size(&s) {
            Some(sz) => {
                if sz == self.data.len() {
                    Ok(NdArray { data: copy_vec(&self.data), shape: s })
                } else {
                    Err(ArrayError::ShapeMismatch)
                }
            },
            None => Err(ArrayError::ShapeMismatch),
        }
    }
}

/// Position at which `expand_dims` inserts the new axis (negative values count from the end
/// of the result).
pub open spec fn expand_position(axis: int, ndim: int) -> int {
    if axis < 0 { ndim + axis + 1 } else { axis }
}

/// Inserts a dimension of size one at `axis`.
pub fn expand_dims<T: Copy>(a: &NdArray<T>, axis: isize) -> (r: NdArray<T>)
    requires
        a.wf(),
        0 <= expand_position(axis as int, a.shape@.len() as int) <= a.shape@.len(),
    ensures
        r.wf(),
        r.shape@ == a.shape@.insert(expand_position(axis as int, a.shape@.len() as int), 1),
        r.data@ == a.data@,
{
    let ndim = a.shape.len();
    let ax: usize = if axis < 0 {
        let neg: usize = ((0 - (axis + 1)) as usize) + 1;
        ndim - (neg - 1)
    } else {
        axis as usize
    };
    let mut shape = copy_vec(&a.shape);
    shape.insert(ax, 1);
    proof { lemma_prod_insert_one(a.shape@, ax as int); }
    NdArray { data: copy_vec(&a.data), shape }
}

/// At least one dimension: a zero-dimensional array becomes `[1]`.
pub fn atleast_1d<T: Copy>(a: &NdArray<T>) -> (r: NdArray<T>)
    requires
        a.wf(),
    ensures
        r.wf(),
        r.data@ == a.data@,
        r.shape@ == (if a.shape@.len() == 0 { seq![1usize] } else { a.shape@ }),
{
    if a.shape.len() == 0 {
        let mut shape: Vec<usize> = Vec::new();
        shape.push(1);
        proof { lemma_prod_small(shape@); assert(prod(a.shape@) == 1); }
        NdArray { data: copy_vec(&a.data), shape }
    } else {
        NdArray { data: copy_vec(&a.data), shape: copy_vec(&a.shape) }
    }
}

/// At least two dimensions: `[]` becomes `[1, 1]` and `[N]` becomes `[1, N]`.
pub fn atleast_2d<T: Copy>(a: &NdArray<T>) -> (r: NdArray<T>)
    requires
        a.wf(),
    ensures
        r.wf(),
        r.data@ == a.data@,
        r.shape@ == (if a.shape@.len() == 0 { seq![1usize, 1usize] } else if a.shape@.len() == 1 {
            seq![1usize, a.shape@[0]] } else { a.shape@ }),
{
    let n = a.shape.len();
    if n == 0 {
        let mut shape: Vec<usize> = Vec::new();
        shape.push(1);
        shape.push(1);
        proof {
            lemma_prod_small(shape@);
            assert(prod(a.shape@) == 1);
            assert(shape@[0] == 1 && shape@[1] == 1);
            assert(1nat * 1nat == 1nat);
        }
        NdArray { data: copy_vec(&a.data), shape }
    } else if n == 1 {
        let mut shape: Vec<usize> = Vec::new();
        shape.push(1);
        shape.push(a.shape[0]);
        proof {
            lemma_prod_small(shape@);
            lemma_prod_small(a.shape@);
            let x = a.shape@[0] as nat;
            assert(1 * x == x) by (nonlinear_arith);
        }
        NdArray { data: copy_vec(&a.data), shape }
    } else {
        NdArray { data: copy_vec(&a.data), shape: copy_vec(&a.shape) }
    }
}

/// At least three dimensions: `[]` becomes `[1, 1, 1]`, `[N]` becomes `[1, N, 1]` and
/// `[M, N]` becomes `[M, N, 1]`.
pub fn atleast_3d<T: Copy>(a: &NdArray<T>) -> (r: NdArray<T>)
    requires
        a.wf(),
    ensures
        r.wf(),
        r.data@ == a.data@,
        r.shape@ == (if a.shape@.len() == 0 { seq![1usize, 1usize, 1usize] } else if a.shape@.len() == 1 {
            seq![1usize, a.shape@[0], 1usize] } else if a.shape@.len() == 2 {
            seq![a.shape@[0], a.shape@[1], 1usize] } else { a.shape@ }),
{
    let n = a.shape.len();
    if n == 0 {
        let mut shape: Vec<usize> = Vec::new();
        shape.push(1);
        shape.push(1);
        shape.push(1);
        proof {
            lemma_prod_small(shape@);
            assert(prod(a.shape@) == 1);
            assert(shape@[0] == 1 && shape@[1] == 1 && shape@[2] == 1);
            assert(1nat * 1nat * 1nat == 1nat);
        }
        NdArray { data: copy_vec(&a.data), shape }
    } else if n == 1 {
        let mut shape: Vec<usize> = Vec::new();
        shape.push(1);
        shape.push(a.shape[0]);
        shape.push(1);
        proof {
            lemma_prod_small(shape@);
            lemma_prod_small(a.shape@);
            let x = a.shape@[0] as nat;
            assert(1 * x * 1 == x) by (nonlinear_arith);
        }
        NdArray { data: copy_vec(&a.data), shape }
    } else if n == 2 {
        let mut shape: Vec<usize> = Vec::new();
        shape.push(a.shape[0]);
        shape.push(a.shape[1]);
        shape.push(1);
        proof {
            lemma_prod_small(shape@);
            lemma_prod_small(a.shape@);
            let x = a.shape@[0] as nat;
            let y = a.shape@[1] as nat;
            assert(x * y * 1 == x * y) by (nonlinear_arith);
        }
        NdArray { data: copy_vec(&a.data), shape }
    } else {
        NdArray { data: copy_vec(&a.data), shape: copy_vec(&a.shape) }
    }
}

/// Dimension `i` of `s` once `s` is padded with leading ones to `n` dimensions.
pub open spec fn padded_dim(s: Seq<usize>, n: int, i: int) -> usize {
    if i + s.len() < n { 1 } else { s[i + s.len() - n] }
}

/// The two shapes broadcast together (NumPy rules): aligned at the end, each pair of
/// dimensions must be equal or contain a one.
pub open spec fn broadcast_compatible(a: Seq<usize>, b: Seq<usize>) -> bool {
    forall|i: int| 0 <= i < broadcast_ndim(a, b) ==> #[trigger] dims_compatible(
        padded_dim(a, broadcast_ndim(a, b), i), padded_dim(b, broadcast_ndim(a, b), i))
}

/// Number of dimensions of the broadcast of two shapes.
pub open spec fn broadcast_ndim(a: Seq<usize>, b: Seq<usize>) -> int {
    if a.len() >= b.len() { a.len() as int } else { b.len() as int }
}

/// Two aligned dimensions broadcast together.
pub open spec fn dims_compatible(x: usize, y: usize) -> bool {
    x == y || x == 1 || y == 1
}

/// The broadcast shape of two compatible shapes.
pub open spec fn broadcast_shape(a: Seq<usize>, b: Seq<usize>) -> Seq<usize> {
    let n = if a.len() >= b.len() { a.len() as int } else { b.len() as int };
    Seq::new(n as nat, |i: int| if padded_dim(a, n, i) == 1 { padded_dim(b, n, i) } else { padded_dim(a, n, i) })
}

/// The shape that two shapes broadcast to, or `None` when they are incompatible.
pub fn broadcast_shapes(a: &Vec<usize>, b: &Vec<usize>) -> (r: Option<Vec<usize>>)
    ensures
        r is Some <==> broadcast_compatible(a@, b@),
        r matches Some(v) ==> v@ == broadcast_shape(a@, b@),
{
    let n = if a.len() >= b.len() { a.len() } else { b.len() };
    let mut out: Vec<usize> = Vec::new();
    let mut i: usize = 0;
    while i < n
        invariant
            0 <= i <= n,
            n == (if a@.len() >= b@.len() { a@.len() } else { b@.len() }),
            out@ =~= broadcast_shape(a@, b@).take(i as int),
            n as int == broadcast_ndim(a@, b@),
            forall|i2: int| 0 <= i2 < i ==> #[trigger] dims_compatible(
                padded_dim(a@, n as int, i2), padded_dim(b@, n as int, i2)),
        decreases n - i,
    {
        let av: usize = if i < n - a.len() { 1 } else { a[i - (n - a.len())] };
        let bv: usize = if i < n - b.len() { 1 } else { b[i - (n - b.len())] };
        assert(av == padded_dim(a@, n as int, i as int));
        assert(bv == padded_dim(b@, n as int, i as int));
        let v = if av == bv {
            av
        } else if av == 1 {
            bv
        } else if bv == 1 {
            av
        } else {
            proof {
                if broadcast_compatible(a@, b@) {
                    assert(dims_compatible(padded_dim(a@, n as int, i as int), padded_dim(b@, n as int, i as int)));
                }
            }
            return None;
        };
        assert(dims_compatible(padded_dim(a@, n as int, i as int), padded_dim(b@, n as int, i as int)));
        out.push(v);
        i = i + 1;
    }
    assert(out@ =~= broadcast_shape(a@, b@));
    Some(out)
}

/// Geometry of a reduction along `axis` (all elements when no axis is given): the sizes of
/// the dimensions before, along and after the axis, and the shape of the result (the axis
/// kept as size one with `keepdims`, removed otherwise).
pub fn axis_reduce_layout(shape: &Vec<usize>, axis: Option<isize>, keepdims: bool)
    -> (r: Result<(usize, usize, usize, Vec<usize>), ArrayError>)
    requires
        dims_fit(shape@),
    ensures
        axis is None ==> (r matches Ok(t) && t.0 == 1 && t.1 == prod(shape@) && t.2 == 1
            && t.3@ == (if keepdims { Seq::new(shape@.len(), |i: int| 1usize) } else { Seq::<usize>::empty() })),
        axis matches Some(x) ==> (r is Err <==> !axis_ok(x as int, shape@.len() as int)),
        r is Err ==> r == Err::<(usize, usize, usize, Vec<usize>), ArrayError>(ArrayError::AxisOutOfBounds),
        axis matches Some(x) ==> (r matches Ok(t) ==> {
            let ax = norm_axis(x as int, shape@.len() as int);
            &&& t.0 == pre_of(shape@, ax)
            &&& t.1 == shape@[ax]
            &&& t.2 == post_of(shape@, ax)
            &&& t.3@ == (if keepdims { shape@.update(ax, 1) } else { shape@.remove(ax) })
        }),
{
    match axis {
        None => {
            let total = shape_size(shape);
            let mut rs: Vec<usize> = Vec::new();
            if keepdims {
                let mut i: usize = 0;
                while i < shape.len()
                    invariant
                        0 <= i <= shape@.len(),
                        rs@ =~= Seq::new(i as nat, |k: int| 1usize),
                    decreases shape@.len() - i,
                {
                    rs.push(1);
                    i = i + 1;
                }
            }
            proof {
                if !keepdims {
                    assert(rs@ =~= Seq::<usize>::empty());
                }
            }
            Ok((1, total, 1, rs))
        },
        Some(x) => {
            let ax = match normalize_axis(x, shape.len()) {
                Some(v) => v,
                None => { return Err(ArrayError::AxisOutOfBounds); },
            };
            let (pre, n, post) = axis_layout(shape, ax);
            let mut s = copy_vec(shape);
            if keepdims {
                s.set(ax, 1);
            } else {
                s.remove(ax);
            }
            Ok((pre, n, post, s))
        },
    }
}

} // verus!

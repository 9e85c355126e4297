use vstd::prelude::*;
use crate::array::NdArray;
use crate::shape::{dims_fit, lemma_prod_axis, lemma_prod_pos, lemma_prod_split, lemma_prod_zero, prod};
use crate::strides::{compute_strides, flat_to_multi, in_bounds, lemma_ravel_bound, lemma_ravel_from_bound,
    lemma_ravel_unravel, lemma_unravel_ravel, ravel, ravel_from, stride, unravel, unravel_coord};

verus! {

/// `axes` lists each of `0..n` exactly once.
pub open spec fn is_axis_permutation(axes: Seq<usize>, n: int) -> bool {
    &&& axes.len() == n
    &&& forall|d: int| 0 <= d < n ==> #[trigger] axes[d] < n
    &&& forall|d1: int, d2: int| 0 <= d1 < d2 < n ==> axes[d1] != axes[d2]
}

/// The shape whose dimension `d` is dimension `axes[d]` of `s`.
pub open spec fn permuted_shape(s: Seq<usize>, axes: Seq<usize>) -> Seq<usize> {
    Seq::new(axes.len(), |d: int| s[axes[d] as int])
}

/// The source multi-index whose coordinate `axes[d]` is `m[d]` (other coordinates 0),
/// built by writing the coordinates of `m` in order.
pub open spec fn scatter(m: Seq<int>, axes: Seq<usize>, n: int, k: int) -> Seq<int>
    decreases k,
{
    if k <= 0 {
        Seq::new(n as nat, |e: int| 0int)
    } else {
        scatter(m, axes, n, k - 1).update(axes[k - 1] as int, m[k - 1])
    }
}

/// The coordinates of a multi-index as integers.
pub open spec fn ints(v: Seq<usize>) -> Seq<int> {
    v.map_values(|x: usize| x as int)
}

/// With distinct axes, coordinate `axes[d]` of the source index is `m[d]`.
pub proof fn lemma_scatter(m: Seq<int>, axes: Seq<usize>, n: int, k: int)
    requires
        0 <= k <= axes.len(),
        n >= 0,
        forall|d: int| 0 <= d < k ==> #[trigger] axes[d] < n,
        forall|d1: int, d2: int| 0 <= d1 < d2 < k ==> axes[d1] != axes[d2],
    ensures
        scatter(m, axes, n, k).len() == n,
        forall|d: int| 0 <= d < k ==> #[trigger] scatter(m, axes, n, k)[axes[d] as int] == m[d],
        forall|e: int| 0 <= e < n && (forall|d: int| 0 <= d < k ==> axes[d] != e) ==> #[trigger] scatter(m, axes, n, k)[e] == 0,
    decreases k,
{
    if k > 0 {
        lemma_scatter(m, axes, n, k - 1);
    }
}

/// Removing one dimension divides it out of the product.
pub proof fn lemma_prod_remove(s: Seq<usize>, e: int)
    requires
        0 <= e < s.len(),
    ensures
        prod(s) == prod(s.remove(e)) * (s[e] as nat),
{
    lemma_prod_axis(s, e);
    let r = s.remove(e);
    lemma_prod_split(r, e);
    assert(r.take(e) =~= s.take(e));
    assert(r.skip(e) =~= s.skip(e + 1));
    let a = prod(s.take(e)) as int;
    let b = s[e] as int;
    let c = prod(s.skip(e + 1)) as int;
    assert(a * b * c == a * c * b) by (nonlinear_arith);
}

/// Permuting the dimensions keeps the number of elements.
pub proof fn lemma_prod_permuted(s: Seq<usize>, axes: Seq<usize>)
    requires
        is_axis_permutation(axes, s.len() as int),
    ensures
        prod(permuted_shape(s, axes)) == prod(s),
    decreases s.len(),
{
    let n = s.len() as int;
    if n > 0 {
        let e = axes[n - 1] as int;
        let s2 = s.remove(e);
        let axes2 = Seq::new((n - 1) as nat, |d: int| if axes[d] > e { (axes[d] - 1) as usize } else { axes[d] });
        assert forall|d: int| 0 <= d < n - 1 implies #[trigger] axes2[d] < n - 1 by {
            assert(axes[d] != axes[n - 1]);
        }
        assert forall|d1: int, d2: int| 0 <= d1 < d2 < n - 1 implies axes2[d1] != axes2[d2] by {
            assert(axes[d1] != axes[n - 1]);
            assert(axes[d2] != axes[n - 1]);
            assert(axes[d1] != axes[d2]);
        }
        lemma_prod_permuted(s2, axes2);
        let out = permuted_shape(s, axes);
        assert(out.drop_last() =~= permuted_shape(s2, axes2)) by {
            assert forall|d: int| 0 <= d < n - 1 implies #[trigger] out.drop_last()[d] == permuted_shape(s2, axes2)[d] by {
                assert(axes[d] != axes[n - 1]);
            }
        }
        lemma_prod_remove(s, e);
    }
}

/// A nonempty array has no zero dimension.
pub proof fn lemma_nonempty_dims(s: Seq<usize>)
    requires
        prod(s) > 0,
    ensures
        forall|d: int| 0 <= d < s.len() ==> #[trigger] s[d] > 0,
{
    assert forall|d: int| 0 <= d < s.len() implies #[trigger] s[d] > 0 by {
        if s[d] == 0 {
            lemma_prod_zero(s, d);
        }
    }
}

/// Position of a multi-index inside the shape, from precomputed strides.
pub(crate) fn ravel_exec(m: &Vec<usize>, shape: &Vec<usize>, strides: &Vec<usize>) -> (r: usize)
    requires
        in_bounds(ints(m@), shape@),
        dims_fit(shape@),
        strides@.len() == shape@.len(),
        forall|d: int| 0 <= d < shape@.len() ==> #[trigger] strides@[d] == stride(shape@, d),
    ensures
        r as int == ravel(ints(m@), shape@),
{
    let n = shape.len();
    let mut acc: usize = 0;
    let mut e: usize = n;
    while e > 0
        invariant
            0 <= e <= n,
            n == shape@.len(),
            in_bounds(ints(m@), shape@),
            dims_fit(shape@),
            strides@.len() == n,
            forall|d: int| 0 <= d < shape@.len() ==> #[trigger] strides@[d] == stride(shape@, d),
            acc as int == ravel_from(ints(m@), shape@, e as int),
        decreases e,
    {
        let d = e - 1;
        proof {
            lemma_ravel_from_bound(ints(m@), shape@, d as int);
            assert(shape@.subrange(d as int, n as int) =~= shape@.skip(d as int));
            assert(prod(shape@.subrange(d as int, n as int)) <= usize::MAX);
            let md = ints(m@)[d as int];
            let st = stride(shape@, d as int) as int;
            assert(md * st <= md * st + ravel_from(ints(m@), shape@, e as int)) by (nonlinear_arith)
                requires ravel_from(ints(m@), shape@, e as int) >= 0;
            assert(md * st >= 0) by (nonlinear_arith) requires md >= 0, st >= 0;
        }
        acc = m[d] * strides[d] + acc;
        e = d;
    }
    acc
}

/// Reorders the axes of `a`: axis `d` of the result is axis `axes[d]` of `a`, so the element
/// at multi-index `m` of the result is the element of `a` whose coordinate `axes[d]` is `m[d]`.
pub fn permute_axes<T: Copy>(a: &NdArray<T>, axes: &Vec<usize>) -> (r: NdArray<T>)
    requires
        a.wf(),
        dims_fit(a.shape@),
        is_axis_permutation(axes@, a.shape@.len() as int),
    ensures
        r.wf(),
        r.shape@ == permuted_shape(a.shape@, axes@),
        forall|m: Seq<int>| in_bounds(m, r.shape@) ==>
            r.data@[#[trigger] ravel(m, r.shape@)] == a.data@[ravel(scatter(m, axes@, a.shape@.len() as int, axes@.len() as int), a.shape@)],
{
    let n = a.shape.len();
    let mut out_shape: Vec<usize> = Vec::new();
    let mut d: usize = 0;
    while d < n
        invariant
            0 <= d <= n,
            n == a.shape@.len(),
            is_axis_permutation(axes@, n as int),
            out_shape@ =~= permuted_shape(a.shape@, axes@).take(d as int),
        decreases n - d,
    {
        out_shape.push(a.shape[axes[d]]);
        d = d + 1;
    }
    assert(out_shape@ =~= permuted_shape(a.shape@, axes@));
    proof {
        lemma_prod_permuted(a.shape@, axes@);
        lemma_scatter(Seq::empty(), axes@, n as int, 0);
    }
    let strides = compute_strides(&a.shape);
    let total = a.data.len();
    let mut out: Vec<T> = Vec::new();
    let mut j: usize = 0;
    while j < total
        invariant
            0 <= j <= total,
            total == a.data@.len(),
            total == prod(a.shape@),
            total == prod(out_shape@),
            n == a.shape@.len(),
            dims_fit(a.shape@),
            is_axis_permutation(axes@, n as int),
            out_shape@ == permuted_shape(a.shape@, axes@),
            strides@.len() == n,
            forall|e: int| 0 <= e < n ==> #[trigger] strides@[e] == stride(a.shape@, e),
            out@.len() == j,
            forall|j2: int| 0 <= j2 < j ==> #[trigger] out@[j2]
                == a.data@[ravel(scatter(unravel(j2, out_shape@), axes@, n as int, n as int), a.shape@)],
        decreases total - j,
    {
        proof {
            lemma_nonempty_dims(out_shape@);
            lemma_nonempty_dims(a.shape@);
            lemma_ravel_unravel(j as int, out_shape@);
        }
        let m = flat_to_multi(j, &out_shape);
        assert(ints(m@) =~= unravel(j as int, out_shape@));
        // source multi-index: coordinate axes[d] takes m[d]
        let mut src: Vec<usize> = Vec::new();
        let mut e: usize = 0;
        while e < n
            invariant
                0 <= e <= n,
                src@.len() == e,
                forall|e2: int| 0 <= e2 < e ==> #[trigger] src@[e2] == 0,
            decreases n - e,
        {
            src.push(0);
            e = e + 1;
        }
        let mut d: usize = 0;
        while d < n
            invariant
                0 <= d <= n,
                n == a.shape@.len(),
                is_axis_permutation(axes@, n as int),
                out_shape@ == permuted_shape(a.shape@, axes@),
                m@.len() == n,
                ints(m@) == unravel(j as int, out_shape@),
                in_bounds(unravel(j as int, out_shape@), out_shape@),
                forall|e2: int| 0 <= e2 < n ==> #[trigger] a.shape@[e2] > 0,
                src@.len() == n,
                ints(src@) =~= scatter(ints(m@), axes@, n as int, d as int),
                forall|e2: int| 0 <= e2 < n ==> #[trigger] src@[e2] < a.shape@[e2],
            decreases n - d,
        {
            proof {
                assert(0 <= ints(m@)[d as int] < out_shape@[d as int]);
            }
            src.set(axes[d], m[d]);
            d = d + 1;
        }
        let off = ravel_exec(&src, &a.shape, &strides);
        proof {
            lemma_ravel_bound(ints(src@), a.shape@);
        }
        out.push(a.data[off]);
        j = j + 1;
    }
    let r = NdArray { data: out, shape: out_shape };
    assert forall|m: Seq<int>| in_bounds(m, r.shape@) implies
        r.data@[#[trigger] ravel(m, r.shape@)] == a.data@[ravel(scatter(m, axes@, n as int, n as int), a.shape@)] by {
        lemma_ravel_bound(m, r.shape@);
        lemma_unravel_ravel(m, r.shape@);
        if r.shape@.len() == 0 {
            assert(prod(r.shape@) == 1);
        }
    }
    r
}

/// The axes in reverse order.
pub open spec fn reversed_axes(n: int) -> Seq<usize> {
    Seq::new(n as nat, |d: int| (n - 1 - d) as usize)
}

/// The axes `0..n` in reverse order.
fn reversed_axes_exec(n: usize) -> (r: Vec<usize>)
    ensures
        r@ == reversed_axes(n as int),
        is_axis_permutation(r@, n as int),
{
    let mut r: Vec<usize> = Vec::new();
    let mut d: usize = 0;
    while d < n
        invariant
            0 <= d <= n,
            r@ =~= reversed_axes(n as int).take(d as int),
        decreases n - d,
    {
        r.push(n - 1 - d);
        d = d + 1;
    }
    assert(r@ =~= reversed_axes(n as int));
    r
}

/// The axes `0..n` with `a1` and `a2` exchanged.
pub open spec fn swapped_axes(n: int, a1: int, a2: int) -> Seq<usize> {
    Seq::new(n as nat, |d: int| (if d == a1 { a2 } else if d == a2 { a1 } else { d }) as usize)
}

fn swapped_axes_exec(n: usize, a1: usize, a2: usize) -> (r: Vec<usize>)
    requires
        a1 < n,
        a2 < n,
    ensures
        r@ == swapped_axes(n as int, a1 as int, a2 as int),
        is_axis_permutation(r@, n as int),
{
    let mut r: Vec<usize> = Vec::new();
    let mut d: usize = 0;
    while d < n
        invariant
            0 <= d <= n,
            a1 < n,
            a2 < n,
            r@ =~= swapped_axes(n as int, a1 as int, a2 as int).take(d as int),
        decreases n - d,
    {
        r.push(if d == a1 { a2 } else if d == a2 { a1 } else { d });
        d = d + 1;
    }
    assert(r@ =~= swapped_axes(n as int, a1 as int, a2 as int));
    r
}

/// The axes given as in NumPy (negative values count from the end), resolved against `ndim`.
pub open spec fn resolved_axes(axes: Seq<isize>, ndim: int) -> Seq<usize> {
    axes.map_values(|x: isize| crate::array::norm_axis(x as int, ndim) as usize)
}

/// Every listed axis resolves to one of the `ndim` dimensions.
pub open spec fn axes_resolve(axes: Seq<isize>, ndim: int) -> bool {
    forall|i: int| 0 <= i < axes.len() ==> #[trigger] crate::array::axis_ok(axes[i] as int, ndim)
}

/// Reverses the order of the axes; arrays with at most one axis are returned unchanged.
pub fn transpose<T: Copy>(a: &NdArray<T>) -> (r: NdArray<T>)
    requires
        a.wf(),
        dims_fit(a.shape@),
    ensures
        r.wf(),
        a.shape@.len() <= 1 ==> r.shape@ == a.shape@ && r.data@ == a.data@,
        a.shape@.len() > 1 ==> {
            let axes = reversed_axes(a.shape@.len() as int);
            &&& r.shape@ == permuted_shape(a.shape@, axes)
            &&& forall|m: Seq<int>| in_bounds(m, r.shape@) ==>
                r.data@[#[trigger] ravel(m, r.shape@)] == a.data@[ravel(scatter(m, axes, a.shape@.len() as int, axes.len() as int), a.shape@)]
        },
{
    if a.shape.len() <= 1 {
        return NdArray { data: crate::layout::copy_vec(&a.data), shape: crate::layout::copy_vec(&a.shape) };
    }
    let axes = reversed_axes_exec(a.shape.len());
    permute_axes(a, &axes)
}

/// Permutes the axes as listed (negative entries count from the end), or reverses them when
/// no list is given; a list whose length differs from the number of axes is refused.
pub fn transpose_axes<T: Copy>(a: &NdArray<T>, axes: Option<&Vec<isize>>) -> (r: Result<NdArray<T>, crate::array::ArrayError>)
    requires
        a.wf(),
        dims_fit(a.shape@),
        axes matches Some(v) ==> (v@.len() == a.shape@.len() ==> axes_resolve(v@, a.shape@.len() as int)
            && is_axis_permutation(resolved_axes(v@, a.shape@.len() as int), a.shape@.len() as int)),
    ensures
        axes matches Some(v) ==> (r is Err <==> v@.len() != a.shape@.len()),
        r is Err ==> r == Err::<NdArray<T>, crate::array::ArrayError>(crate::array::ArrayError::ShapeMismatch),
        r matches Ok(t) ==> {
            let p = match axes { Some(v) => resolved_axes(v@, a.shape@.len() as int), None => reversed_axes(a.shape@.len() as int) };
            &&& t.wf()
            &&& t.shape@ == permuted_shape(a.shape@, p)
            &&& forall|m: Seq<int>| in_bounds(m, t.shape@) ==>
                t.data@[#[trigger] ravel(m, t.shape@)] == a.data@[ravel(scatter(m, p, a.shape@.len() as int, p.len() as int), a.shape@)]
        },
{
    let ndim = a.shape.len();
    let perm: Vec<usize> = match axes {
        Some(v) => {
            let mut p: Vec<usize> = Vec::new();
            let mut i: usize = 0;
            while i < v.len()
                invariant
                    0 <= i <= v@.len(),
                    ndim == a.shape@.len(),
                    p@.len() == i,
                    forall|i2: int| 0 <= i2 < i && crate::array::axis_ok(v@[i2] as int, ndim as int)
                        ==> #[trigger] p@[i2] == resolved_axes(v@, ndim as int)[i2],
                decreases v@.len() - i,
            {
                // an unresolvable axis is only possible in a list of the wrong length, which is refused
                let q: usize = match crate::array::normalize_axis(v[i], ndim) {
                    Some(q) => q,
                    None => ndim,
                };
                p.push(q);
                i = i + 1;
            }
            if p.len() != ndim {
                return Err(crate::array::ArrayError::ShapeMismatch);
            }
            assert(p@ =~= resolved_axes(v@, ndim as int));
            p
        },
        None => reversed_axes_exec(ndim),
    };
    Ok(permute_axes(a, &perm))
}

/// Exchanges two axes.
pub fn swapaxes<T: Copy>(a: &NdArray<T>, axis1: usize, axis2: usize) -> (r: Result<NdArray<T>, crate::array::ArrayError>)
    requires
        a.wf(),
        dims_fit(a.shape@),
    ensures
        r is Err <==> (axis1 >= a.shape@.len() || axis2 >= a.shape@.len()),
        r is Err ==> r == Err::<NdArray<T>, crate::array::ArrayError>(crate::array::ArrayError::AxisOutOfBounds),
        r matches Ok(t) ==> {
            let p = swapped_axes(a.shape@.len() as int, axis1 as int, axis2 as int);
            &&& t.wf()
            &&& t.shape@ == permuted_shape(a.shape@, p)
            &&& forall|m: Seq<int>| in_bounds(m, t.shape@) ==>
                t.data@[#[trigger] ravel(m, t.shape@)] == a.data@[ravel(scatter(m, p, a.shape@.len() as int, p.len() as int), a.shape@)]
        },
{
    let ndim = a.shape.len();
    if axis1 >= ndim || axis2 >= ndim {
        return Err(crate::array::ArrayError::AxisOutOfBounds);
    }
    let p = swapped_axes_exec(ndim, axis1, axis2);
    Ok(permute_axes(a, &p))
}

} // verus!

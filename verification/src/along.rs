use vstd::prelude::*;
use crate::array::{axis_layout, axis_ok, norm_axis, normalize_axis, ArrayError, NdArray};
use crate::index_math::{flat3, lemma_flat3, lemma_unflat3};
use crate::layout::copy_vec;
use crate::shape::{dims_fit, post_of, pre_of, prod};

verus! {

/// `indices` has the shape of `arr` except possibly along `ax`.
pub open spec fn same_except_axis(s: Seq<usize>, t: Seq<usize>, ax: int) -> bool {
    s.len() == t.len() && forall|d: int| 0 <= d < s.len() && d != ax ==> #[trigger] s[d] == t[d]
}

/// The products before and after the axis agree for shapes that differ only along it.
pub proof fn lemma_same_except_axis(s: Seq<usize>, t: Seq<usize>, ax: int)
    requires
        0 <= ax < s.len(),
        same_except_axis(s, t, ax),
    ensures
        pre_of(t, ax) == pre_of(s, ax),
        post_of(t, ax) == post_of(s, ax),
{
    assert(t.take(ax) =~= s.take(ax));
    assert(t.skip(ax + 1) =~= s.skip(ax + 1));
}

/// Whether two shapes have the same dimensions but for axis `ax`.
fn same_except_axis_exec(s: &Vec<usize>, t: &Vec<usize>, ax: usize) -> (r: bool)
    ensures
        r == same_except_axis(s@, t@, ax as int),
{
    if s.len() != t.len() {
        return false;
    }
    let mut d: usize = 0;
    while d < s.len()
        invariant
            0 <= d <= s@.len(),
            s@.len() == t@.len(),
            forall|e: int| 0 <= e < d && e != ax ==> #[trigger] s@[e] == t@[e],
        decreases s@.len() - d,
    {
        if d != ax && s[d] != t[d] {
            return false;
        }
        d = d + 1;
    }
    true
}

/// Whether two shapes are equal.
fn same_shape_exec(s: &Vec<usize>, t: &Vec<usize>) -> (r: bool)
    ensures
        r == (s@ == t@),
{
    if s.len() != t.len() {
        return false;
    }
    let mut d: usize = 0;
    while d < s.len()
        invariant
            0 <= d <= s@.len(),
            s@.len() == t@.len(),
            forall|e: int| 0 <= e < d ==> #[trigger] s@[e] == t@[e],
        decreases s@.len() - d,
    {
        if s[d] != t[d] {
            return false;
        }
        d = d + 1;
    }
    assert(s@ =~= t@);
    true
}

/// Picks, along `axis`, the position given by `indices` for each element: the result has the
/// shape of `indices`, and its element at `(o, k, i)` (before, along, after the axis) is the
/// element of `arr` at `(o, indices[o, k, i], i)`. Indices whose shape differs from the
/// array's other than along the axis are refused, then an index outside the axis.
pub fn take_along_axis<T: Copy>(arr: &NdArray<T>, indices: &NdArray<usize>, axis: isize) -> (r: Result<NdArray<T>, ArrayError>)
    requires
        arr.wf(),
        indices.wf(),
        dims_fit(arr.shape@),
        arr.shape@.len() > 0 && axis_ok(axis as int, arr.shape@.len() as int)
            && same_except_axis(arr.shape@, indices.shape@, norm_axis(axis as int, arr.shape@.len() as int)) ==> {
            let ax = norm_axis(axis as int, arr.shape@.len() as int);
            !(pre_of(arr.shape@, ax) * post_of(arr.shape@, ax) == 0 && indices.shape@[ax] > 0)
        },
    ensures
        arr.shape@.len() == 0 ==> r == Err::<NdArray<T>, ArrayError>(ArrayError::TooFewDimensions),
        arr.shape@.len() > 0 && !axis_ok(axis as int, arr.shape@.len() as int)
            ==> r == Err::<NdArray<T>, ArrayError>(ArrayError::AxisOutOfBounds),
        arr.shape@.len() > 0 && axis_ok(axis as int, arr.shape@.len() as int)
            && !same_except_axis(arr.shape@, indices.shape@, norm_axis(axis as int, arr.shape@.len() as int))
            ==> r == Err::<NdArray<T>, ArrayError>(ArrayError::ShapeMismatch),
        arr.shape@.len() > 0 && axis_ok(axis as int, arr.shape@.len() as int)
            && same_except_axis(arr.shape@, indices.shape@, norm_axis(axis as int, arr.shape@.len() as int)) ==> {
            let ax = norm_axis(axis as int, arr.shape@.len() as int);
            let n = arr.shape@[ax] as int;
            let m = indices.shape@[ax] as int;
            let post = post_of(arr.shape@, ax) as int;
            &&& (r is Err <==> exists|j: int| 0 <= j < indices.data@.len() && indices.data@[j] >= n)
            &&& (r is Err ==> r == Err::<NdArray<T>, ArrayError>(ArrayError::IndexOutOfBounds))
            &&& (r matches Ok(t) ==> {
                &&& t.wf()
                &&& t.shape@ == indices.shape@
                &&& forall|o: int, k: int, i: int| 0 <= o < pre_of(arr.shape@, ax) && 0 <= k < m && 0 <= i < post ==>
                    #[trigger] t.data@[flat3(o, k, i, m, post)]
                        == arr.data@[flat3(o, indices.data@[flat3(o, k, i, m, post)] as int, i, n, post)]
            })
        },
{
    let ndim = arr.shape.len();
    if ndim == 0 {
        return Err(ArrayError::TooFewDimensions);
    }
    let ax = match normalize_axis(axis, ndim) {
        Some(v) => v,
        None => { return Err(ArrayError::AxisOutOfBounds); },
    };
    if !same_except_axis_exec(&arr.shape, &indices.shape, ax) {
        return Err(ArrayError::ShapeMismatch);
    }
    let (pre, n, post) = axis_layout(&arr.shape, ax);
    let m = indices.shape[ax];
    let ilen = indices.data.len();
    let alen = arr.data.len();
    proof {
        lemma_same_except_axis(arr.shape@, indices.shape@, ax as int);
        crate::array::lemma_axis_sizes(indices.shape@, ax as int);
    }
    let mut out: Vec<T> = Vec::new();
    let mut j: usize = 0;
    while j < ilen
        invariant
            0 <= j <= ilen,
            arr.shape@.len() > 0,
            axis_ok(axis as int, arr.shape@.len() as int),
            ax as int == norm_axis(axis as int, arr.shape@.len() as int),
            same_except_axis(arr.shape@, indices.shape@, ax as int),
            n == arr.shape@[ax as int],
            m == indices.shape@[ax as int],
            ilen == indices.data@.len(),
            ilen == pre * m * post,
            alen == arr.data@.len(),
            alen == pre * n * post,
            out@.len() == j,
            forall|j2: int| 0 <= j2 < j ==> #[trigger] indices.data@[j2] < n,
            forall|j2: int| 0 <= j2 < j ==> #[trigger] out@[j2]
                == arr.data@[flat3(j2 / post as int / m as int, indices.data@[j2] as int, j2 % post as int, n as int, post as int)],
        decreases ilen - j,
    {
        proof { lemma_unflat3(j as int, pre as int, m as int, post as int); }
        let v = indices.data[j];
        if v >= n {
            assert(indices.data@[j as int] >= n);
            return Err(ArrayError::IndexOutOfBounds);
        }
        let q = j / post;
        let i = j % post;
        let o = q / m;
        proof {
            lemma_flat3(o as int, v as int, i as int, pre as int, n as int, post as int);
            assert(o * n + v < pre * n) by (nonlinear_arith) requires o < pre, v < n;
            assert(pre * n <= pre * n * post) by (nonlinear_arith) requires post >= 1, pre * n >= 0;
            assert((o * n + v) * post <= (o * n + v) * post + i) by (nonlinear_arith) requires i >= 0, (o * n + v) * post >= 0;
            assert(o * n <= o * n + v);
        }
        out.push(arr.data[(o * n + v) * post + i]);
        j = j + 1;
    }
    let t = NdArray { data: out, shape: copy_vec(&indices.shape) };
    assert forall|o: int, k: int, i: int| 0 <= o < pre && 0 <= k < m && 0 <= i < post implies
        #[trigger] t.data@[flat3(o, k, i, m as int, post as int)]
            == arr.data@[flat3(o, indices.data@[flat3(o, k, i, m as int, post as int)] as int, i, n as int, post as int)] by {
        lemma_flat3(o, k, i, pre as int, m as int, post as int);
    }
    Ok(t)
}

/// Position in `indices` (and `values`) visited at step `t` of `put_along_axis`: the steps
/// run over the positions before the axis, then after it, then along it.
pub open spec fn along_step_source(t: int, m: int, post: int) -> int {
    flat3(t / m / post, t % m, (t / m) % post, m, post)
}

/// Target of step `t` of `put_along_axis` in the array, given the index read at that step.
pub open spec fn along_step_target(t: int, p: int, n: int, m: int, post: int) -> int {
    flat3(t / m / post, p, (t / m) % post, n, post)
}

/// Step `t` of `put_along_axis` reads an index outside the axis.
pub open spec fn along_step_bad(idx: Seq<usize>, t: int, n: int, m: int, post: int) -> bool {
    idx[along_step_source(t, m, post)] >= n
}

/// The array after the first `t` writes of `put_along_axis`.
pub open spec fn put_along_fold<T>(data: Seq<T>, idx: Seq<usize>, vals: Seq<T>, scalar: bool,
    n: int, m: int, post: int, t: int) -> Seq<T>
    decreases t,
{
    if t <= 0 {
        data
    } else {
        let j = along_step_source(t - 1, m, post);
        let v = if scalar { vals[0] } else { vals[j] };
        let prev = put_along_fold(data, idx, vals, scalar, n, m, post, t - 1);
        let target = along_step_target(t - 1, idx[j] as int, n, m, post);
        if 0 <= target < prev.len() { prev.update(target, v) } else { prev }
    }
}

/// The writes of `put_along_axis` keep the length of the array.
pub proof fn lemma_put_along_fold_len<T>(data: Seq<T>, idx: Seq<usize>, vals: Seq<T>, scalar: bool,
    n: int, m: int, post: int, t: int)
    ensures
        put_along_fold(data, idx, vals, scalar, n, m, post, t).len() == data.len(),
    decreases t,
{
    if t > 0 {
        lemma_put_along_fold_len(data, idx, vals, scalar, n, m, post, t - 1);
    }
}

/// The shapes `put_along_axis` accepts: values with no dimensions or as many as the array,
/// indices shaped as the array but for the axis, and values of more than one element shaped
/// as the indices when they have the array's dimensions.
pub open spec fn put_shapes_ok(a: Seq<usize>, idx: Seq<usize>, vals: Seq<usize>, vlen: nat, ax: int) -> bool {
    &&& (vals.len() == a.len() || vals.len() == 0)
    &&& same_except_axis(a, idx, ax)
    &&& (vals.len() == a.len() && vlen != 1 ==> vals == idx)
}

/// Writes `values` into `arr` along `axis` at the positions given by `indices`: for each
/// `(o, k, i)` (before, along, after the axis) of `indices`, the element of `arr` at
/// `(o, indices[o, k, i], i)` receives the value at the same place of `values` (or the
/// single value of a one-element `values`). Shapes that `put_shapes_ok` does not accept are
/// refused. The writes run over `o`, then `i`, then `k`; an index outside the axis stops them
/// with an error, keeping the writes already made.
pub fn put_along_axis<T: Copy>(arr: &mut NdArray<T>, indices: &NdArray<usize>, values: &NdArray<T>, axis: isize)
    -> (r: Result<(), ArrayError>)
    requires
        old(arr).wf(),
        indices.wf(),
        values.wf(),
        dims_fit(old(arr).shape@),
        old(arr).shape@.len() > 0 && axis_ok(axis as int, old(arr).shape@.len() as int)
            && put_shapes_ok(old(arr).shape@, indices.shape@, values.shape@, values.data@.len(),
                norm_axis(axis as int, old(arr).shape@.len() as int)) ==> {
            let ax = norm_axis(axis as int, old(arr).shape@.len() as int);
            !(pre_of(old(arr).shape@, ax) * post_of(old(arr).shape@, ax) == 0 && indices.shape@[ax] > 0)
        },
    ensures
        final(arr).shape@ == old(arr).shape@,
        final(arr).wf(),
        old(arr).shape@.len() == 0 ==> r == Err::<(), ArrayError>(ArrayError::TooFewDimensions) && final(arr).data@ == old(arr).data@,
        old(arr).shape@.len() > 0 && !axis_ok(axis as int, old(arr).shape@.len() as int)
            ==> r == Err::<(), ArrayError>(ArrayError::AxisOutOfBounds) && final(arr).data@ == old(arr).data@,
        old(arr).shape@.len() > 0 && axis_ok(axis as int, old(arr).shape@.len() as int)
            && !put_shapes_ok(old(arr).shape@, indices.shape@, values.shape@, values.data@.len(),
                norm_axis(axis as int, old(arr).shape@.len() as int))
            ==> r == Err::<(), ArrayError>(ArrayError::ShapeMismatch) && final(arr).data@ == old(arr).data@,
        old(arr).shape@.len() > 0 && axis_ok(axis as int, old(arr).shape@.len() as int)
            && put_shapes_ok(old(arr).shape@, indices.shape@, values.shape@, values.data@.len(),
                norm_axis(axis as int, old(arr).shape@.len() as int)) ==> {
            let ax = norm_axis(axis as int, old(arr).shape@.len() as int);
            let n = old(arr).shape@[ax] as int;
            let m = indices.shape@[ax] as int;
            let post = post_of(old(arr).shape@, ax) as int;
            let total = pre_of(old(arr).shape@, ax) * post * m;
            let scalar = values.data@.len() == 1;
            &&& (r is Ok <==> forall|t: int| 0 <= t < total ==> !#[trigger] along_step_bad(indices.data@, t, n, m, post))
            &&& (r is Ok ==> final(arr).data@ == put_along_fold(old(arr).data@, indices.data@, values.data@, scalar, n, m, post, total))
            &&& (r is Err ==> r == Err::<(), ArrayError>(ArrayError::IndexOutOfBounds) && exists|t0: int| 0 <= t0 < total
                && #[trigger] along_step_bad(indices.data@, t0, n, m, post)
                && (forall|t: int| 0 <= t < t0 ==> !#[trigger] along_step_bad(indices.data@, t, n, m, post))
                && final(arr).data@ == put_along_fold(old(arr).data@, indices.data@, values.data@, scalar, n, m, post, t0))
        },
{
    let ndim = arr.shape.len();
    if ndim == 0 {
        return Err(ArrayError::TooFewDimensions);
    }
    let ax = match normalize_axis(axis, ndim) {
        Some(v) => v,
        None => { return Err(ArrayError::AxisOutOfBounds); },
    };
    let vnd = values.shape.len();
    if vnd != ndim && vnd != 0 {
        return Err(ArrayError::ShapeMismatch);
    }
    if !same_except_axis_exec(&arr.shape, &indices.shape, ax) {
        return Err(ArrayError::ShapeMismatch);
    }
    if vnd == ndim && values.data.len() != 1 && !same_shape_exec(&values.shape, &indices.shape) {
        return Err(ArrayError::ShapeMismatch);
    }
    let (pre, n, post) = axis_layout(&arr.shape, ax);
    let m = indices.shape[ax];
    let ilen = indices.data.len();
    let alen = arr.data.len();
    let vlen = values.data.len();
    let scalar = vlen == 1;
    proof {
        lemma_same_except_axis(old(arr).shape@, indices.shape@, ax as int);
        crate::array::lemma_axis_sizes(indices.shape@, ax as int);
        if vnd == 0 {
            assert(prod(values.shape@) == 1);
        }
        assert(pre * post * m == pre * m * post) by (nonlinear_arith);
    }
    let total: usize = ilen;
    let mut t: usize = 0;
    while t < total
        invariant
            0 <= t <= total,
            total == ilen,
            ilen == indices.data@.len(),
            ilen == pre * post * m,
            alen == pre * n * post,
            vlen == values.data@.len(),
            scalar == (vlen == 1),
            scalar || vlen == ilen,
            arr.shape@ == old(arr).shape@,
            arr.data@.len() == alen,
            alen == old(arr).data@.len(),
            arr.shape@.len() > 0,
            old(arr).wf(),
            vnd == values.shape@.len(),
            ndim == old(arr).shape@.len(),
            vnd == ndim || vnd == 0,
            axis_ok(axis as int, arr.shape@.len() as int),
            ax as int == norm_axis(axis as int, arr.shape@.len() as int),
            put_shapes_ok(old(arr).shape@, indices.shape@, values.shape@, values.data@.len(), ax as int),
            n == arr.shape@[ax as int],
            m == indices.shape@[ax as int],
            post == post_of(arr.shape@, ax as int),
            pre == pre_of(arr.shape@, ax as int),
            forall|t2: int| 0 <= t2 < t ==> !#[trigger] along_step_bad(indices.data@, t2, n as int, m as int, post as int),
            arr.data@ == put_along_fold(old(arr).data@, indices.data@, values.data@, scalar, n as int, m as int, post as int, t as int),
        decreases total - t,
    {
        proof { lemma_unflat3(t as int, pre as int, post as int, m as int); }
        let q = t / m;
        let k = t % m;
        let i = q % post;
        let o = q / post;
        proof {
            lemma_flat3(o as int, k as int, i as int, pre as int, m as int, post as int);
            assert(o * m + k < pre * m) by (nonlinear_arith) requires o < pre, k < m;
            assert(pre * m <= pre * m * post) by (nonlinear_arith) requires post >= 1, pre * m >= 0;
            assert((o * m + k) * post <= (o * m + k) * post + i) by (nonlinear_arith) requires i >= 0, (o * m + k) * post >= 0;
            assert(o * m <= o * m + k);
            assert(pre * m * post == pre * post * m) by (nonlinear_arith);
        }
        let j = (o * m + k) * post + i;
        assert(j as int == along_step_source(t as int, m as int, post as int));
        let p = indices.data[j];
        if p >= n {
            assert(along_step_bad(indices.data@, t as int, n as int, m as int, post as int));
            return Err(ArrayError::IndexOutOfBounds);
        }
        proof {
            lemma_flat3(o as int, p as int, i as int, pre as int, n as int, post as int);
            assert(o * n + p < pre * n) by (nonlinear_arith) requires o < pre, p < n;
            assert(pre * n <= pre * n * post) by (nonlinear_arith) requires post >= 1, pre * n >= 0;
            assert((o * n + p) * post <= (o * n + p) * post + i) by (nonlinear_arith) requires i >= 0, (o * n + p) * post >= 0;
            assert(o * n <= o * n + p);
        }
        let target = (o * n + p) * post + i;
        let v = if scalar { values.data[0] } else { values.data[j] };
        arr.data.set(target, v);
        proof {
            lemma_put_along_fold_len(old(arr).data@, indices.data@, values.data@, scalar, n as int, m as int, post as int, t as int);
        }
        t = t + 1;
    }
    proof {
        lemma_put_along_fold_len(old(arr).data@, indices.data@, values.data@, scalar, n as int, m as int, post as int, total as int);
    }
    Ok(())
}

} // verus!

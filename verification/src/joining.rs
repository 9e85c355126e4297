use vstd::prelude::*;
use crate::array::{ArrayError, NdArray};
use crate::index_math::flat3;
use crate::shape::{dims_fit, lemma_prod_split, post_of, pre_of, prod, sub_prod};

verus! {

/// Product of the nonzero dimensions.
pub open spec fn nonzero_prod(s: Seq<usize>) -> nat
    decreases s.len(),
{
    if s.len() == 0 {
        1
    } else {
        nonzero_prod(s.drop_last()) * (if s.last() == 0 { 1nat } else { s.last() as nat })
    }
}

/// The shapes agree in every dimension but `axis`.
pub open spec fn same_except(a: Seq<usize>, b: Seq<usize>, axis: int) -> bool {
    a.len() == b.len() && forall|d: int| 0 <= d < a.len() && d != axis ==> #[trigger] a[d] == #[trigger] b[d]
}

/// Every array has the shape of the first one but along `axis`.
pub open spec fn all_same_except<T>(arrays: Seq<NdArray<T>>, axis: int) -> bool {
    forall|k: int| 0 <= k < arrays.len() ==> same_except(#[trigger] arrays[k].shape@, arrays[0].shape@, axis)
}

/// Sum of the lengths along `axis` of the first `k` arrays.
pub open spec fn axis_offset<T>(arrays: Seq<NdArray<T>>, axis: int, k: int) -> int
    decreases k,
{
    if k <= 0 { 0 } else { axis_offset(arrays, axis, k - 1) + arrays[k - 1].shape@[axis] as int }
}

/// Shape of the arrays joined along `axis`.
pub open spec fn concat_shape<T>(arrays: Seq<NdArray<T>>, axis: int) -> Seq<usize> {
    arrays[0].shape@.update(axis, axis_offset(arrays, axis, arrays.len() as int) as usize)
}

/// Number of elements of one row (everything from `axis` on) of an array.
pub open spec fn row_len<T>(a: NdArray<T>, axis: int) -> int {
    a.shape@[axis] as int * post_of(a.shape@, axis) as int
}

/// Row `o` of the result: row `o` of each of the first `k` arrays, one after the other.
pub open spec fn concat_row<T>(arrays: Seq<NdArray<T>>, axis: int, o: int, k: int) -> Seq<T>
    decreases k,
{
    if k <= 0 {
        Seq::empty()
    } else {
        concat_row(arrays, axis, o, k - 1)
            + arrays[k - 1].data@.subrange(o * row_len(arrays[k - 1], axis), (o + 1) * row_len(arrays[k - 1], axis))
    }
}

/// The first `o` rows of the result.
pub open spec fn concat_rows<T>(arrays: Seq<NdArray<T>>, axis: int, o: int) -> Seq<T>
    decreases o,
{
    if o <= 0 {
        Seq::empty()
    } else {
        concat_rows(arrays, axis, o - 1) + concat_row(arrays, axis, o - 1, arrays.len() as int)
    }
}

/// A shape's product is at most the product of its nonzero dimensions, which is positive.
proof fn lemma_prod_le_nonzero(s: Seq<usize>)
    ensures
        prod(s) <= nonzero_prod(s),
        nonzero_prod(s) >= 1,
    decreases s.len(),
{
    if s.len() > 0 {
        lemma_prod_le_nonzero(s.drop_last());
        let a = prod(s.drop_last()) as int;
        let b = nonzero_prod(s.drop_last()) as int;
        let x = s.last() as int;
        let y: int = if s.last() == 0 { 1 } else { x };
        assert(a * x <= b * y && b * y >= 1) by (nonlinear_arith)
            requires 0 <= a <= b, b >= 1, 0 <= x <= y, y >= 1;
    }
}

/// The nonzero product splits at any position.
proof fn lemma_nonzero_split(s: Seq<usize>, k: int)
    requires
        0 <= k <= s.len(),
    ensures
        nonzero_prod(s) == nonzero_prod(s.take(k)) * nonzero_prod(s.skip(k)),
    decreases s.len(),
{
    if k == s.len() {
        assert(s.take(k) =~= s);
        assert(s.skip(k).len() == 0);
        assert(nonzero_prod(s.skip(k)) == 1);
    } else {
        let dl = s.drop_last();
        lemma_nonzero_split(dl, k);
        assert(dl.take(k) =~= s.take(k));
        assert(s.skip(k).drop_last() =~= dl.skip(k));
        assert(s.skip(k).last() == s.last());
        let f: nat = if s.last() == 0 { 1 } else { s.last() as nat };
        assert(nonzero_prod(s.skip(k)) == nonzero_prod(dl.skip(k)) * f);
        assert(nonzero_prod(s) == nonzero_prod(dl) * f);
        vstd::arithmetic::mul::lemma_mul_is_associative(nonzero_prod(s.take(k)) as int, nonzero_prod(dl.skip(k)) as int, f as int);
    }
}

/// A shape whose nonzero dimensions multiply to at most `isize::MAX` fits.
proof fn lemma_nonzero_fits(s: Seq<usize>)
    requires
        nonzero_prod(s) <= isize::MAX,
    ensures
        dims_fit(s),
{
    assert forall|i: int, j: int| 0 <= i <= j <= s.len() implies #[trigger] prod(s.subrange(i, j)) <= usize::MAX by {
        let t = s.skip(i);
        lemma_nonzero_split(s, i);
        lemma_nonzero_split(t, j - i);
        assert(t.take(j - i) =~= s.subrange(i, j));
        lemma_prod_le_nonzero(s.take(i));
        lemma_prod_le_nonzero(t.skip(j - i));
        lemma_prod_le_nonzero(s.subrange(i, j));
        let a = nonzero_prod(s.take(i)) as int;
        let b = nonzero_prod(s.subrange(i, j)) as int;
        let c = nonzero_prod(t.skip(j - i)) as int;
        assert(b <= a * (b * c)) by (nonlinear_arith) requires a >= 1, b >= 1, c >= 1;
    }
}

/// Product of the nonzero dimensions, or `None` once it passes `isize::MAX`.
fn checked_nonzero_size(s: &Vec<usize>) -> (r: Option<usize>)
    ensures
        r is Some <==> nonzero_prod(s@) <= isize::MAX,
        r matches Some(v) ==> v == nonzero_prod(s@),
{
    let mut acc: usize = 1;
    let mut i: usize = 0;
    while i < s.len()
        invariant
            0 <= i <= s@.len(),
            acc == nonzero_prod(s@.take(i as int)),
            acc <= isize::MAX,
        decreases s@.len() - i,
    {
        assert(s@.take(i as int + 1).drop_last() =~= s@.take(i as int));
        if s[i] != 0 {
            match acc.checked_mul(s[i]) {
                None => {
                    proof {
                        lemma_nonzero_split(s@, i as int + 1);
                        lemma_prod_le_nonzero(s@.skip(i as int + 1));
                        let a = nonzero_prod(s@.take(i as int + 1)) as int;
                        let b = nonzero_prod(s@.skip(i as int + 1)) as int;
                        assert(a <= a * b) by (nonlinear_arith) requires a >= 0, b >= 1;
                    }
                    return None;
                },
                Some(v) => {
                    if v > isize::MAX as usize {
                        proof {
                            lemma_nonzero_split(s@, i as int + 1);
                            lemma_prod_le_nonzero(s@.skip(i as int + 1));
                            let a = nonzero_prod(s@.take(i as int + 1)) as int;
                            let b = nonzero_prod(s@.skip(i as int + 1)) as int;
                            assert(a <= a * b) by (nonlinear_arith) requires a >= 0, b >= 1;
                        }
                        return None;
                    }
                    acc = v;
                },
            }
        }
        i = i + 1;
    }
    assert(s@.take(s@.len() as int) =~= s@);
    Some(acc)
}

/// Well-formed arrays that all have `axis`, with the same sizes before and after it.
pub open spec fn joinable<T>(arrays: Seq<NdArray<T>>, axis: int, pre: int, post: int) -> bool {
    forall|k2: int| 0 <= k2 < arrays.len() ==> {
        &&& (#[trigger] arrays[k2]).wf()
        &&& 0 <= axis < arrays[k2].shape@.len()
        &&& pre_of(arrays[k2].shape@, axis) == pre
        &&& post_of(arrays[k2].shape@, axis) == post
    }
}

/// Lengths of the pieces of the result.
proof fn lemma_concat_row_len<T>(arrays: Seq<NdArray<T>>, axis: int, o: int, k: int, pre: int, post: int)
    requires
        0 <= k <= arrays.len(),
        0 <= o < pre,
        joinable(arrays, axis, pre, post),
    ensures
        concat_row(arrays, axis, o, k).len() == axis_offset(arrays, axis, k) * post,
        axis_offset(arrays, axis, k) >= 0,
    decreases k,
{
    if k > 0 {
        lemma_concat_row_len(arrays, axis, o, k - 1, pre, post);
        let a = arrays[k - 1];
        crate::shape::lemma_prod_axis(a.shape@, axis);
        let n = a.shape@[axis] as int;
        assert(a.data@.len() == pre * n * post);
        assert(0 <= o * (n * post) && (o + 1) * (n * post) <= pre * n * post) by (nonlinear_arith)
            requires 0 <= o < pre, n >= 0, post >= 0;
        let off = axis_offset(arrays, axis, k - 1);
        assert(off * post + n * post == (off + n) * post) by (nonlinear_arith);
        assert(row_len(a, axis) == n * post);
        assert((o + 1) * (n * post) - o * (n * post) == n * post) by (nonlinear_arith);
        assert(concat_row(arrays, axis, o, k) == concat_row(arrays, axis, o, k - 1)
            + a.data@.subrange(o * row_len(a, axis), (o + 1) * row_len(a, axis)));
    }
}

/// The first `o` rows of the result hold `o` times the row length.
proof fn lemma_concat_rows_len<T>(arrays: Seq<NdArray<T>>, axis: int, o: int, pre: int, post: int)
    requires
        0 <= o <= pre,
        joinable(arrays, axis, pre, post),
    ensures
        concat_rows(arrays, axis, o).len() == o * (axis_offset(arrays, axis, arrays.len() as int) * post),
    decreases o,
{
    if o > 0 {
        lemma_concat_rows_len(arrays, axis, o - 1, pre, post);
        lemma_concat_row_len(arrays, axis, o - 1, arrays.len() as int, pre, post);
        let l = axis_offset(arrays, axis, arrays.len() as int) * post;
        assert((o - 1) * l + l == o * l) by (nonlinear_arith);
        assert(concat_rows(arrays, axis, o) == concat_rows(arrays, axis, o - 1)
            + concat_row(arrays, axis, o - 1, arrays.len() as int));
    } else {
        let l = axis_offset(arrays, axis, arrays.len() as int) * post;
        assert(0 * l == 0) by (nonlinear_arith);
    }
}

/// Entry `q` of row `o` of array `k` sits in the result after `o` full rows and the rows of
/// the arrays before `k`.
proof fn lemma_concat_index<T>(arrays: Seq<NdArray<T>>, axis: int, pre: int, post: int, o: int, k: int, q: int)
    requires
        0 <= o < pre,
        0 <= k < arrays.len(),
        0 <= q < row_len(arrays[k], axis),
        joinable(arrays, axis, pre, post),
    ensures
        ({
            let l = axis_offset(arrays, axis, arrays.len() as int) * post;
            let pos = o * l + axis_offset(arrays, axis, k) * post + q;
            &&& 0 <= pos < concat_rows(arrays, axis, pre).len()
            &&& concat_rows(arrays, axis, pre)[pos] == arrays[k].data@[o * row_len(arrays[k], axis) + q]
        }),
{
    let n = arrays.len() as int;
    let l = axis_offset(arrays, axis, n) * post;
    let off = axis_offset(arrays, axis, k) * post;
    lemma_concat_row_len(arrays, axis, o, k, pre, post);
    lemma_concat_row_len(arrays, axis, o, k + 1, pre, post);
    lemma_concat_row_len(arrays, axis, o, n, pre, post);
    lemma_concat_rows_len(arrays, axis, o, pre, post);
    lemma_concat_rows_len(arrays, axis, o + 1, pre, post);
    lemma_concat_rows_len(arrays, axis, pre, pre, post);
    let rl = row_len(arrays[k], axis);
    crate::shape::lemma_prod_axis(arrays[k].shape@, axis);
    assert(arrays[k].data@.len() == pre * (arrays[k].shape@[axis] as int) * post);
    assert(0 <= o * rl && (o + 1) * rl <= arrays[k].data@.len()) by (nonlinear_arith)
        requires 0 <= o < pre, rl == (arrays[k].shape@[axis] as int) * post, arrays[k].shape@[axis] >= 0, post >= 0,
            arrays[k].data@.len() == pre * (arrays[k].shape@[axis] as int) * post;
    // within row `o`: the prefix of arrays before `k`, then row `o` of array `k`
    lemma_row_prefix(arrays, axis, o, k + 1, n, pre, post);
    let rk = concat_row(arrays, axis, o, k);
    let sub = arrays[k].data@.subrange(o * rl, (o + 1) * rl);
    assert((o + 1) * rl - o * rl == rl) by (nonlinear_arith);
    assert(sub.len() == rl);
    assert(concat_row(arrays, axis, o, k + 1) == rk + sub);
    assert(rk.len() == off);
    assert((rk + sub)[off + q] == sub[q]);
    assert(sub[q] == arrays[k].data@[o * rl + q]);
    let rn = concat_row(arrays, axis, o, n);
    assert(rn.take((rk + sub).len() as int)[off + q] == rn[off + q]);
    assert(concat_row(arrays, axis, o, n)[off + q] == arrays[k].data@[o * rl + q]);
    // within the result: `o` full rows come first
    lemma_rows_prefix(arrays, axis, o + 1, pre, pre, post);
    assert(axis_offset(arrays, axis, k + 1) * post <= l) by {
        lemma_offset_mono(arrays, axis, k + 1, n);
        let a = axis_offset(arrays, axis, k + 1);
        let b = axis_offset(arrays, axis, n);
        assert(a * post <= b * post) by (nonlinear_arith) requires a <= b, post >= 0;
    }
    assert((o + 1) * l == o * l + l) by (nonlinear_arith);
    let ro = concat_rows(arrays, axis, o);
    assert(concat_rows(arrays, axis, o + 1) == ro + rn);
    assert(ro.len() == o * l);
    assert((ro + rn)[o * l + (off + q)] == rn[off + q]);
    let rp = concat_rows(arrays, axis, pre);
    assert(rp.take((ro + rn).len() as int)[o * l + off + q] == rp[o * l + off + q]);
    assert(concat_rows(arrays, axis, o + 1)[o * l + off + q] == concat_row(arrays, axis, o, n)[off + q]);
    assert(o * l + l <= pre * l) by (nonlinear_arith) requires o < pre, l >= 0;
}

/// Offsets grow with the number of arrays.
proof fn lemma_offset_mono<T>(arrays: Seq<NdArray<T>>, axis: int, k: int, m: int)
    requires
        0 <= k <= m,
    ensures
        axis_offset(arrays, axis, k) <= axis_offset(arrays, axis, m),
    decreases m - k,
{
    if k < m {
        lemma_offset_mono(arrays, axis, k, m - 1);
    }
}

/// Row `o` over the first `k` arrays begins row `o` over the first `m >= k` arrays.
proof fn lemma_row_prefix<T>(arrays: Seq<NdArray<T>>, axis: int, o: int, k: int, m: int, pre: int, post: int)
    requires
        0 <= k <= m <= arrays.len(),
        0 <= o < pre,
        joinable(arrays, axis, pre, post),
    ensures
        concat_row(arrays, axis, o, k).len() <= concat_row(arrays, axis, o, m).len(),
        concat_row(arrays, axis, o, m).take(concat_row(arrays, axis, o, k).len() as int) =~= concat_row(arrays, axis, o, k),
    decreases m - k,
{
    lemma_concat_row_len(arrays, axis, o, k, pre, post);
    lemma_concat_row_len(arrays, axis, o, m, pre, post);
    if k < m {
        lemma_row_prefix(arrays, axis, o, k, m - 1, pre, post);
        lemma_concat_row_len(arrays, axis, o, m - 1, pre, post);
        let p = concat_row(arrays, axis, o, m - 1);
        let rest = arrays[m - 1].data@.subrange(o * row_len(arrays[m - 1], axis), (o + 1) * row_len(arrays[m - 1], axis));
        assert((p + rest).take(p.len() as int) =~= p);
    }
}

/// The first `o` rows begin the first `u >= o` rows.
proof fn lemma_rows_prefix<T>(arrays: Seq<NdArray<T>>, axis: int, o: int, u: int, pre: int, post: int)
    requires
        0 <= o <= u <= pre,
        joinable(arrays, axis, pre, post),
    ensures
        concat_rows(arrays, axis, o).len() <= concat_rows(arrays, axis, u).len(),
        concat_rows(arrays, axis, u).take(concat_rows(arrays, axis, o).len() as int) =~= concat_rows(arrays, axis, o),
    decreases u - o,
{
    if o < u {
        lemma_rows_prefix(arrays, axis, o, u - 1, pre, post);
        let p = concat_rows(arrays, axis, u - 1);
        let rest = concat_row(arrays, axis, u - 1, arrays.len() as int);
        assert((p + rest).take(p.len() as int) =~= p);
    }
}

/// Arrays that can be joined along `axis` without a panic: well formed, and once the first
/// array has the axis, every array has it and the lengths along it add up within `usize`.
pub open spec fn concat_ready<T>(arrays: Seq<NdArray<T>>, axis: int) -> bool {
    &&& forall|k: int| 0 <= k < arrays.len() ==> (#[trigger] arrays[k]).wf()
    &&& (arrays.len() > 0 && 0 <= axis < arrays[0].shape@.len() ==> {
        &&& forall|k: int| 0 <= k < arrays.len() ==> axis < (#[trigger] arrays[k]).shape@.len()
        &&& axis_offset(arrays, axis, arrays.len() as int) <= usize::MAX
    })
}

/// What joining along `axis` gives: the errors in the order they are checked, and otherwise
/// the joined array.
pub open spec fn concat_spec<T>(arrays: Seq<NdArray<T>>, axis: int, r: Result<NdArray<T>, ArrayError>) -> bool {
    &&& ((r == Err::<NdArray<T>, ArrayError>(ArrayError::EmptyInput)) <==> arrays.len() == 0)
    &&& (arrays.len() > 0 ==> ((r == Err::<NdArray<T>, ArrayError>(ArrayError::AxisOutOfBounds)) <==> axis >= arrays[0].shape@.len()))
    &&& (arrays.len() > 0 && 0 <= axis < arrays[0].shape@.len() ==>
            ((r == Err::<NdArray<T>, ArrayError>(ArrayError::ShapeMismatch)) <==> !all_same_except(arrays, axis)))
    &&& (arrays.len() > 0 && 0 <= axis < arrays[0].shape@.len() && all_same_except(arrays, axis) ==>
            ((r == Err::<NdArray<T>, ArrayError>(ArrayError::TooLarge)) <==> nonzero_prod(concat_shape(arrays, axis)) > isize::MAX))
    &&& (r is Ok <==> arrays.len() > 0 && 0 <= axis < arrays[0].shape@.len() && all_same_except(arrays, axis)
            && nonzero_prod(concat_shape(arrays, axis)) <= isize::MAX)
    &&& (r matches Ok(out) ==> {
            let s = concat_shape(arrays, axis);
            let pre = pre_of(s, axis) as int;
            let post = post_of(s, axis) as int;
            let tot = s[axis] as int;
            &&& out.wf()
            &&& out.shape@ == s
            &&& dims_fit(s)
            &&& forall|k: int, o: int, j: int, i: int|
                #![trigger arrays[k].data@[flat3(o, j, i, arrays[k].shape@[axis] as int, post)]]
                0 <= k < arrays.len() && 0 <= o < pre && 0 <= j < arrays[k].shape@[axis] && 0 <= i < post ==>
                out.data@[flat3(o, axis_offset(arrays, axis, k) + j, i, tot, post)]
                    == arrays[k].data@[flat3(o, j, i, arrays[k].shape@[axis] as int, post)]
        })
}

/// Joins arrays along an existing axis: the result has the shape of the first array with the
/// lengths along `axis` summed, and the block of array `k` starts along `axis` after the
/// lengths of the arrays before it. No array, an axis the first array lacks, shapes that differ
/// elsewhere, and a result whose nonzero dimensions multiply past `isize::MAX`, are refused in
/// that order.
pub fn concatenate<T: Copy>(arrays: &Vec<NdArray<T>>, axis: usize) -> (r: Result<NdArray<T>, ArrayError>)
    requires
        concat_ready(arrays@, axis as int),
    ensures
        concat_spec(arrays@, axis as int, r),
{
    let n = arrays.len();
    if n == 0 {
        return Err(ArrayError::EmptyInput);
    }
    let nd = arrays[0].shape.len();
    if axis >= nd {
        return Err(ArrayError::AxisOutOfBounds);
    }
    let ghost ax = axis as int;
    let mut total: usize = 0;
    let mut k: usize = 0;
    while k < n
        invariant
            0 <= k <= n,
            n == arrays@.len(),
            n > 0,
            nd == arrays@[0].shape@.len(),
            axis < nd,
            ax == axis as int,
            forall|k2: int| 0 <= k2 < n ==> axis < (#[trigger] arrays@[k2]).shape@.len(),
            axis_offset(arrays@, ax, n as int) <= usize::MAX,
            forall|k2: int| 0 <= k2 < k ==> same_except(#[trigger] arrays@[k2].shape@, arrays@[0].shape@, ax),
            total as int == axis_offset(arrays@, ax, k as int),
        decreases n - k,
    {
        let sk = &arrays[k].shape;
        if sk.len() != nd {
            proof {
                assert(!same_except(arrays@[k as int].shape@, arrays@[0].shape@, ax));
            }
            return Err(ArrayError::ShapeMismatch);
        }
        let mut d: usize = 0;
        while d < nd
            invariant
                0 <= d <= nd,
                k < n,
                n == arrays@.len(),
                nd == arrays@[0].shape@.len(),
                axis < nd,
                ax == axis as int,
                sk@ == arrays@[k as int].shape@,
                sk@.len() == nd,
                forall|d2: int| 0 <= d2 < d && d2 != ax ==> sk@[d2] == arrays@[0].shape@[d2],
            decreases nd - d,
        {
            if d != axis && sk[d] != arrays[0].shape[d] {
                proof {
                    assert(!same_except(arrays@[k as int].shape@, arrays@[0].shape@, ax));
                }
                return Err(ArrayError::ShapeMismatch);
            }
            d = d + 1;
        }
        proof {
            lemma_offset_mono(arrays@, ax, k as int + 1, n as int);
            assert(axis_offset(arrays@, ax, k as int + 1) == axis_offset(arrays@, ax, k as int) + arrays@[k as int].shape@[ax]);
            assert(same_except(arrays@[k as int].shape@, arrays@[0].shape@, ax));
        }
        total = total + sk[axis];
        k = k + 1;
    }
    let mut res_shape: Vec<usize> = crate::layout::copy_vec(&arrays[0].shape);
    res_shape.set(axis, total);
    assert(res_shape@ == concat_shape(arrays@, ax));
    if checked_nonzero_size(&res_shape).is_none() {
        return Err(ArrayError::TooLarge);
    }
    let ghost s = res_shape@;
    proof {
        lemma_nonzero_fits(s);
    }
    let pre = sub_prod(&res_shape, 0, axis);
    let post = sub_prod(&res_shape, axis + 1, nd);
    proof {
        assert(s.subrange(0, ax) =~= s.take(ax));
        assert(s.subrange(ax + 1, nd as int) =~= s.skip(ax + 1));
        assert forall|k2: int| 0 <= k2 < n implies {
            &&& (#[trigger] arrays@[k2]).wf()
            &&& 0 <= ax < arrays@[k2].shape@.len()
            &&& pre_of(arrays@[k2].shape@, ax) == pre
            &&& post_of(arrays@[k2].shape@, ax) == post
        } by {
            assert(same_except(arrays@[k2].shape@, arrays@[0].shape@, ax));
            assert(arrays@[k2].shape@.take(ax) =~= s.take(ax));
            assert(arrays@[k2].shape@.skip(ax + 1) =~= s.skip(ax + 1));
        }
        assert(joinable(arrays@, ax, pre as int, post as int));
        crate::shape::lemma_prod_axis(s, ax);
    }
    let mut out: Vec<T> = Vec::new();
    let mut o: usize = 0;
    while o < pre
        invariant
            0 <= o <= pre,
            n == arrays@.len(),
            ax == axis as int,
            joinable(arrays@, ax, pre as int, post as int),
            out@ == concat_rows(arrays@, ax, o as int),
        decreases pre - o,
    {
        let mut k: usize = 0;
        while k < n
            invariant
                0 <= k <= n,
                o < pre,
                n == arrays@.len(),
                ax == axis as int,
                joinable(arrays@, ax, pre as int, post as int),
                out@ == concat_rows(arrays@, ax, o as int) + concat_row(arrays@, ax, o as int, k as int),
            decreases n - k,
        {
            let a = &arrays[k];
            let alen = a.data.len();
            let ghost nk = a.shape@[ax] as int;
            proof {
                crate::shape::lemma_prod_axis(a.shape@, ax);
                assert(a.data@.len() == pre * nk * post);
                assert(nk * post <= pre * nk * post && (o + 1) * (nk * post) <= pre * nk * post) by (nonlinear_arith)
                    requires o < pre, nk >= 0, post >= 0;
            }
            let rl = a.shape[axis] * post;
            assert(rl == row_len(arrays@[k as int], ax));
            assert(o * rl <= alen) by (nonlinear_arith)
                requires rl == nk * post, (o + 1) * (nk * post) <= pre * nk * post, alen == pre * nk * post, nk >= 0;
            let base = o * rl;
            assert(base + rl <= a.data@.len()) by (nonlinear_arith)
                requires base == o * rl, rl == nk * post, (o + 1) * (nk * post) <= pre * nk * post, a.data@.len() == pre * nk * post;
            let mut p: usize = 0;
            while p < rl
                invariant
                    0 <= p <= rl,
                    o < pre,
                    k < n,
                    n == arrays@.len(),
                    *a == arrays@[k as int],
                    rl == row_len(*a, ax),
                    base == o * rl,
                    base + rl <= a.data@.len(),
                    alen == a.data@.len(),
                    joinable(arrays@, ax, pre as int, post as int),
                    out@ == concat_rows(arrays@, ax, o as int) + concat_row(arrays@, ax, o as int, k as int)
                        + a.data@.subrange(base as int, base + p),
                decreases rl - p,
            {
                let ghost before = out@;
                out.push(a.data[base + p]);
                assert(a.data@.subrange(base as int, base + p + 1) =~= a.data@.subrange(base as int, base + p).push(a.data@[base + p]));
                p = p + 1;
            }
            proof {
                assert(base + rl == (o + 1) * rl) by (nonlinear_arith) requires base == o * rl;
                assert(concat_row(arrays@, ax, o as int, k as int + 1) == concat_row(arrays@, ax, o as int, k as int)
                    + a.data@.subrange(base as int, base + rl));
            }
            k = k + 1;
        }
        o = o + 1;
    }
    proof {
        let tot = total as int;
        let l = axis_offset(arrays@, ax, n as int) * post;
        lemma_concat_rows_len(arrays@, ax, pre as int, pre as int, post as int);
        assert(pre * l == pre * tot * post) by (nonlinear_arith) requires l == tot * post;
        assert forall|k2: int, o2: int, j: int, i: int|
            #![trigger arrays@[k2].data@[flat3(o2, j, i, arrays@[k2].shape@[ax] as int, post as int)]]
            0 <= k2 < n && 0 <= o2 < pre && 0 <= j < arrays@[k2].shape@[ax] && 0 <= i < post implies
            out@[flat3(o2, axis_offset(arrays@, ax, k2) + j, i, tot, post as int)]
                == arrays@[k2].data@[flat3(o2, j, i, arrays@[k2].shape@[ax] as int, post as int)] by {
            let nk = arrays@[k2].shape@[ax] as int;
            let q = j * post + i;
            assert(0 <= q < nk * post) by (nonlinear_arith) requires 0 <= j < nk, 0 <= i < post, q == j * post + i;
            assert(row_len(arrays@[k2], ax) == nk * post);
            lemma_concat_index(arrays@, ax, pre as int, post as int, o2, k2, q);
            let off = axis_offset(arrays@, ax, k2);
            assert(flat3(o2, off + j, i, tot, post as int) == o2 * l + off * post + q) by (nonlinear_arith)
                requires l == tot * post, q == j * post + i;
            assert(flat3(o2, j, i, nk, post as int) == o2 * (nk * post) + q) by (nonlinear_arith)
                requires q == j * post + i;
        }
    }
    Ok(NdArray { data: out, shape: res_shape })
}

/// Joining arrays of length one along `axis` puts array `k` at offset `k`.
proof fn lemma_offset_ones<T>(arrays: Seq<NdArray<T>>, axis: int, k: int)
    requires
        0 <= k <= arrays.len(),
        forall|k2: int| 0 <= k2 < arrays.len() ==> (#[trigger] arrays[k2]).shape@[axis] == 1,
    ensures
        axis_offset(arrays, axis, k) == k,
    decreases k,
{
    if k > 0 {
        lemma_offset_ones(arrays, axis, k - 1);
    }
}

/// Every array has the shape of the first.
pub open spec fn all_same_shape<T>(arrays: Seq<NdArray<T>>) -> bool {
    forall|k: int| 0 <= k < arrays.len() ==> (#[trigger] arrays[k]).shape@ == arrays[0].shape@
}

/// Joins arrays of one shape along a new axis at position `axis`: element `(o, k, i)` of the
/// result, viewed as `[pre, n, post]` around the new axis, is element `o * post + i` of array
/// `k`. No array, differing shapes, and a result whose nonzero dimensions multiply past
/// `isize::MAX`, are refused.
pub fn stack<T: Copy>(arrays: &Vec<NdArray<T>>, axis: usize) -> (r: Result<NdArray<T>, ArrayError>)
    requires
        forall|k: int| 0 <= k < arrays@.len() ==> (#[trigger] arrays@[k]).wf(),
        arrays@.len() > 0 && all_same_shape(arrays@) ==> axis <= arrays@[0].shape@.len(),
    ensures
        (r == Err::<NdArray<T>, ArrayError>(ArrayError::EmptyInput)) <==> arrays@.len() == 0,
        arrays@.len() > 0 ==> ((r == Err::<NdArray<T>, ArrayError>(ArrayError::ShapeMismatch)) <==> !all_same_shape(arrays@)),
        arrays@.len() > 0 && all_same_shape(arrays@) ==> {
            let s = arrays@[0].shape@.insert(axis as int, arrays@.len() as usize);
            &&& (r == Err::<NdArray<T>, ArrayError>(ArrayError::TooLarge)) <==> nonzero_prod(s) > isize::MAX
            &&& r is Ok <==> nonzero_prod(s) <= isize::MAX
        },
        r matches Ok(out) ==> {
            let s0 = arrays@[0].shape@;
            let n = arrays@.len() as int;
            let pre = prod(s0.take(axis as int)) as int;
            let post = prod(s0.skip(axis as int)) as int;
            &&& out.wf()
            &&& out.shape@ == s0.insert(axis as int, n as usize)
            &&& forall|k: int, o: int, i: int| 0 <= k < n && 0 <= o < pre && 0 <= i < post ==>
                #[trigger] out.data@[flat3(o, k, i, n, post)] == arrays@[k].data@[o * post + i]
        },
{
    let n = arrays.len();
    if n == 0 {
        return Err(ArrayError::EmptyInput);
    }
    let mut k: usize = 1;
    while k < n
        invariant
            1 <= k <= n,
            n == arrays@.len(),
            forall|k2: int| 0 <= k2 < k ==> (#[trigger] arrays@[k2]).shape@ == arrays@[0].shape@,
        decreases n - k,
    {
        if !vec_eq_usize(&arrays[k].shape, &arrays[0].shape) {
            return Err(ArrayError::ShapeMismatch);
        }
        k = k + 1;
    }
    assert(all_same_shape(arrays@));
    let ghost s0 = arrays@[0].shape@;
    let ghost ax = axis as int;
    let mut expanded: Vec<NdArray<T>> = Vec::new();
    let mut k: usize = 0;
    while k < n
        invariant
            0 <= k <= n,
            n == arrays@.len(),
            ax == axis as int,
            s0 == arrays@[0].shape@,
            axis <= s0.len(),
            all_same_shape(arrays@),
            forall|k2: int| 0 <= k2 < n ==> (#[trigger] arrays@[k2]).wf(),
            expanded@.len() == k,
            forall|k2: int| 0 <= k2 < k ==> (#[trigger] expanded@[k2]).shape@ == s0.insert(ax, 1),
            forall|k2: int| 0 <= k2 < k ==> (#[trigger] expanded@[k2]).data@ == arrays@[k2].data@,
        decreases n - k,
    {
        let mut sh = crate::layout::copy_vec(&arrays[k].shape);
        sh.insert(axis, 1);
        expanded.push(NdArray { data: crate::layout::copy_vec(&arrays[k].data), shape: sh });
        k = k + 1;
    }
    let ghost s1 = s0.insert(ax, 1);
    proof {
        crate::shapes::lemma_prod_insert_one(s0, ax);
        assert forall|k2: int| 0 <= k2 < n implies (#[trigger] expanded@[k2]).shape@[ax] == 1 by {
            assert(expanded@[k2].shape@ == s1);
        }
        lemma_offset_ones(expanded@, ax, n as int);
        assert forall|k2: int| 0 <= k2 < n implies (#[trigger] expanded@[k2]).wf() by {
            assert(arrays@[k2].wf());
        }
        assert(concat_ready(expanded@, ax));
        assert forall|k2: int| 0 <= k2 < n implies same_except(#[trigger] expanded@[k2].shape@, expanded@[0].shape@, ax) by {
            assert(expanded@[k2].shape@ == s1);
        }
        assert(concat_shape(expanded@, ax) =~= s0.insert(ax, n as usize));
        assert(s1.take(ax) =~= s0.take(ax));
        assert(s1.skip(ax + 1) =~= s0.skip(ax));
    }
    let r = concatenate(&expanded, axis);
    proof {
        if r is Ok {
            let out = r->Ok_0;
            let post = prod(s0.skip(ax)) as int;
            assert forall|k2: int, o: int, i: int| 0 <= k2 < n && 0 <= o < prod(s0.take(ax)) && 0 <= i < post implies
                #[trigger] out.data@[flat3(o, k2, i, n as int, post)] == arrays@[k2].data@[o * post + i] by {
                assert(expanded@[k2].shape@ == s1);
                lemma_offset_ones(expanded@, ax, k2);
                let cs = concat_shape(expanded@, ax);
                assert(cs.skip(ax + 1) =~= s0.skip(ax));
                assert(cs.take(ax) =~= s0.take(ax));
                assert(post_of(cs, ax) == post);
                assert(pre_of(cs, ax) == prod(s0.take(ax)));
                assert(cs[ax] == n);
                assert(expanded@[k2].shape@[ax] == 1);
                assert(out.data@[flat3(o, axis_offset(expanded@, ax, k2) + 0, i, cs[ax] as int, post_of(cs, ax) as int)]
                    == expanded@[k2].data@[flat3(o, 0, i, expanded@[k2].shape@[ax] as int, post_of(cs, ax) as int)]);
                assert(flat3(o, 0, i, 1, post) == o * post + i);
            }
        }
    }
    r
}

/// Whether two shapes are equal.
pub(crate) fn vec_eq_usize(a: &Vec<usize>, b: &Vec<usize>) -> (r: bool)
    ensures
        r == (a@ == b@),
{
    if a.len() != b.len() {
        return false;
    }
    let mut i: usize = 0;
    while i < a.len()
        invariant
            0 <= i <= a@.len(),
            a@.len() == b@.len(),
            forall|j: int| 0 <= j < i ==> a@[j] == b@[j],
        decreases a@.len() - i,
    {
        if a[i] != b[i] {
            return false;
        }
        i = i + 1;
    }
    assert(a@ =~= b@);
    true
}

/// The axis `hstack` joins along: the first for arrays of at most one dimension, else the
/// second.
pub open spec fn hstack_axis<T>(a: NdArray<T>) -> int {
    if a.shape@.len() <= 1 { 0 } else { 1 }
}

/// Joins arrays along their second axis, or along the first when the first array has at most
/// one dimension.
pub fn hstack<T: Copy>(arrays: &Vec<NdArray<T>>) -> (r: Result<NdArray<T>, ArrayError>)
    requires
        arrays@.len() > 0 ==> concat_ready(arrays@, hstack_axis(arrays@[0])),
        arrays@.len() == 0 ==> concat_ready(arrays@, 0),
    ensures
        arrays@.len() == 0 ==> r == Err::<NdArray<T>, ArrayError>(ArrayError::EmptyInput),
        arrays@.len() > 0 ==> concat_spec(arrays@, hstack_axis(arrays@[0]), r),
{
    if arrays.len() == 0 {
        return Err(ArrayError::EmptyInput);
    }
    let axis: usize = if arrays[0].shape.len() <= 1 { 0 } else { 1 };
    concatenate(arrays, axis)
}

/// Length of the last dimension, one for a zero-dimensional array.
pub open spec fn last_dim<T>(a: NdArray<T>) -> int {
    if a.shape@.len() == 0 { 1 } else { a.shape@[a.shape@.len() - 1] as int }
}

/// Every array is one-dimensional.
pub open spec fn all_1d<T>(arrays: Seq<NdArray<T>>) -> bool {
    forall|k: int| 0 <= k < arrays.len() ==> (#[trigger] arrays[k]).shape@.len() == 1
}

/// Every array has the last dimension of the first.
pub open spec fn same_last_dim<T>(arrays: Seq<NdArray<T>>) -> bool {
    forall|k: int| 0 <= k < arrays.len() ==> last_dim(#[trigger] arrays[k]) == last_dim(arrays[0])
}

/// Stacks arrays vertically: one-dimensional arrays of one length become the rows of a matrix;
/// otherwise arrays with the same last dimension are joined along their first axis.
pub fn vstack<T: Copy>(arrays: &Vec<NdArray<T>>) -> (r: Result<NdArray<T>, ArrayError>)
    requires
        forall|k: int| 0 <= k < arrays@.len() ==> (#[trigger] arrays@[k]).wf(),
        arrays@.len() > 0 && all_1d(arrays@) ==> arrays@.len() * arrays@[0].data@.len() <= usize::MAX,
        arrays@.len() > 0 && !all_1d(arrays@) && same_last_dim(arrays@) ==> concat_ready(arrays@, 0),
    ensures
        arrays@.len() == 0 ==> r == Err::<NdArray<T>, ArrayError>(ArrayError::EmptyInput),
        arrays@.len() > 0 && all_1d(arrays@) ==> {
            let ncols = arrays@[0].data@.len() as int;
            let n = arrays@.len() as int;
            &&& (r is Err <==> exists|k: int| 0 <= k < n && (#[trigger] arrays@[k]).data@.len() != ncols)
            &&& (r is Err ==> r == Err::<NdArray<T>, ArrayError>(ArrayError::ShapeMismatch))
            &&& (r matches Ok(out) ==> {
                &&& out.wf()
                &&& out.shape@ == seq![n as usize, ncols as usize]
                &&& forall|k: int, c: int| 0 <= k < n && 0 <= c < ncols ==>
                    #[trigger] out.data@[k * ncols + c] == arrays@[k].data@[c]
            })
        },
        arrays@.len() > 0 && !all_1d(arrays@) ==> {
            &&& (!same_last_dim(arrays@) ==> r == Err::<NdArray<T>, ArrayError>(ArrayError::ShapeMismatch))
            &&& (same_last_dim(arrays@) ==> concat_spec(arrays@, 0, r))
        },
{
    let n = arrays.len();
    if n == 0 {
        return Err(ArrayError::EmptyInput);
    }
    let mut one_d = true;
    let mut k: usize = 0;
    while k < n
        invariant
            0 <= k <= n,
            n == arrays@.len(),
            one_d == forall|k2: int| 0 <= k2 < k ==> (#[trigger] arrays@[k2]).shape@.len() == 1,
        decreases n - k,
    {
        if arrays[k].shape.len() != 1 {
            one_d = false;
        }
        k = k + 1;
    }
    if one_d {
        assert(all_1d(arrays@));
        let ncols = arrays[0].data.len();
        let mut data: Vec<T> = Vec::new();
        let mut k: usize = 0;
        while k < n
            invariant
                0 <= k <= n,
                n == arrays@.len(),
                ncols == arrays@[0].data@.len(),
                n * ncols <= usize::MAX,
                all_1d(arrays@),
                forall|k2: int| 0 <= k2 < k ==> (#[trigger] arrays@[k2]).data@.len() == ncols,
                data@.len() == k * ncols,
                forall|k2: int, c: int| 0 <= k2 < k && 0 <= c < ncols ==>
                    #[trigger] data@[k2 * ncols + c] == arrays@[k2].data@[c],
            decreases n - k,
        {
            let row = &arrays[k].data;
            if row.len() != ncols {
                proof {
                    assert(arrays@[k as int].data@.len() != ncols);
                }
                return Err(ArrayError::ShapeMismatch);
            }
            let mut c: usize = 0;
            while c < ncols
                invariant
                    0 <= c <= ncols,
                    k < n,
                    n == arrays@.len(),
                    n * ncols <= usize::MAX,
                    row@ == arrays@[k as int].data@,
                    row@.len() == ncols,
                    data@.len() == k * ncols + c,
                    forall|k2: int, c2: int| 0 <= k2 < k && 0 <= c2 < ncols ==>
                        #[trigger] data@[k2 * ncols + c2] == arrays@[k2].data@[c2],
                    forall|c2: int| 0 <= c2 < c ==> #[trigger] data@[k * ncols + c2] == row@[c2],
                decreases ncols - c,
            {
                proof {
                    assert(k * ncols + c < n * ncols) by (nonlinear_arith) requires k < n, c < ncols;
                }
                data.push(row[c]);
                proof {
                    assert forall|k2: int, c2: int| 0 <= k2 < k && 0 <= c2 < ncols implies
                        #[trigger] data@[k2 * ncols + c2] == arrays@[k2].data@[c2] by {
                        assert(k2 * ncols + c2 < k * ncols) by (nonlinear_arith) requires k2 < k, c2 < ncols;
                    }
                }
                c = c + 1;
            }
            proof {
                assert((k + 1) * ncols == k * ncols + ncols) by (nonlinear_arith);
            }
            k = k + 1;
        }
        let mut shape: Vec<usize> = Vec::new();
        shape.push(n);
        shape.push(ncols);
        proof {
            crate::shapes::lemma_prod_small(shape@);
            assert(shape@ =~= seq![n as usize, ncols as usize]);
        }
        return Ok(NdArray { data, shape });
    }
    assert(!all_1d(arrays@));
    let c0: usize = if arrays[0].shape.len() == 0 { 1 } else { arrays[0].shape[arrays[0].shape.len() - 1] };
    let mut k: usize = 1;
    while k < n
        invariant
            1 <= k <= n,
            n == arrays@.len(),
            c0 as int == last_dim(arrays@[0]),
            !all_1d(arrays@),
            forall|k2: int| 0 <= k2 < k ==> last_dim(#[trigger] arrays@[k2]) == last_dim(arrays@[0]),
        decreases n - k,
    {
        let sk = &arrays[k].shape;
        let ck: usize = if sk.len() == 0 { 1 } else { sk[sk.len() - 1] };
        if ck != c0 {
            proof {
                assert(last_dim(arrays@[k as int]) != last_dim(arrays@[0]));
            }
            return Err(ArrayError::ShapeMismatch);
        }
        k = k + 1;
    }
    concatenate(arrays, 0)
}

/// The array an input becomes before column stacking: a one-dimensional array of length `n`
/// becomes the `n` by one matrix of its elements; any other array stays as it is.
pub open spec fn as_column<T>(a: NdArray<T>, c: NdArray<T>) -> bool {
    &&& c.data@ == a.data@
    &&& c.shape@ == if a.shape@.len() == 1 { seq![a.shape@[0], 1usize] } else { a.shape@ }
}

/// Stacks arrays as the columns of a matrix: one-dimensional arrays become columns, and the
/// arrays are then joined along their second axis.
pub fn column_stack<T: Copy>(arrays: &Vec<NdArray<T>>) -> (r: Result<NdArray<T>, ArrayError>)
    requires
        forall|k: int| 0 <= k < arrays@.len() ==> (#[trigger] arrays@[k]).wf(),
        forall|cols: Seq<NdArray<T>>| cols.len() == arrays@.len()
            && (forall|k: int| 0 <= k < cols.len() ==> as_column(arrays@[k], #[trigger] cols[k]))
            ==> concat_ready(cols, 1),
    ensures
        arrays@.len() == 0 ==> r == Err::<NdArray<T>, ArrayError>(ArrayError::EmptyInput),
        arrays@.len() > 0 ==> exists|cols: Seq<NdArray<T>>| {
            &&& cols.len() == arrays@.len()
            &&& forall|k: int| 0 <= k < cols.len() ==> as_column(arrays@[k], #[trigger] cols[k])
            &&& concat_spec(cols, 1, r)
        },
{
    let n = arrays.len();
    if n == 0 {
        return Err(ArrayError::EmptyInput);
    }
    let mut cols: Vec<NdArray<T>> = Vec::new();
    let mut k: usize = 0;
    while k < n
        invariant
            0 <= k <= n,
            n == arrays@.len(),
            cols@.len() == k,
            forall|k2: int| 0 <= k2 < k ==> as_column(arrays@[k2], #[trigger] cols@[k2]),
        decreases n - k,
    {
        let a = &arrays[k];
        let mut sh: Vec<usize> = Vec::new();
        if a.shape.len() == 1 {
            sh.push(a.shape[0]);
            sh.push(1);
            assert(sh@ =~= seq![a.shape@[0], 1usize]);
        } else {
            sh = crate::layout::copy_vec(&a.shape);
        }
        cols.push(NdArray { data: crate::layout::copy_vec(&a.data), shape: sh });
        k = k + 1;
    }
    let r = concatenate(&cols, 1);
    assert(concat_spec(cols@, 1, r));
    r
}

} // verus!

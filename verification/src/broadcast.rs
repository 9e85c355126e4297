use vstd::prelude::*;
use crate::advanced::{block_covers, reduced_coords};
use crate::array::{ArrayError, NdArray};
use crate::permute::{ints, ravel_exec};
use crate::shape::{checked_size, dims_fit, lemma_prod_zero, prod, shape_size};
use crate::shapes::padded_dim;
use crate::strides::{compute_strides, flat_to_multi, in_bounds, lemma_ravel_bound, lemma_ravel_unravel, lemma_unravel_ravel, ravel, unravel};

verus! {

/// Two aligned dimensions combine: equal, or one of them is one and the other is not zero.
pub open spec fn dims_combine(x: usize, y: usize) -> bool {
    x == y || (x == 1 && y >= 1) || (y == 1 && x >= 1)
}

/// Number of dimensions of the longer shape.
pub open spec fn max_len(a: Seq<usize>, b: Seq<usize>) -> int {
    if a.len() >= b.len() { a.len() as int } else { b.len() as int }
}

/// The shapes of two operands combine elementwise: equal shapes, a zero-dimensional operand,
/// or shapes that combine dimension by dimension, aligned at the end.
pub open spec fn operands_combine(a: Seq<usize>, b: Seq<usize>) -> bool {
    a == b || a.len() == 0 || b.len() == 0 || forall|i: int| 0 <= i < max_len(a, b) ==>
        #[trigger] dims_combine(padded_dim(a, max_len(a, b), i), padded_dim(b, max_len(a, b), i))
}

/// Shape of the elementwise result of two combining operands.
pub open spec fn result_shape(a: Seq<usize>, b: Seq<usize>) -> Seq<usize> {
    if a == b {
        a
    } else if a.len() == 0 {
        b
    } else if b.len() == 0 {
        a
    } else {
        Seq::new(max_len(a, b) as nat, |i: int| {
            let x = padded_dim(a, max_len(a, b), i);
            let y = padded_dim(b, max_len(a, b), i);
            if x >= y { x } else { y }
        })
    }
}

/// Element of an operand seen at result position `m`: its own coordinates aligned at the end,
/// zero along its dimensions of size one.
pub open spec fn operand_at<T>(a: NdArray<T>, m: Seq<int>) -> T {
    a.data@[ravel(reduced_coords(m, a.shape@), a.shape@)]
}

/// The result shape covers each operand's shape.
proof fn lemma_result_covers(a: Seq<usize>, b: Seq<usize>)
    requires
        operands_combine(a, b),
    ensures
        block_covers(result_shape(a, b), a),
        block_covers(result_shape(a, b), b),
{
    let r = result_shape(a, b);
    if a == b {
    } else if a.len() == 0 {
    } else if b.len() == 0 {
    } else {
        let n = max_len(a, b);
        assert forall|dd: int| 0 <= dd < a.len() implies (#[trigger] a[dd] == 1 || r[r.len() - a.len() + dd] == a[dd]) by {
            let i = n - a.len() + dd;
            assert(padded_dim(a, n, i) == a[dd]);
            assert(dims_combine(padded_dim(a, n, i), padded_dim(b, n, i)));
        }
        assert forall|dd: int| 0 <= dd < b.len() implies (#[trigger] b[dd] == 1 || r[r.len() - b.len() + dd] == b[dd]) by {
            let i = n - b.len() + dd;
            assert(padded_dim(b, n, i) == b[dd]);
            assert(dims_combine(padded_dim(a, n, i), padded_dim(b, n, i)));
        }
    }
}

/// Whether two aligned dimensions combine.
fn dims_combine_exec(x: usize, y: usize) -> (r: bool)
    ensures
        r == dims_combine(x, y),
{
    x == y || (x == 1 && y >= 1) || (y == 1 && x >= 1)
}

/// The elementwise result shape of two operands, or `None` when they do not combine.
fn result_shape_exec(a: &Vec<usize>, b: &Vec<usize>) -> (r: Option<Vec<usize>>)
    ensures
        r is Some <==> operands_combine(a@, b@),
        r matches Some(v) ==> v@ == result_shape(a@, b@),
{
    if crate::joining::vec_eq_usize(a, b) {
        return Some(crate::layout::copy_vec(a));
    }
    if a.len() == 0 {
        return Some(crate::layout::copy_vec(b));
    }
    if b.len() == 0 {
        return Some(crate::layout::copy_vec(a));
    }
    let n = if a.len() >= b.len() { a.len() } else { b.len() };
    let mut out: Vec<usize> = Vec::new();
    let mut i: usize = 0;
    while i < n
        invariant
            0 <= i <= n,
            n as int == max_len(a@, b@),
            a@ != b@,
            a@.len() > 0,
            b@.len() > 0,
            out@ =~= result_shape(a@, b@).take(i as int),
            forall|i2: int| 0 <= i2 < i ==> #[trigger] dims_combine(padded_dim(a@, n as int, i2), padded_dim(b@, n as int, i2)),
        decreases n - i,
    {
        let x: usize = if i < n - a.len() { 1 } else { a[i - (n - a.len())] };
        let y: usize = if i < n - b.len() { 1 } else { b[i - (n - b.len())] };
        assert(x == padded_dim(a@, n as int, i as int));
        assert(y == padded_dim(b@, n as int, i as int));
        if !dims_combine_exec(x, y) {
            return None;
        }
        out.push(if x >= y { x } else { y });
        i = i + 1;
    }
    assert(out@ =~= result_shape(a@, b@));
    Some(out)
}

/// Index of the operand element seen at result coordinates `oc`.
pub(crate) fn operand_index<T>(a: &NdArray<T>, strides: &Vec<usize>, oc: &Vec<usize>, Ghost(out_shape): Ghost<Seq<usize>>) -> (r: usize)
    requires
        a.wf(),
        dims_fit(a.shape@),
        strides@.len() == a.shape@.len(),
        forall|d: int| 0 <= d < a.shape@.len() ==> #[trigger] strides@[d] == crate::strides::stride(a.shape@, d),
        in_bounds(ints(oc@), out_shape),
        block_covers(out_shape, a.shape@),
    ensures
        r as int == ravel(reduced_coords(ints(oc@), a.shape@), a.shape@),
        r < a.data@.len(),
{
    let sl = a.shape.len();
    let ol = oc.len();
    let mut rc: Vec<usize> = Vec::new();
    let mut dd: usize = 0;
    while dd < sl
        invariant
            0 <= dd <= sl,
            sl == a.shape@.len(),
            ol == oc@.len(),
            ol == out_shape.len(),
            block_covers(out_shape, a.shape@),
            in_bounds(ints(oc@), out_shape),
            rc@.len() == dd,
            forall|e: int| 0 <= e < dd ==> #[trigger] rc@[e] as int == reduced_coords(ints(oc@), a.shape@)[e],
            forall|e: int| 0 <= e < dd ==> #[trigger] rc@[e] < a.shape@[e],
        decreases sl - dd,
    {
        if a.shape[dd] == 1 {
            rc.push(0);
        } else {
            let q = ol - sl + dd;
            proof {
                assert(a.shape@[dd as int] == 1 || out_shape[out_shape.len() - sl + dd] == a.shape@[dd as int]);
                assert(ints(oc@)[q as int] == oc@[q as int] as int);
            }
            rc.push(oc[q]);
        }
        dd = dd + 1;
    }
    proof {
        assert(ints(rc@) =~= reduced_coords(ints(oc@), a.shape@));
    }
    let r = ravel_exec(&rc, &a.shape, strides);
    proof {
        lemma_ravel_bound(ints(rc@), a.shape@);
        if a.shape@.len() == 0 {
            assert(prod(a.shape@) == 1);
        }
    }
    r
}

/// Applies `op` elementwise to two operands broadcast together: result element `m` is `op` of
/// the elements each operand holds at `m` (`operand_at`). Operands whose shapes do not combine
/// are refused.
pub fn broadcast_map<A: Copy, B: Copy, C, F: Fn(A, B) -> C>(a: &NdArray<A>, b: &NdArray<B>, op: F)
    -> (r: Result<NdArray<C>, ArrayError>)
    requires
        a.wf(),
        b.wf(),
        dims_fit(a.shape@),
        dims_fit(b.shape@),
        operands_combine(a.shape@, b.shape@) ==> dims_fit(result_shape(a.shape@, b.shape@)),
        operands_combine(a.shape@, b.shape@) ==> forall|m: Seq<int>| in_bounds(m, result_shape(a.shape@, b.shape@))
            ==> #[trigger] op.requires((operand_at(*a, m), operand_at(*b, m))),
    ensures
        r is Ok <==> operands_combine(a.shape@, b.shape@),
        r is Err ==> r == Err::<NdArray<C>, ArrayError>(ArrayError::ShapeMismatch),
        r matches Ok(out) ==> {
            &&& out.wf()
            &&& out.shape@ == result_shape(a.shape@, b.shape@)
            &&& forall|m: Seq<int>| in_bounds(m, out.shape@) ==>
                op.ensures((operand_at(*a, m), operand_at(*b, m)), #[trigger] out.data@[ravel(m, out.shape@)])
        },
{
    let out_shape = match result_shape_exec(&a.shape, &b.shape) {
        None => {
            return Err(ArrayError::ShapeMismatch);
        },
        Some(s) => s,
    };
    let ghost os = out_shape@;
    proof {
        lemma_result_covers(a.shape@, b.shape@);
    }
    let total = shape_size(&out_shape);
    let sa = compute_strides(&a.shape);
    let sb = compute_strides(&b.shape);
    let mut data: Vec<C> = Vec::new();
    let mut lin: usize = 0;
    while lin < total
        invariant
            0 <= lin <= total,
            total == prod(os),
            os == out_shape@,
            a.wf(),
            b.wf(),
            dims_fit(a.shape@),
            dims_fit(b.shape@),
            block_covers(os, a.shape@),
            block_covers(os, b.shape@),
            sa@.len() == a.shape@.len(),
            forall|d: int| 0 <= d < a.shape@.len() ==> #[trigger] sa@[d] == crate::strides::stride(a.shape@, d),
            sb@.len() == b.shape@.len(),
            forall|d: int| 0 <= d < b.shape@.len() ==> #[trigger] sb@[d] == crate::strides::stride(b.shape@, d),
            forall|m: Seq<int>| in_bounds(m, os) ==> #[trigger] op.requires((operand_at(*a, m), operand_at(*b, m))),
            data@.len() == lin,
            forall|l: int| 0 <= l < lin ==>
                op.ensures((operand_at(*a, unravel(l, os)), operand_at(*b, unravel(l, os))), #[trigger] data@[l]),
        decreases total - lin,
    {
        proof {
            assert forall|j: int| 0 <= j < os.len() implies #[trigger] os[j] > 0 by {
                if os[j] == 0 {
                    lemma_prod_zero(os, j);
                }
            }
            lemma_ravel_unravel(lin as int, os);
        }
        let oc = flat_to_multi(lin, &out_shape);
        proof {
            assert(ints(oc@) =~= unravel(lin as int, os));
        }
        let ia = operand_index(a, &sa, &oc, Ghost(os));
        let ib = operand_index(b, &sb, &oc, Ghost(os));
        proof {
            assert(op.requires((operand_at(*a, ints(oc@)), operand_at(*b, ints(oc@)))));
        }
        let v = op(a.data[ia], b.data[ib]);
        data.push(v);
        lin = lin + 1;
    }
    proof {
        assert forall|m: Seq<int>| in_bounds(m, os) implies
            op.ensures((operand_at(*a, m), operand_at(*b, m)), #[trigger] data@[ravel(m, os)]) by {
            lemma_ravel_bound(m, os);
            if os.len() == 0 {
                assert(prod(os) == 1);
            }
            lemma_unravel_ravel(m, os);
        }
    }
    Ok(NdArray { data, shape: out_shape })
}

/// Product of the dimensions of `s` that are not zero.
pub open spec fn nonzero_prod(s: Seq<usize>) -> nat
    decreases s.len(),
{
    if s.len() == 0 { 1 } else { nonzero_prod(s.drop_last()) * (if s.last() == 0 { 1nat } else { s.last() as nat }) }
}

/// The product of the non-zero dimensions is at least one, at least that of any prefix, and
/// at least the product of all dimensions.
pub proof fn lemma_nonzero_prod_bounds(s: Seq<usize>, k: int)
    requires
        0 <= k <= s.len(),
    ensures
        nonzero_prod(s.take(k)) <= nonzero_prod(s),
        nonzero_prod(s) >= 1,
        prod(s) <= nonzero_prod(s),
    decreases s.len(),
{
    if s.len() > 0 {
        let dl = s.drop_last();
        let f: nat = if s.last() == 0 { 1nat } else { s.last() as nat };
        if k == s.len() {
            assert(s.take(k) =~= s);
            lemma_nonzero_prod_bounds(dl, 0);
        } else {
            assert(dl.take(k) =~= s.take(k));
            lemma_nonzero_prod_bounds(dl, k);
        }
        let a = nonzero_prod(dl) as int;
        let b = prod(dl) as int;
        let l = s.last() as int;
        assert(a <= a * f) by (nonlinear_arith) requires a >= 1, f >= 1;
        assert(a * f >= 1) by (nonlinear_arith) requires a >= 1, f >= 1;
        assert(b * l <= a * f) by (nonlinear_arith) requires b <= a, 0 <= l, l == 0 || f == l, f >= 1, a >= 1;
    } else {
        assert(s.take(k) =~= s);
    }
}

/// Whether the product of the non-zero dimensions of `s` is at most `isize::MAX`.
fn nonzero_size_fits(s: &Vec<usize>) -> (r: bool)
    ensures
        r == (nonzero_prod(s@) <= isize::MAX),
{
    let mut acc: usize = 1;
    let mut i: usize = 0;
    while i < s.len()
        invariant
            0 <= i <= s@.len(),
            acc == nonzero_prod(s@.take(i as int)),
            acc <= isize::MAX,
        decreases s@.len() - i,
    {
        let d: usize = if s[i] == 0 { 1 } else { s[i] };
        proof {
            assert(s@.take(i + 1).drop_last() =~= s@.take(i as int));
            lemma_nonzero_prod_bounds(s@, i + 1);
        }
        if acc > (isize::MAX as usize) / d {
            proof {
                assert(acc * d > isize::MAX) by (nonlinear_arith)
                    requires acc > (isize::MAX as usize) / d, d >= 1;
            }
            return false;
        }
        proof {
            assert(acc * d <= isize::MAX) by (nonlinear_arith)
                requires acc <= (isize::MAX as usize) / d, d >= 1;
        }
        acc = acc * d;
        i = i + 1;
    }
    proof {
        assert(s@.take(s@.len() as int) =~= s@);
    }
    true
}

/// `a` broadcast to `shape`: the dimensions of `a`, aligned at the end of `shape`, must each
/// equal the target's or be one, and the target's non-zero dimensions must have a product of
/// at most `isize::MAX`; element `m` of the result is the element of `a` seen at `m`.
pub fn broadcast_to<T: Copy>(a: &NdArray<T>, shape: &Vec<usize>) -> (r: Result<NdArray<T>, ArrayError>)
    requires
        a.wf(),
        dims_fit(a.shape@),
    ensures
        r is Ok <==> block_covers(shape@, a.shape@) && nonzero_prod(shape@) <= isize::MAX,
        r is Err ==> r == Err::<NdArray<T>, ArrayError>(ArrayError::ShapeMismatch),
        r matches Ok(out) ==> {
            &&& out.wf()
            &&& out.shape@ == shape@
            &&& forall|m: Seq<int>| in_bounds(m, shape@) ==> #[trigger] out.data@[ravel(m, shape@)] == operand_at(*a, m)
        },
{
    if !crate::assign::covers_exec(shape, &a.shape) || !nonzero_size_fits(shape) {
        return Err(ArrayError::ShapeMismatch);
    }
    let ghost os = shape@;
    proof {
        lemma_nonzero_prod_bounds(os, 0);
    }
    let n = match checked_size(shape) {
        Some(t) => t,
        None => {
            return Err(ArrayError::ShapeMismatch);
        },
    };
    let strides = compute_strides(&a.shape);
    let mut data: Vec<T> = Vec::new();
    let mut i: usize = 0;
    while i < n
        invariant
            0 <= i <= n,
            n == prod(os),
            os == shape@,
            a.wf(),
            dims_fit(a.shape@),
            block_covers(os, a.shape@),
            strides@.len() == a.shape@.len(),
            forall|d: int| 0 <= d < a.shape@.len() ==> #[trigger] strides@[d] == crate::strides::stride(a.shape@, d),
            data@.len() == i,
            forall|l: int| 0 <= l < i ==> #[trigger] data@[l] == operand_at(*a, unravel(l, os)),
        decreases n - i,
    {
        proof {
            assert forall|j: int| 0 <= j < os.len() implies #[trigger] os[j] > 0 by {
                if os[j] == 0 {
                    lemma_prod_zero(os, j);
                }
            }
            lemma_ravel_unravel(i as int, os);
        }
        let oc = flat_to_multi(i, shape);
        proof {
            assert(ints(oc@) =~= unravel(i as int, os));
        }
        let k = operand_index(a, &strides, &oc, Ghost(os));
        data.push(a.data[k]);
        i = i + 1;
    }
    proof {
        assert forall|m: Seq<int>| in_bounds(m, os) implies #[trigger] data@[ravel(m, os)] == operand_at(*a, m) by {
            lemma_ravel_bound(m, os);
            if os.len() == 0 {
                assert(prod(os) == 1);
            }
            lemma_unravel_ravel(m, os);
        }
    }
    Ok(NdArray { data, shape: crate::layout::copy_vec(shape) })
}

/// An array broadcast to its own shape is left as it was: the shape covers itself, and every
/// element is read where it stands.
pub proof fn law_broadcast_to_own_shape<T>(a: NdArray<T>, m: Seq<int>)
    requires
        in_bounds(m, a.shape@),
    ensures
        block_covers(a.shape@, a.shape@),
        operand_at(a, m) == a.data@[ravel(m, a.shape@)],
{
    assert(reduced_coords(m, a.shape@) =~= m);
}

/// A shape of ones holds one element.
proof fn lemma_prod_all_ones(s: Seq<usize>)
    requires
        forall|d: int| 0 <= d < s.len() ==> s[d] == 1,
    ensures
        prod(s) == 1,
    decreases s.len(),
{
    if s.len() > 0 {
        lemma_prod_all_ones(s.drop_last());
    }
}

/// An operand with a single element, whatever its number of dimensions, gives that element
/// at every position of the result it is broadcast to.
pub proof fn law_broadcast_single_element<T>(a: NdArray<T>, m: Seq<int>)
    requires
        forall|d: int| 0 <= d < a.shape@.len() ==> a.shape@[d] == 1,
        m.len() >= a.shape@.len(),
    ensures
        operand_at(a, m) == a.data@[0],
{
    let rc = reduced_coords(m, a.shape@);
    assert(in_bounds(rc, a.shape@));
    lemma_ravel_bound(rc, a.shape@);
    lemma_prod_all_ones(a.shape@);
}

/// A one-dimensional operand of `n > 1` elements, broadcast against a result whose last axis
/// it spans, gives at each position of the result its element at the last coordinate.
pub proof fn law_broadcast_vector_along_last_axis<T>(a: NdArray<T>, m: Seq<int>)
    requires
        a.shape@.len() == 1,
        a.shape@[0] != 1,
        m.len() >= 1,
        0 <= m[m.len() - 1] < a.shape@[0],
    ensures
        operand_at(a, m) == a.data@[m[m.len() - 1]],
{
    let rc = reduced_coords(m, a.shape@);
    assert(rc =~= seq![m[m.len() - 1]]);
    assert(a.shape@.skip(1) =~= Seq::<usize>::empty());
    assert(prod(a.shape@.skip(1)) == 1);
    assert(crate::strides::stride(a.shape@, 0) == 1);
    assert(crate::strides::ravel_from(rc, a.shape@, 1) == 0);
    assert(crate::strides::ravel_from(rc, a.shape@, 0) == rc[0] * 1 + 0);
    assert(ravel(rc, a.shape@) == m[m.len() - 1]);
}

} // verus!

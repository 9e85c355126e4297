use vstd::prelude::*;
use crate::array::{axis_ok, gather_along, norm_axis, normalize_axis, NdArray};
use crate::layout::{copy_vec, gathered, lemma_true_positions_bound, pick, picked, true_positions, true_positions_exec};
use crate::index_math::{flat3, lemma_flat3, lemma_unflat3};
use crate::shape::{dims_fit, post_of, pre_of, prod};

verus! {

/// Positions `0..n` in reverse order.
pub open spec fn reversed_positions(n: int) -> Seq<usize> {
    Seq::new(n as nat, |k: int| (n - 1 - k) as usize)
}

/// Reverses the order of the elements along `axis`, or of all elements when no axis is given.
/// An axis that names no dimension leaves the array unchanged.
pub fn flip<T: Copy>(a: &NdArray<T>, axis: Option<isize>) -> (r: NdArray<T>)
    requires
        a.wf(),
        dims_fit(a.shape@),
    ensures
        r.wf(),
        r.shape@ == a.shape@,
        axis is None ==> r.data@ == a.data@.reverse(),
        axis matches Some(x) ==> {
            let ax = norm_axis(x as int, a.shape@.len() as int);
            if axis_ok(x as int, a.shape@.len() as int) {
                r.data@ == gathered(a.data@, pre_of(a.shape@, ax) as int, a.shape@[ax] as int,
                    post_of(a.shape@, ax) as int, reversed_positions(a.shape@[ax] as int))
            } else {
                r.data@ == a.data@
            }
        },
{
    match axis {
        None => {
            let len = a.data.len();
            let mut out: Vec<T> = Vec::new();
            let mut i: usize = 0;
            while i < len
                invariant
                    len == a.data@.len(),
                    0 <= i <= len,
                    out@.len() == i,
                    forall|j: int| 0 <= j < i ==> #[trigger] out@[j] == a.data@[len - 1 - j],
                decreases len - i,
            {
                out.push(a.data[len - 1 - i]);
                i = i + 1;
            }
            assert(out@ =~= a.data@.reverse());
            NdArray { data: out, shape: copy_vec(&a.shape) }
        },
        Some(x) => {
            match normalize_axis(x, a.shape.len()) {
                None => NdArray { data: copy_vec(&a.data), shape: copy_vec(&a.shape) },
                Some(ax) => {
                    let n = a.shape[ax];
                    let mut sel: Vec<usize> = Vec::new();
                    let mut k: usize = 0;
                    while k < n
                        invariant
                            0 <= k <= n,
                            sel@ =~= reversed_positions(n as int).take(k as int),
                        decreases n - k,
                    {
                        sel.push(n - 1 - k);
                        k = k + 1;
                    }
                    assert(sel@ =~= reversed_positions(n as int));
                    let _len = a.data.len();
                    proof {
                        crate::array::lemma_axis_sizes(a.shape@, ax as int);
                    }
                    let r = gather_along(a, ax, &sel);
                    assert(r.shape@ =~= a.shape@);
                    r
                },
            }
        },
    }
}

/// Keeps the elements (or, along `axis`, the slices) whose position has a true condition;
/// positions beyond the end of `condition` are dropped.
pub fn compress<T: Copy>(condition: &Vec<bool>, a: &NdArray<T>, axis: Option<isize>) -> (r: NdArray<T>)
    requires
        a.wf(),
        dims_fit(a.shape@),
        axis matches Some(x) ==> axis_ok(x as int, a.shape@.len() as int),
        axis matches Some(x) ==> {
            let ax = norm_axis(x as int, a.shape@.len() as int);
            !(pre_of(a.shape@, ax) == 0 && post_of(a.shape@, ax) > 0
                && true_positions(condition@, a.shape@[ax] as int).len() > 0)
        },
    ensures
        r.wf(),
        axis is None ==> r.shape@ == seq![true_positions(condition@, a.data@.len() as int).len() as usize]
            && r.data@ == picked(a.data@, true_positions(condition@, a.data@.len() as int)),
        axis matches Some(x) ==> {
            let ax = norm_axis(x as int, a.shape@.len() as int);
            let sel = true_positions(condition@, a.shape@[ax] as int);
            &&& r.shape@ == a.shape@.update(ax, sel.len() as usize)
            &&& r.data@ == gathered(a.data@, pre_of(a.shape@, ax) as int, a.shape@[ax] as int,
                post_of(a.shape@, ax) as int, sel)
        },
{
    match axis {
        None => {
            let len = a.data.len();
            let sel = true_positions_exec(condition, len);
            proof {
                lemma_true_positions_bound(condition@, len as int);
            }
            let data = pick(&a.data, &sel);
            let mut shape: Vec<usize> = Vec::new();
            shape.push(sel.len());
            proof {
                assert(prod(shape@) == sel@.len()) by {
                    assert(shape@.drop_last().len() == 0);
                    assert(prod(shape@.drop_last()) == 1);
                }
            }
            NdArray { data, shape }
        },
        Some(x) => {
            let ax = normalize_axis(x, a.shape.len()).unwrap();
            let n = a.shape[ax];
            let sel = true_positions_exec(condition, n);
            let _len = a.data.len();
            proof {
                lemma_true_positions_bound(condition@, n as int);
                crate::array::lemma_axis_sizes(a.shape@, ax as int);
                let pre = pre_of(a.shape@, ax as int);
                let post = post_of(a.shape@, ax as int);
                assert(pre * sel@.len() * post <= usize::MAX) by (nonlinear_arith)
                    requires sel@.len() <= n, pre * n * post <= usize::MAX,
                        !(pre == 0 && post > 0 && sel@.len() > 0), pre >= 0, post >= 0;
            }
            gather_along(a, ax, &sel)
        },
    }
}

/// Position named by a deletion index along a dimension of size `len` (`len > 0`):
/// negative values count from the end and every out-of-range value names the last position.
pub open spec fn delete_position(v: int, len: int) -> int {
    if v < 0 {
        if v + len >= 0 { v + len } else { len - 1 }
    } else if v < len {
        v
    } else {
        len - 1
    }
}

/// The positions that the deletion indices name.
pub open spec fn deleted_positions(indices: Seq<isize>, len: int) -> Set<int> {
    Set::new(|p: int| exists|j: int| 0 <= j < indices.len() && delete_position(indices[j] as int, len) == p)
}

/// Keep-marks for the positions `0..len` that no deletion index names.
pub open spec fn kept_marks(indices: Seq<isize>, len: int) -> Seq<bool> {
    Seq::new(len as nat, |p: int| !deleted_positions(indices, len).contains(p))
}

/// Marks which positions `0..len` survive the deletion.
fn keep_marks_exec(indices: &Vec<isize>, len: usize) -> (r: Vec<bool>)
    requires
        len > 0,
    ensures
        r@ == kept_marks(indices@, len as int),
{
    let mut r: Vec<bool> = Vec::new();
    let mut p: usize = 0;
    while p < len
        invariant
            0 <= p <= len,
            len > 0,
            r@.len() == p,
            forall|q: int| 0 <= q < p ==> #[trigger] r@[q] == !deleted_positions(indices@, len as int).contains(q),
        decreases len - p,
    {
        let mut hit = false;
        let mut j: usize = 0;
        while j < indices.len()
            invariant
                0 <= j <= indices@.len(),
                0 <= p < len,
                hit <==> exists|j2: int| 0 <= j2 < j && delete_position(indices@[j2] as int, len as int) == p,
            decreases indices@.len() - j,
        {
            let v = indices[j];
            let q: usize = if v < 0 {
                let neg: usize = ((0 - (v + 1)) as usize) + 1;
                if neg <= len { len - neg } else { len - 1 }
            } else if (v as usize) < len {
                v as usize
            } else {
                len - 1
            };
            assert(q as int == delete_position(v as int, len as int));
            if q == p {
                hit = true;
            }
            j = j + 1;
        }
        r.push(!hit);
        p = p + 1;
    }
    assert(r@ =~= kept_marks(indices@, len as int));
    r
}

/// Removes the positions named by `indices` from the flattened array (no axis) or along `axis`.
pub fn delete_rs<T: Copy>(a: &NdArray<T>, indices: &Vec<isize>, axis: Option<isize>) -> (r: NdArray<T>)
    requires
        a.wf(),
        dims_fit(a.shape@),
        axis matches Some(x) ==> axis_ok(x as int, a.shape@.len() as int),
        axis is None ==> (a.data@.len() > 0 || indices@.len() == 0),
        axis matches Some(x) ==> (a.shape@[norm_axis(x as int, a.shape@.len() as int)] > 0 || indices@.len() == 0),
    ensures
        r.wf(),
        axis is None ==> {
            let sel = true_positions(kept_marks(indices@, a.data@.len() as int), a.data@.len() as int);
            r.shape@ == seq![sel.len() as usize] && r.data@ == picked(a.data@, sel)
        },
        axis matches Some(x) ==> {
            let ax = norm_axis(x as int, a.shape@.len() as int);
            let n = a.shape@[ax] as int;
            let sel = true_positions(kept_marks(indices@, n), n);
            &&& r.shape@ == a.shape@.update(ax, sel.len() as usize)
            &&& r.data@ == gathered(a.data@, pre_of(a.shape@, ax) as int, n, post_of(a.shape@, ax) as int, sel)
        },
{
    let len: usize = match axis {
        None => a.data.len(),
        Some(x) => a.shape[normalize_axis(x, a.shape.len()).unwrap()],
    };
    let marks: Vec<bool> = if len == 0 { Vec::new() } else { keep_marks_exec(indices, len) };
    assert(len == 0 ==> marks@ =~= kept_marks(indices@, len as int));
    let sel = true_positions_exec(&marks, len);
    proof {
        lemma_true_positions_bound(marks@, len as int);
    }
    match axis {
        None => {
            let data = pick(&a.data, &sel);
            let mut shape: Vec<usize> = Vec::new();
            shape.push(sel.len());
            proof {
                assert(shape@.drop_last().len() == 0);
                assert(prod(shape@.drop_last()) == 1);
            }
            NdArray { data, shape }
        },
        Some(x) => {
            let ax = normalize_axis(x, a.shape.len()).unwrap();
            let _len = a.data.len();
            proof {
                crate::array::lemma_axis_sizes(a.shape@, ax as int);
                let pre = pre_of(a.shape@, ax as int);
                let post = post_of(a.shape@, ax as int);
                assert(pre * sel@.len() * post <= pre * len * post) by (nonlinear_arith)
                    requires sel@.len() <= len, pre >= 0, post >= 0;
            }
            gather_along(a, ax, &sel)
        },
    }
}

/// Reversing the same axis twice gives the elements back, and so does reversing all elements
/// twice.
pub proof fn law_flip_twice<T>(data: Seq<T>, pre: int, n: int, post: int)
    requires
        pre >= 0,
        0 <= n <= usize::MAX,
        post >= 0,
        data.len() == pre * n * post,
    ensures
        gathered(gathered(data, pre, n, post, reversed_positions(n)), pre, n, post, reversed_positions(n)) == data,
        data.reverse().reverse() == data,
{
    let rev = reversed_positions(n);
    let g1 = gathered(data, pre, n, post, rev);
    let g2 = gathered(g1, pre, n, post, rev);
    assert(g2.len() == data.len());
    assert forall|j: int| 0 <= j < data.len() implies #[trigger] g2[j] == data[j] by {
        lemma_unflat3(j, pre, n, post);
        let o = j / post / n;
        let k = (j / post) % n;
        let i = j % post;
        let q = flat3(o, rev[k] as int, i, n, post);
        lemma_flat3(o, rev[k] as int, i, pre, n, post);
        lemma_unflat3(q, pre, n, post);
        assert(q / post / n == o);
        assert((q / post) % n == rev[k] as int);
        assert(q % post == i);
        assert(rev[k] as int == n - 1 - k);
        assert(rev[rev[k] as int] as int == k);
    }
    assert(g2 =~= data);
    assert(data.reverse().reverse() =~= data);
}

} // verus!

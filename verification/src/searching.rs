use vstd::prelude::*;
use crate::array::{ArrayError, NdArray};
use crate::layout::{lemma_true_positions_bound, picked, pick, true_positions, true_positions_exec};
use crate::shape::{lemma_prod_zero, prod};
use crate::strides::{flat_to_multi, unravel_coord};

verus! {

/// Positions of the set elements of a mask, in C order.
pub open spec fn set_positions(mask: NdArray<bool>) -> Seq<usize> {
    true_positions(mask.data@, mask.data@.len() as int)
}

/// Number of set elements of a mask.
pub fn count_nonzero(mask: &NdArray<bool>) -> (r: usize)
    ensures
        r == set_positions(*mask).len(),
{
    let tp = true_positions_exec(&mask.data, mask.data.len());
    tp.len()
}

/// Flat positions of the set elements of a mask, as a one-dimensional array.
pub fn flatnonzero(mask: &NdArray<bool>) -> (r: NdArray<usize>)
    ensures
        r.data@ == set_positions(*mask),
        r.shape@ == seq![set_positions(*mask).len() as usize],
        r.wf(),
{
    let tp = true_positions_exec(&mask.data, mask.data.len());
    let mut shape: Vec<usize> = Vec::new();
    shape.push(tp.len());
    proof {
        crate::shape::lemma_prod_single(shape@);
        assert(shape@ =~= seq![tp@.len() as usize]);
    }
    NdArray { data: tp, shape }
}

/// Coordinates of every set position along each axis, in C order of the positions.
fn set_coords(mask: &NdArray<bool>, tp: &Vec<usize>) -> (r: Vec<Vec<usize>>)
    requires
        mask.wf(),
        mask.shape@.len() > 0,
        tp@ == set_positions(*mask),
    ensures
        r@.len() == mask.shape@.len(),
        forall|d: int| 0 <= d < mask.shape@.len() ==> (#[trigger] r@[d])@.len() == tp@.len(),
        forall|d: int, j: int| 0 <= d < mask.shape@.len() && 0 <= j < tp@.len() ==>
            #[trigger] r@[d]@[j] as int == unravel_coord(tp@[j] as int, mask.shape@, d),
{
    let nd = mask.shape.len();
    proof {
        lemma_true_positions_bound(mask.data@, mask.data@.len() as int);
    }
    let mut rows: Vec<Vec<usize>> = Vec::new();
    let mut j: usize = 0;
    while j < tp.len()
        invariant
            0 <= j <= tp@.len(),
            nd == mask.shape@.len(),
            mask.wf(),
            tp@ == set_positions(*mask),
            forall|k: int| 0 <= k < tp@.len() ==> #[trigger] tp@[k] < mask.data@.len(),
            rows@.len() == j,
            forall|j2: int| 0 <= j2 < j ==> (#[trigger] rows@[j2])@.len() == nd,
            forall|j2: int, d: int| 0 <= j2 < j && 0 <= d < nd ==>
                #[trigger] rows@[j2]@[d] as int == unravel_coord(tp@[j2] as int, mask.shape@, d),
        decreases tp@.len() - j,
    {
        proof {
            assert(tp@[j as int] < prod(mask.shape@));
            assert forall|e: int| 0 <= e < mask.shape@.len() implies #[trigger] mask.shape@[e] > 0 by {
                if mask.shape@[e] == 0 {
                    lemma_prod_zero(mask.shape@, e);
                }
            }
        }
        rows.push(flat_to_multi(tp[j], &mask.shape));
        j = j + 1;
    }
    let mut r: Vec<Vec<usize>> = Vec::new();
    let mut d: usize = 0;
    while d < nd
        invariant
            0 <= d <= nd,
            nd == mask.shape@.len(),
            rows@.len() == tp@.len(),
            forall|j2: int| 0 <= j2 < tp@.len() ==> (#[trigger] rows@[j2])@.len() == nd,
            forall|j2: int, d2: int| 0 <= j2 < tp@.len() && 0 <= d2 < nd ==>
                #[trigger] rows@[j2]@[d2] as int == unravel_coord(tp@[j2] as int, mask.shape@, d2),
            r@.len() == d,
            forall|d2: int| 0 <= d2 < d ==> (#[trigger] r@[d2])@.len() == tp@.len(),
            forall|d2: int, j2: int| 0 <= d2 < d && 0 <= j2 < tp@.len() ==>
                #[trigger] r@[d2]@[j2] as int == unravel_coord(tp@[j2] as int, mask.shape@, d2),
        decreases nd - d,
    {
        let mut col: Vec<usize> = Vec::new();
        let mut j: usize = 0;
        while j < rows.len()
            invariant
                0 <= j <= rows@.len(),
                d < nd,
                rows@.len() == tp@.len(),
                forall|j2: int| 0 <= j2 < tp@.len() ==> (#[trigger] rows@[j2])@.len() == nd,
                forall|j2: int, d2: int| 0 <= j2 < tp@.len() && 0 <= d2 < nd ==>
                    #[trigger] rows@[j2]@[d2] as int == unravel_coord(tp@[j2] as int, mask.shape@, d2),
                col@.len() == j,
                forall|j2: int| 0 <= j2 < j ==> #[trigger] col@[j2] as int == unravel_coord(tp@[j2] as int, mask.shape@, d as int),
            decreases rows@.len() - j,
        {
            col.push(rows[j][d]);
            j = j + 1;
        }
        r.push(col);
        d = d + 1;
    }
    r
}

/// Coordinates of the set elements, one list per axis: entry `j` of list `d` is coordinate `d`
/// of the `j`-th set position in C order. A zero-dimensional mask gives one list, holding a
/// zero when its element is set.
pub fn nonzero(mask: &NdArray<bool>) -> (r: Vec<Vec<usize>>)
    requires
        mask.wf(),
    ensures
        mask.shape@.len() == 0 ==> r@.len() == 1 && r@[0]@ == (if mask.data@[0] { seq![0usize] } else { Seq::<usize>::empty() }),
        mask.shape@.len() > 0 ==> {
            let tp = set_positions(*mask);
            &&& r@.len() == mask.shape@.len()
            &&& forall|d: int| 0 <= d < mask.shape@.len() ==> (#[trigger] r@[d])@.len() == tp.len()
            &&& forall|d: int, j: int| 0 <= d < mask.shape@.len() && 0 <= j < tp.len() ==>
                #[trigger] r@[d]@[j] as int == unravel_coord(tp[j] as int, mask.shape@, d)
        },
{
    if mask.shape.len() == 0 {
        let mut one: Vec<usize> = Vec::new();
        if mask.data[0] {
            one.push(0);
        }
        let mut r: Vec<Vec<usize>> = Vec::new();
        r.push(one);
        proof {
            assert(r@[0]@ =~= (if mask.data@[0] { seq![0usize] } else { Seq::<usize>::empty() }));
        }
        return r;
    }
    let tp = true_positions_exec(&mask.data, mask.data.len());
    set_coords(mask, &tp)
}

/// Coordinates of the set elements as a matrix with one row per set element and one column per
/// axis. A zero-dimensional mask gives a one by zero matrix when its element is set, a zero by
/// zero matrix otherwise.
pub fn argwhere(mask: &NdArray<bool>) -> (r: NdArray<usize>)
    requires
        mask.wf(),
        set_positions(*mask).len() * mask.shape@.len() <= usize::MAX,
    ensures
        r.wf(),
        mask.shape@.len() == 0 ==> r.shape@ == seq![(if mask.data@[0] { 1usize } else { 0usize }), 0usize],
        mask.shape@.len() > 0 ==> {
            let tp = set_positions(*mask);
            let nd = mask.shape@.len() as int;
            &&& r.shape@ == seq![tp.len() as usize, nd as usize]
            &&& forall|j: int, d: int| 0 <= j < tp.len() && 0 <= d < nd ==>
                #[trigger] r.data@[j * nd + d] as int == unravel_coord(tp[j] as int, mask.shape@, d)
        },
{
    let nd = mask.shape.len();
    if nd == 0 {
        let rows: usize = if mask.data[0] { 1 } else { 0 };
        let mut shape: Vec<usize> = Vec::new();
        shape.push(rows);
        shape.push(0);
        proof {
            crate::shapes::lemma_prod_small(shape@);
            assert(shape@ =~= seq![(if mask.data@[0] { 1usize } else { 0usize }), 0usize]);
            assert((rows as nat) * 0 == 0) by (nonlinear_arith);
        }
        return NdArray { data: Vec::new(), shape };
    }
    let tp = true_positions_exec(&mask.data, mask.data.len());
    let cols = set_coords(mask, &tp);
    let cnt = tp.len();
    let mut data: Vec<usize> = Vec::new();
    let mut j: usize = 0;
    while j < cnt
        invariant
            0 <= j <= cnt,
            cnt == tp@.len(),
            nd == mask.shape@.len(),
            cnt * nd <= usize::MAX,
            cols@.len() == nd,
            forall|d: int| 0 <= d < nd ==> (#[trigger] cols@[d])@.len() == cnt,
            forall|d: int, j2: int| 0 <= d < nd && 0 <= j2 < cnt ==>
                #[trigger] cols@[d]@[j2] as int == unravel_coord(tp@[j2] as int, mask.shape@, d),
            data@.len() == j * nd,
            forall|j2: int, d: int| 0 <= j2 < j && 0 <= d < nd ==>
                #[trigger] data@[j2 * nd + d] as int == unravel_coord(tp@[j2] as int, mask.shape@, d),
        decreases cnt - j,
    {
        let mut d: usize = 0;
        while d < nd
            invariant
                0 <= d <= nd,
                j < cnt,
                cnt == tp@.len(),
                nd == mask.shape@.len(),
                cnt * nd <= usize::MAX,
                cols@.len() == nd,
                forall|d2: int| 0 <= d2 < nd ==> (#[trigger] cols@[d2])@.len() == cnt,
                forall|d2: int, j2: int| 0 <= d2 < nd && 0 <= j2 < cnt ==>
                    #[trigger] cols@[d2]@[j2] as int == unravel_coord(tp@[j2] as int, mask.shape@, d2),
                data@.len() == j * nd + d,
                forall|j2: int, d2: int| 0 <= j2 < j && 0 <= d2 < nd ==>
                    #[trigger] data@[j2 * nd + d2] as int == unravel_coord(tp@[j2] as int, mask.shape@, d2),
                forall|d2: int| 0 <= d2 < d ==> #[trigger] data@[j * nd + d2] as int == unravel_coord(tp@[j as int] as int, mask.shape@, d2),
            decreases nd - d,
        {
            proof {
                assert(j * nd + d < cnt * nd) by (nonlinear_arith) requires j < cnt, d < nd;
            }
            data.push(cols[d][j]);
            proof {
                assert forall|j2: int, d2: int| 0 <= j2 < j && 0 <= d2 < nd implies
                    #[trigger] data@[j2 * nd + d2] as int == unravel_coord(tp@[j2] as int, mask.shape@, d2) by {
                    assert(j2 * nd + d2 < j * nd) by (nonlinear_arith) requires j2 < j, d2 < nd;
                }
            }
            d = d + 1;
        }
        proof {
            assert((j + 1) * nd == j * nd + nd) by (nonlinear_arith);
        }
        j = j + 1;
    }
    let mut shape: Vec<usize> = Vec::new();
    shape.push(cnt);
    shape.push(nd);
    proof {
        crate::shapes::lemma_prod_small(shape@);
        assert(shape@ =~= seq![cnt, nd]);
    }
    NdArray { data, shape }
}

/// Elementwise choice: where the condition is set the element of `x`, elsewhere that of `y`,
/// pairing elements in order as long as all three last; the result takes the condition's shape,
/// so it is refused when the shortest of the three is shorter than the condition.
pub fn where_select<T: Copy>(cond: &NdArray<bool>, x: &Vec<T>, y: &Vec<T>) -> (r: Result<NdArray<T>, ArrayError>)
    requires
        cond.wf(),
    ensures
        r is Ok <==> x@.len() >= cond.data@.len() && y@.len() >= cond.data@.len(),
        r is Err ==> r == Err::<NdArray<T>, ArrayError>(ArrayError::ShapeMismatch),
        r matches Ok(out) ==> {
            &&& out.shape@ == cond.shape@
            &&& out.wf()
            &&& forall|i: int| 0 <= i < cond.data@.len() ==>
                #[trigger] out.data@[i] == if cond.data@[i] { x@[i] } else { y@[i] }
        },
{
    let n = cond.data.len();
    if x.len() < n || y.len() < n {
        return Err(ArrayError::ShapeMismatch);
    }
    let mut out: Vec<T> = Vec::new();
    let mut i: usize = 0;
    while i < n
        invariant
            0 <= i <= n,
            n == cond.data@.len(),
            x@.len() >= n,
            y@.len() >= n,
            out@.len() == i,
            forall|i2: int| 0 <= i2 < i ==> #[trigger] out@[i2] == if cond.data@[i2] { x@[i2] } else { y@[i2] },
        decreases n - i,
    {
        out.push(if cond.data[i] { x[i] } else { y[i] });
        i = i + 1;
    }
    Ok(NdArray { data: out, shape: crate::layout::copy_vec(&cond.shape) })
}

/// Elements of `a` whose condition is set, in order, over the positions both cover.
pub fn extract<T: Copy>(condition: &Vec<bool>, a: &Vec<T>) -> (r: Vec<T>)
    ensures
        r@ == picked(a@, true_positions(condition@, if condition@.len() <= a@.len() { condition@.len() as int } else { a@.len() as int })),
{
    let m = if condition.len() <= a.len() { condition.len() } else { a.len() };
    let tp = true_positions_exec(condition, m);
    proof {
        lemma_true_positions_bound(condition@, m as int);
    }
    pick(a, &tp)
}

/// Choice among several conditions: element `i` takes the value of the last choice whose
/// condition holds at `i` (counting only positions its condition and choice both cover), or
/// `default` when none does; the result has the shape of the first condition.
pub open spec fn select_value<T>(conds: Seq<NdArray<bool>>, choices: Seq<Vec<T>>, default: T, i: int, k: int) -> T
    decreases k,
{
    if k <= 0 {
        default
    } else if i < conds[k - 1].data@.len() && i < choices[k - 1]@.len() && conds[k - 1].data@[i] {
        choices[k - 1]@[i]
    } else {
        select_value(conds, choices, default, i, k - 1)
    }
}

/// Multi-way choice: see `select_value`. No condition, or differing numbers of conditions and
/// choices, are refused.
pub fn select_rs<T: Copy>(conds: &Vec<NdArray<bool>>, choices: &Vec<Vec<T>>, default: T) -> (r: Result<NdArray<T>, ArrayError>)
    requires
        conds@.len() > 0 ==> conds@[0].wf(),
    ensures
        (r == Err::<NdArray<T>, ArrayError>(ArrayError::EmptyInput)) <==> conds@.len() == 0,
        (r == Err::<NdArray<T>, ArrayError>(ArrayError::ShapeMismatch)) <==> conds@.len() > 0 && choices@.len() != conds@.len(),
        r matches Ok(out) ==> {
            &&& out.shape@ == conds@[0].shape@
            &&& out.wf()
            &&& forall|i: int| 0 <= i < out.data@.len() ==>
                #[trigger] out.data@[i] == select_value(conds@, choices@, default, i, conds@.len() as int)
        },
{
    let n = conds.len();
    if n == 0 {
        return Err(ArrayError::EmptyInput);
    }
    if choices.len() != n {
        return Err(ArrayError::ShapeMismatch);
    }
    let total = conds[0].data.len();
    let mut out: Vec<T> = Vec::new();
    let mut i: usize = 0;
    while i < total
        invariant
            0 <= i <= total,
            out@.len() == i,
            forall|i2: int| 0 <= i2 < i ==> #[trigger] out@[i2] == select_value(conds@, choices@, default, i2, 0),
        decreases total - i,
    {
        out.push(default);
        i = i + 1;
    }
    let mut k: usize = 0;
    while k < n
        invariant
            0 <= k <= n,
            n == conds@.len(),
            n == choices@.len(),
            out@.len() == total,
            forall|i2: int| 0 <= i2 < total ==> #[trigger] out@[i2] == select_value(conds@, choices@, default, i2, k as int),
        decreases n - k,
    {
        let c = &conds[k].data;
        let ch = &choices[k];
        let mut m = total;
        if c.len() < m {
            m = c.len();
        }
        if ch.len() < m {
            m = ch.len();
        }
        let mut i: usize = 0;
        while i < total
            invariant
                0 <= i <= total,
                k < n,
                n == conds@.len(),
                n == choices@.len(),
                c@ == conds@[k as int].data@,
                ch@ == choices@[k as int]@,
                m <= total,
                m <= c@.len(),
                m <= ch@.len(),
                m == total || m == c@.len() || m == ch@.len(),
                out@.len() == total,
                forall|i2: int| 0 <= i2 < i ==> #[trigger] out@[i2] == select_value(conds@, choices@, default, i2, k as int + 1),
                forall|i2: int| i <= i2 < total ==> #[trigger] out@[i2] == select_value(conds@, choices@, default, i2, k as int),
            decreases total - i,
        {
            if i < m && c[i] {
                out.set(i, ch[i]);
            }
            i = i + 1;
        }
        k = k + 1;
    }
    Ok(NdArray { data: out, shape: crate::layout::copy_vec(&conds[0].shape) })
}

/// Elements picked by a mask over the leading part of an array: for each set mask position
/// `i`, in order, the `block` elements starting at `i * block` (a block of one pairs mask and
/// data as long as both last).
pub fn masked_select<T: Copy>(data: &Vec<T>, mask: &Vec<bool>, block: usize) -> (r: Vec<T>)
    requires
        block != 1 ==> forall|k: int| 0 <= k < true_positions(mask@, mask@.len() as int).len() ==>
            (#[trigger] true_positions(mask@, mask@.len() as int)[k] + 1) * block <= data@.len(),
    ensures
        block == 1 ==> r@ == picked(data@, true_positions(mask@, if mask@.len() <= data@.len() { mask@.len() as int } else { data@.len() as int })),
        block != 1 ==> {
            let tp = true_positions(mask@, mask@.len() as int);
            &&& r@.len() == tp.len() * block
            &&& forall|j: int, b: int| 0 <= j < tp.len() && 0 <= b < block ==>
                #[trigger] r@[j * block + b] == data@[tp[j] * block + b]
        },
{
    if block == 1 {
        return extract(mask, data);
    }
    let tp = true_positions_exec(mask, mask.len());
    let dl = data.len();
    let mut out: Vec<T> = Vec::new();
    let mut j: usize = 0;
    while j < tp.len()
        invariant
            0 <= j <= tp@.len(),
            dl == data@.len(),
            block != 1,
            tp@ == true_positions(mask@, mask@.len() as int),
            forall|k: int| 0 <= k < tp@.len() ==> (#[trigger] tp@[k] + 1) * block <= data@.len(),
            out@.len() == j * block,
            forall|j2: int, b: int| 0 <= j2 < j && 0 <= b < block ==>
                #[trigger] out@[j2 * block + b] == data@[tp@[j2] * block + b],
        decreases tp@.len() - j,
    {
        let t = tp[j];
        proof {
            assert((t + 1) * block <= data@.len());
            assert(t * block + block == (t + 1) * block) by (nonlinear_arith);
        }
        let base = t * block;
        let mut b: usize = 0;
        while b < block
            invariant
                0 <= b <= block,
                j < tp@.len(),
                t == tp@[j as int],
                base == t * block,
                dl == data@.len(),
                base + block <= data@.len(),
                out@.len() == j * block + b,
                forall|j2: int, b2: int| 0 <= j2 < j && 0 <= b2 < block ==>
                    #[trigger] out@[j2 * block + b2] == data@[tp@[j2] * block + b2],
                forall|b2: int| 0 <= b2 < b ==> #[trigger] out@[j * block + b2] == data@[base + b2],
            decreases block - b,
        {
            out.push(data[base + b]);
            proof {
                assert forall|j2: int, b2: int| 0 <= j2 < j && 0 <= b2 < block implies
                    #[trigger] out@[j2 * block + b2] == data@[tp@[j2] * block + b2] by {
                    assert(j2 * block + b2 < j * block) by (nonlinear_arith) requires j2 < j, b2 < block;
                }
            }
            b = b + 1;
        }
        proof {
            assert((j + 1) * block == j * block + block) by (nonlinear_arith);
        }
        j = j + 1;
    }
    out
}

} // verus!

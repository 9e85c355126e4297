use vstd::prelude::*;
use vstd::relations::{sorted_by, total_ordering};
use vstd::seq_lib::lemma_sorted_unique;
use crate::array::{axis_ok, lemma_axis_sizes, lemma_update_axis, norm_axis, normalize_axis, NdArray};
use crate::index_math::{flat3, lemma_flat3, lemma_unflat3};
use crate::layout::copy_vec;
use crate::shape::{dims_fit, lemma_prod_single, post_of, pre_of};

verus! {

/// Ascending order on insertion indices.
pub open spec fn index_le() -> spec_fn(isize, isize) -> bool {
    |x: isize, y: isize| x <= y
}

/// The indices in ascending order.
pub open spec fn ascending(s: Seq<isize>) -> Seq<isize> {
    s.sort_by(index_le())
}

/// `slice::sort_unstable` of `std` on a vector of indices: afterwards the vector is in
/// ascending order and holds the same elements, each as often as before.
#[verifier::external_body]
fn sort_indices(v: &mut Vec<isize>)
    ensures
        sorted_by(final(v)@, index_le()),
        final(v)@.to_multiset() == old(v)@.to_multiset(),
{
    v.sort_unstable();
}

proof fn lemma_index_le_total()
    ensures
        total_ordering(index_le()),
{
    let r = index_le();
    assert(forall|x: isize| #[trigger] r(x, x));
    assert(forall|x: isize, y: isize| #[trigger] r(x, y) && #[trigger] r(y, x) ==> x == y);
    assert(forall|x: isize, y: isize, z: isize| #[trigger] r(x, y) && #[trigger] r(y, z) ==> r(x, z));
    assert(forall|x: isize, y: isize| #[trigger] r(x, y) || #[trigger] r(y, x));
}

/// A copy of the indices in ascending order.
fn sorted_copy(indices: &Vec<isize>) -> (r: Vec<isize>)
    ensures
        r@ == ascending(indices@),
{
    let mut r = copy_vec(indices);
    sort_indices(&mut r);
    proof {
        lemma_index_le_total();
        indices@.lemma_sort_by_ensures(index_le());
        lemma_sorted_unique(r@, ascending(indices@), index_le());
    }
    r
}

/// Where the values for index `idx` go in a buffer of `len` elements after `offset` values
/// were inserted before: a negative index counts from the end of the grown buffer and is
/// shifted by `offset` as well, and a position outside the buffer means its end.
pub open spec fn flat_insert_position(len: int, idx: int, offset: int) -> int {
    let raw = if idx < 0 { len + idx + offset } else { idx + offset };
    if raw < 0 || raw > len { len } else { raw }
}

/// The buffer after the values were inserted for the first `k` indices of `idxs`, in order.
pub open spec fn flat_inserted<T>(data: Seq<T>, idxs: Seq<isize>, values: Seq<T>, k: int) -> Seq<T>
    decreases k,
{
    if k <= 0 {
        data
    } else {
        let r = flat_inserted(data, idxs, values, k - 1);
        let pos = flat_insert_position(r.len() as int, idxs[k - 1] as int, (k - 1) * values.len());
        r.subrange(0, pos) + values + r.subrange(pos, r.len() as int)
    }
}

/// The flat insertion stays within `isize`: the arithmetic on positions does not overflow.
pub open spec fn flat_insert_fits(len: int, idxs: Seq<isize>, vl: int) -> bool {
    &&& len + 2 * idxs.len() * vl <= isize::MAX
    &&& forall|k: int| 0 <= k < idxs.len() ==> #[trigger] idxs[k] + k * vl <= isize::MAX
}

proof fn lemma_flat_inserted_len<T>(data: Seq<T>, idxs: Seq<isize>, values: Seq<T>, k: int)
    requires
        0 <= k <= idxs.len(),
    ensures
        flat_inserted(data, idxs, values, k).len() == data.len() + k * values.len(),
    decreases k,
{
    if k > 0 {
        lemma_flat_inserted_len(data, idxs, values, k - 1);
        let r = flat_inserted(data, idxs, values, k - 1);
        let pos = flat_insert_position(r.len() as int, idxs[k - 1] as int, (k - 1) * values.len());
        assert(0 <= pos <= r.len());
        assert((k - 1) * values.len() + values.len() == k * values.len()) by (nonlinear_arith);
    } else {
        assert(0 * values.len() == 0);
    }
}

fn insert_flat<T: Copy>(data: &Vec<T>, idxs: &Vec<isize>, values: &Vec<T>) -> (r: Vec<T>)
    requires
        flat_insert_fits(data@.len() as int, idxs@, values@.len() as int),
    ensures
        r@ == flat_inserted(data@, idxs@, values@, idxs@.len() as int),
{
    let mut result = copy_vec(data);
    let vl = values.len();
    let n = idxs.len();
    let mut offset: isize = 0;
    let mut k: usize = 0;
    while k < n
        invariant
            0 <= k <= n,
            n == idxs@.len(),
            vl == values@.len(),
            flat_insert_fits(data@.len() as int, idxs@, vl as int),
            result@ == flat_inserted(data@, idxs@, values@, k as int),
            result@.len() == data@.len() + k * vl,
            offset == k * vl,
        decreases n - k,
    {
        proof {
            assert(k * vl <= n * vl) by (nonlinear_arith) requires k <= n, vl >= 0;
            assert(k * vl + vl <= n * vl) by (nonlinear_arith) requires k < n, vl >= 0;
            assert(idxs@[k as int] + k * vl <= isize::MAX);
            assert(2 * n * vl == n * vl + n * vl) by (nonlinear_arith);
            assert(vl <= n * vl) by (nonlinear_arith) requires k < n, vl >= 0;
            assert(data@.len() + k * vl + k * vl <= isize::MAX);
        }
        let idx = idxs[k];
        let len = result.len();
        let raw: isize = if idx < 0 {
            len as isize + idx + offset
        } else {
            idx + offset
        };
        let pos: usize = if raw < 0 || raw as usize > len {
            len
        } else {
            raw as usize
        };
        assert(pos as int == flat_insert_position(len as int, idx as int, k * vl));
        let ghost r0 = result@;
        let mut j = vl;
        while j > 0
            invariant
                0 <= j <= vl,
                vl == values@.len(),
                pos <= r0.len(),
                result@ == r0.subrange(0, pos as int) + values@.subrange(j as int, vl as int) + r0.subrange(pos as int, r0.len() as int),
            decreases j,
        {
            j = j - 1;
            let ghost before = result@;
            result.insert(pos, values[j]);
            proof {
                assert(result@ =~= r0.subrange(0, pos as int) + values@.subrange(j as int, vl as int) + r0.subrange(pos as int, r0.len() as int));
            }
        }
        proof {
            assert(values@.subrange(0, vl as int) =~= values@);
            assert(k * vl + vl == (k + 1) * vl) by (nonlinear_arith);
        }
        offset = offset + vl as isize;
        k = k + 1;
    }
    result
}

/// Position along an axis of `len` entries at which an insertion index puts its values:
/// negative values count from the end, and positions outside `0..=len` mean `len`.
pub open spec fn insert_position(v: int, len: int) -> int {
    if v < 0 {
        if v + len >= 0 { v + len } else { len }
    } else if v > len {
        len
    } else {
        v
    }
}

/// Along an axis of `len` entries, an insertion index `v` with `-len <= v <= len` inserts
/// before position `v` when it is not negative and before position `v + len`, counted from
/// the end, when it is; an index past either end inserts after the last entry.
pub proof fn law_insert_index_counts_from_end(v: int, len: int)
    requires
        len >= 0,
    ensures
        0 <= insert_position(v, len) <= len,
        0 <= v <= len ==> insert_position(v, len) == v,
        -len <= v < 0 ==> insert_position(v, len) == v + len,
        (v > len || v < -len) ==> insert_position(v, len) == len,
{
}

/// An index names the same place along an axis as it does in a flat buffer of the same
/// length into which nothing was inserted yet.
pub proof fn law_insert_position_as_flat(v: int, len: int)
    requires
        len >= 0,
    ensures
        insert_position(v, len) == flat_insert_position(len, v, 0),
{
}

/// For each position `0..=len`, whether some index names it.
pub open spec fn insert_marks(indices: Seq<isize>, len: int) -> Seq<bool> {
    Seq::new((len + 1) as nat, |p: int| exists|j: int| 0 <= j < indices.len() && insert_position(indices[j] as int, len) == p)
}

/// How many of the positions below `d` are marked.
pub open spec fn marked_below(marks: Seq<bool>, d: int) -> nat
    decreases d,
{
    if d <= 0 {
        0
    } else {
        marked_below(marks, d - 1) + if d - 1 < marks.len() && marks[d - 1] { 1nat } else { 0nat }
    }
}

/// Where entry `d` of the grown axis comes from: -1 for an inserted entry, else the entry of
/// the source axis (the unmarked entries keep their order).
pub open spec fn insert_source(marks: Seq<bool>, d: int) -> int {
    if 0 <= d < marks.len() && marks[d] { -1 } else { d - marked_below(marks, d) }
}

proof fn lemma_marked_below_steps(marks: Seq<bool>, e: int, e2: int)
    requires
        0 <= e <= e2,
    ensures
        marked_below(marks, e) <= marked_below(marks, e2),
        e - marked_below(marks, e) <= e2 - marked_below(marks, e2),
        marked_below(marks, e2) <= e2,
    decreases e2,
{
    if e2 > 0 {
        if e < e2 {
            lemma_marked_below_steps(marks, e, e2 - 1);
        } else {
            lemma_marked_below_steps(marks, e2 - 1, e2 - 1);
        }
    }
}

proof fn lemma_marked_below_beyond(marks: Seq<bool>, e: int)
    requires
        e >= marks.len(),
    ensures
        marked_below(marks, e) == marked_below(marks, marks.len() as int),
    decreases e,
{
    if e > marks.len() {
        lemma_marked_below_beyond(marks, e - 1);
    }
}

/// An unmarked entry of the grown axis comes from an entry of the source axis.
proof fn lemma_source_in_range(marks: Seq<bool>, n: int, d: int)
    requires
        marks.len() == n + 1,
        0 <= d < n + marked_below(marks, n + 1),
        !(d < marks.len() && marks[d]),
    ensures
        0 <= d - marked_below(marks, d) < n,
{
    let new = n + marked_below(marks, n + 1);
    lemma_marked_below_steps(marks, d, d);
    lemma_marked_below_steps(marks, d + 1, new);
    if new >= n + 1 {
        lemma_marked_below_beyond(marks, new);
    } else {
        lemma_marked_below_steps(marks, n, n + 1);
    }
    assert(marked_below(marks, d + 1) == marked_below(marks, d));
}

fn insert_marks_exec(indices: &Vec<isize>, len: usize) -> (r: Vec<bool>)
    requires
        len < usize::MAX,
    ensures
        r@ == insert_marks(indices@, len as int),
{
    let mut r: Vec<bool> = Vec::new();
    let mut p: usize = 0;
    while p <= len
        invariant
            0 <= p <= len + 1,
            len < usize::MAX,
            r@.len() == p,
            forall|q: int| 0 <= q < p ==> !#[trigger] r@[q],
        decreases len + 1 - p,
    {
        r.push(false);
        p = p + 1;
    }
    let mut j: usize = 0;
    while j < indices.len()
        invariant
            0 <= j <= indices@.len(),
            r@.len() == len + 1,
            forall|q: int| 0 <= q <= len ==> #[trigger] r@[q] == exists|j2: int| 0 <= j2 < j && insert_position(indices@[j2] as int, len as int) == q,
        decreases indices@.len() - j,
    {
        let v = indices[j];
        let q: usize = if v < 0 {
            let neg: usize = ((0 - (v + 1)) as usize) + 1;
            if neg <= len { len - neg } else { len }
        } else if (v as usize) > len {
            len
        } else {
            v as usize
        };
        assert(q as int == insert_position(v as int, len as int));
        r.set(q, true);
        proof {
            assert forall|q2: int| 0 <= q2 <= len implies #[trigger] r@[q2] == exists|j2: int| 0 <= j2 < j + 1 && insert_position(indices@[j2] as int, len as int) == q2 by {
                if q2 == q {
                    assert(insert_position(indices@[j as int] as int, len as int) == q2);
                }
            }
        }
        j = j + 1;
    }
    assert(r@ =~= insert_marks(indices@, len as int));
    r
}

/// For each entry of the grown axis, the source entry it comes from, or `n` for an inserted one.
fn insert_sources_exec(marks: &Vec<bool>, n: usize, new: usize) -> (sel: Vec<usize>)
    requires
        marks@.len() == n + 1,
        new == n + marked_below(marks@, n + 1),
    ensures
        sel@.len() == new,
        forall|d: int| 0 <= d < new ==> #[trigger] sel@[d] == if insert_source(marks@, d) < 0 { n as int } else { insert_source(marks@, d) },
        forall|d: int| 0 <= d < new ==> #[trigger] sel@[d] <= n,
{
    let mut sel: Vec<usize> = Vec::new();
    let mut rank: usize = 0;
    let mut d: usize = 0;
    while d < new
        invariant
            0 <= d <= new,
            marks@.len() == n + 1,
            new == n + marked_below(marks@, n + 1),
            sel@.len() == d,
            rank == d - marked_below(marks@, d as int),
            forall|d2: int| 0 <= d2 < d ==> #[trigger] sel@[d2] == if insert_source(marks@, d2) < 0 { n as int } else { insert_source(marks@, d2) },
            forall|d2: int| 0 <= d2 < d ==> #[trigger] sel@[d2] <= n,
        decreases new - d,
    {
        if d <= n && marks[d] {
            sel.push(n);
        } else {
            proof {
                lemma_source_in_range(marks@, n as int, d as int);
            }
            sel.push(rank);
            rank = rank + 1;
        }
        d = d + 1;
    }
    sel
}

/// Fills the grown axis of a buffer viewed as `[pre, n, post]`: entry `d` of the middle axis
/// of the result is entry `sel[d]` of the source, or, where `sel[d] == n`, the values repeated
/// cyclically over the elements `o * post + i` of an entry.
fn insert_along<T: Copy>(data: &Vec<T>, pre: usize, n: usize, post: usize, sel: &Vec<usize>, values: &Vec<T>) -> (out: Vec<T>)
    requires
        data@.len() == pre * n * post,
        forall|d: int| 0 <= d < sel@.len() ==> sel@[d] <= n,
        pre * sel@.len() * post <= usize::MAX,
        pre * post > 0 ==> values@.len() > 0,
    ensures
        out@.len() == pre * sel@.len() * post,
        forall|o: int, d: int, i: int|
            0 <= o < pre && 0 <= d < sel@.len() && 0 <= i < post ==> #[trigger] out@[flat3(o, d, i, sel@.len() as int, post as int)]
                == if sel@[d] == n { values@[(o * post + i) % (values@.len() as int)] } else { data@[flat3(o, sel@[d] as int, i, n as int, post as int)] },
{
    let m = sel.len();
    let total: usize = if m == 0 || post == 0 {
        assert(pre * m * post == 0) by (nonlinear_arith) requires m == 0 || post == 0;
        0
    } else {
        assert(pre * m <= pre * m * post) by (nonlinear_arith) requires post >= 1, pre * m >= 0;
        pre * m * post
    };
    let vl = values.len();
    let dlen = data.len();
    let mut out: Vec<T> = Vec::new();
    let mut j: usize = 0;
    while j < total
        invariant
            total == pre * m * post,
            dlen == data@.len(),
            m == sel@.len(),
            vl == values@.len(),
            data@.len() == pre * n * post,
            forall|d: int| 0 <= d < sel@.len() ==> sel@[d] <= n,
            pre * post > 0 ==> vl > 0,
            0 <= j <= total,
            out@.len() == j,
            forall|j2: int| 0 <= j2 < j ==> #[trigger] out@[j2] == {
                let o = j2 / post as int / m as int;
                let d = (j2 / post as int) % m as int;
                let i = j2 % post as int;
                if sel@[d] == n { values@[(o * post + i) % (vl as int)] } else { data@[flat3(o, sel@[d] as int, i, n as int, post as int)] }
            },
        decreases total - j,
    {
        proof {
            lemma_unflat3(j as int, pre as int, m as int, post as int);
        }
        let q = j / post;
        let i = j % post;
        let o = q / m;
        let d = q % m;
        let s = sel[d];
        if s == n {
            proof {
                assert(o * post + i < pre * post) by (nonlinear_arith) requires o < pre, i < post;
                assert(pre * post > 0) by (nonlinear_arith) requires o < pre, i < post;
                assert(pre * post <= pre * m * post) by (nonlinear_arith) requires d < m, pre * post > 0;
            }
            let v = values[(o * post + i) % vl];
            out.push(v);
        } else {
            proof {
                lemma_flat3(o as int, s as int, i as int, pre as int, n as int, post as int);
                assert(o * n + s < pre * n) by (nonlinear_arith) requires o < pre, s < n;
                assert((o * n + s) * post <= (o * n + s) * post + i) by (nonlinear_arith) requires i >= 0, (o * n + s) * post >= 0;
                assert(o * n <= o * n + s);
                assert(pre * n <= pre * n * post) by (nonlinear_arith) requires post >= 1, pre * n >= 0;
            }
            let src = (o * n + s) * post + i;
            out.push(data[src]);
        }
        j = j + 1;
    }
    assert forall|o: int, d: int, i: int|
        0 <= o < pre && 0 <= d < m && 0 <= i < post implies #[trigger] out@[flat3(o, d, i, m as int, post as int)]
            == if sel@[d] == n { values@[(o * post + i) % (values@.len() as int)] } else { data@[flat3(o, sel@[d] as int, i, n as int, post as int)] } by {
        lemma_flat3(o, d, i, pre as int, m as int, post as int);
    }
    out
}

/// The result size and shape checks that the insertion along an axis needs.
pub open spec fn axis_insert_fits(shape: Seq<usize>, ax: int, indices: Seq<isize>, vl: int) -> bool {
    let n = shape[ax] as int;
    let grown = n + marked_below(insert_marks(indices, n), n + 1);
    &&& n < usize::MAX
    &&& grown <= usize::MAX
    &&& pre_of(shape, ax) * grown * post_of(shape, ax) <= usize::MAX
    &&& pre_of(shape, ax) * post_of(shape, ax) > 0 ==> vl > 0
}

/// Inserts `values` before the positions named by `indices`. Without an axis the array is
/// flattened, the indices are taken in ascending order and each inserts all of `values` at
/// `flat_insert_position`. Along an axis, each position `0..=n` named by an index (once,
/// however often it is named) becomes an inserted entry of the grown axis, filled from
/// `values` repeated cyclically over the `pre * post` elements of an entry; the other entries
/// are those of the source, in order.
pub fn insert_rs<T: Copy>(a: &NdArray<T>, indices: &Vec<isize>, values: &Vec<T>, axis: Option<isize>) -> (r: NdArray<T>)
    requires
        a.wf(),
        dims_fit(a.shape@),
        axis is None ==> flat_insert_fits(a.data@.len() as int, ascending(indices@), values@.len() as int),
        axis matches Some(x) ==> axis_ok(x as int, a.shape@.len() as int)
            && axis_insert_fits(a.shape@, norm_axis(x as int, a.shape@.len() as int), indices@, values@.len() as int),
    ensures
        r.wf(),
        axis is None ==> {
            let out = flat_inserted(a.data@, ascending(indices@), values@, indices@.len() as int);
            r.shape@ == seq![out.len() as usize] && r.data@ == out
        },
        axis matches Some(x) ==> {
            let ax = norm_axis(x as int, a.shape@.len() as int);
            let n = a.shape@[ax] as int;
            let marks = insert_marks(indices@, n);
            let grown = n + marked_below(marks, n + 1);
            let pre = pre_of(a.shape@, ax) as int;
            let post = post_of(a.shape@, ax) as int;
            &&& r.shape@ == a.shape@.update(ax, grown as usize)
            &&& forall|o: int, d: int, i: int| 0 <= o < pre && 0 <= d < grown && 0 <= i < post ==>
                #[trigger] r.data@[flat3(o, d, i, grown, post)] == if insert_source(marks, d) < 0 {
                    values@[(o * post + i) % (values@.len() as int)]
                } else {
                    a.data@[flat3(o, insert_source(marks, d), i, n, post)]
                }
        },
{
    match axis {
        None => {
            let idxs = sorted_copy(indices);
            proof {
                indices@.lemma_sort_by_ensures(index_le());
                assert(idxs@.len() == indices@.len()) by {
                    vstd::seq_lib::to_multiset_len(idxs@);
                    vstd::seq_lib::to_multiset_len(indices@);
                }
                lemma_flat_inserted_len(a.data@, idxs@, values@, idxs@.len() as int);
            }
            let data = insert_flat(&a.data, &idxs, values);
            let shape = vec![data.len()];
            proof {
                assert(shape@ =~= seq![data@.len() as usize]);
                lemma_prod_single(shape@);
            }
            NdArray { data, shape }
        },
        Some(x) => {
            let ax = normalize_axis(x, a.shape.len()).unwrap();
            let (pre, n, post) = crate::array::axis_layout(&a.shape, ax);
            proof {
                lemma_axis_sizes(a.shape@, ax as int);
                assert(pre * n * post == a.data@.len());
            }
            let marks = insert_marks_exec(indices, n);
            let mut cnt: usize = 0;
            let mut p: usize = 0;
            while p <= n
                invariant
                    0 <= p <= n + 1,
                    n < usize::MAX,
                    marks@.len() == n + 1,
                    cnt == marked_below(marks@, p as int),
                    cnt <= p,
                decreases n + 1 - p,
            {
                if marks[p] {
                    cnt = cnt + 1;
                }
                p = p + 1;
            }
            let grown = n + cnt;
            let sel = insert_sources_exec(&marks, n, grown);
            let data = insert_along(&a.data, pre, n, post, &sel, values);
            let mut shape = copy_vec(&a.shape);
            shape.set(ax, grown);
            proof {
                lemma_update_axis(a.shape@, ax as int, grown);
                let mk = marks@;
                assert forall|o: int, d: int, i: int| 0 <= o < pre && 0 <= d < grown && 0 <= i < post implies
                    #[trigger] data@[flat3(o, d, i, grown as int, post as int)] == if insert_source(mk, d) < 0 {
                        values@[(o * post + i) % (values@.len() as int)]
                    } else {
                        a.data@[flat3(o, insert_source(mk, d), i, n as int, post as int)]
                    } by {
                    assert(sel@[d] == if insert_source(mk, d) < 0 { n as int } else { insert_source(mk, d) });
                    if insert_source(mk, d) >= 0 {
                        lemma_source_in_range(mk, n as int, d);
                    }
                }
            }
            NdArray { data, shape }
        },
    }
}

} // verus!

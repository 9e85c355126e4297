use vstd::prelude::*;
use crate::advanced::{
    all_axis_values, axis_values, block_exec, block_shape, check_range, desc_wf, indices_in_range, is_adv, is_adv_exec,
    padded_indices, select_from, select_shape, selection_shape, source_index, IndexDesc,
};
use crate::array::{ArrayError, NdArray};
use crate::layout::copy_vec;
use crate::permute::ints;
use crate::shape::{dims_fit, lemma_prod_zero, prod, shape_size};
use crate::strides::{in_bounds, lemma_ravel_bound, lemma_ravel_unravel, ravel, unravel};

verus! {

/// Number of advanced axes among the first `d`.
pub open spec fn adv_count(descs: Seq<IndexDesc>, d: int) -> int
    decreases d,
{
    if d <= 0 {
        0
    } else {
        adv_count(descs, d - 1) + if is_adv(descs[d - 1]) { 1int } else { 0int }
    }
}

/// Lengths of the slices among the first `u` axes, in order.
pub open spec fn slice_lens(descs: Seq<IndexDesc>, u: int) -> Seq<usize>
    decreases u,
{
    if u <= 0 {
        Seq::empty()
    } else if is_adv(descs[u - 1]) {
        slice_lens(descs, u - 1)
    } else {
        slice_lens(descs, u - 1).push(axis_values(descs[u - 1]).len() as usize)
    }
}

/// Number of writes a scatter makes: the block size times the sizes of the slices.
pub open spec fn scatter_count(descs: Seq<IndexDesc>, block: Seq<usize>) -> int {
    (prod(slice_lens(descs, descs.len() as int)) * prod(block)) as int
}

/// The slice lengths multiply from the front without leaving `usize`.
pub open spec fn prefix_prods_fit(s: Seq<usize>) -> bool {
    forall|i: int| 0 <= i <= s.len() ==> #[trigger] prod(s.take(i)) <= usize::MAX
}

/// With every slice length positive, the product from the front never falls.
proof fn lemma_prefix_prod_mono(s: Seq<usize>, i: int)
    requires
        0 <= i < s.len(),
    ensures
        prod(s.take(i + 1)) == prod(s.take(i)) * (s[i] as nat),
{
    assert(s.take(i + 1).drop_last() =~= s.take(i));
}

/// There are `u - adv_count(u)` slices among the first `u` axes.
proof fn lemma_slice_lens_len(descs: Seq<IndexDesc>, u: int)
    requires
        0 <= u <= descs.len(),
    ensures
        slice_lens(descs, u).len() == u - adv_count(descs, u),
        0 <= adv_count(descs, u) <= u,
    decreases u,
{
    if u > 0 {
        lemma_slice_lens_len(descs, u - 1);
    }
}

/// More axes never have fewer slices.
proof fn lemma_slice_lens_grow(descs: Seq<IndexDesc>, u: int, v: int)
    requires
        0 <= u <= v <= descs.len(),
    ensures
        slice_lens(descs, u).len() <= slice_lens(descs, v).len(),
    decreases v - u,
{
    if u < v {
        lemma_slice_lens_grow(descs, u, v - 1);
    }
}

/// Number of writes a scatter through these indices makes.
pub fn calculate_target_count(descs: &Vec<IndexDesc>) -> (r: usize)
    requires
        forall|d: int| 0 <= d < descs@.len() ==> desc_wf(#[trigger] descs@[d]),
        block_shape(descs@, descs@.len() as int) is Some,
        dims_fit(block_shape(descs@, descs@.len() as int)->0),
        prefix_prods_fit(slice_lens(descs@, descs@.len() as int)),
        scatter_count(descs@, block_shape(descs@, descs@.len() as int)->0) <= usize::MAX,
    ensures
        r as int == scatter_count(descs@, block_shape(descs@, descs@.len() as int)->0),
{
    let n = descs.len();
    let vals = all_axis_values(descs);
    let block = block_exec(descs).unwrap();
    let adv_size = shape_size(&block);
    let mut slice_size: usize = 1;
    let ghost lens = slice_lens(descs@, n as int);
    let mut d: usize = 0;
    while d < n
        invariant
            0 <= d <= n,
            n == descs@.len(),
            vals@.len() == n,
            forall|d2: int| 0 <= d2 < n ==> ints((#[trigger] vals@[d2])@) == axis_values(descs@[d2]),
            lens == slice_lens(descs@, n as int),
            prefix_prods_fit(lens),
            slice_lens(descs@, d as int) == lens.take(slice_lens(descs@, d as int).len() as int),
            slice_size == prod(slice_lens(descs@, d as int)),
        decreases n - d,
    {
        proof {
            lemma_slice_lens_prefix(descs@, d as int + 1, n as int);
            lemma_slice_lens_prefix(descs@, d as int, n as int);
        }
        if !is_adv_exec(&descs[d]) {
            assert(ints(vals@[d as int]@).len() == vals@[d as int]@.len());
            proof {
                let k = slice_lens(descs@, d as int).len() as int;
                lemma_slice_lens_len(descs@, d as int + 1);
                lemma_slice_lens_grow(descs@, d as int + 1, n as int);
                lemma_prefix_prod_mono(lens, k);
                assert(lens.take(k + 1) == slice_lens(descs@, d as int + 1));
                assert(prod(lens.take(k + 1)) <= usize::MAX);
                assert(slice_lens(descs@, d as int + 1).drop_last() =~= slice_lens(descs@, d as int));
            }
            slice_size = slice_size * vals[d].len();
        }
        d = d + 1;
    }
    proof {
        assert(slice_lens(descs@, n as int) == lens);
        let x = prod(lens);
        let y = prod(block@);
        assert(x * y == y * x) by (nonlinear_arith);
    }
    adv_size * slice_size
}

/// The slices among the first `u` axes begin those among the first `v >= u`.
proof fn lemma_slice_lens_prefix(descs: Seq<IndexDesc>, u: int, v: int)
    requires
        0 <= u <= v <= descs.len(),
    ensures
        slice_lens(descs, v).take(slice_lens(descs, u).len() as int) =~= slice_lens(descs, u),
    decreases v - u,
{
    lemma_slice_lens_grow(descs, u, v);
    if u < v {
        lemma_slice_lens_prefix(descs, u, v - 1);
        lemma_slice_lens_grow(descs, u, v - 1);
    }
}

/// Flat position in an array of `shape` that write `lin` of an assignment through `descs`
/// reaches: the source of element `lin` (in C order) of the result of indexing with them.
pub open spec fn write_target(descs: Seq<IndexDesc>, block: Seq<usize>, shape: Seq<usize>, lin: int) -> int {
    ravel(source_index(descs, block, unravel(lin, select_shape(descs, block))), shape)
}

/// The buffer after the first `u` writes of an assignment: write `lin` stores value `lin`
/// (the only value when broadcasting) at `write_target(lin)`, later writes over earlier ones
/// (every target lies inside the array when the indices are in range).
pub open spec fn assign_fold<T>(data: Seq<T>, descs: Seq<IndexDesc>, block: Seq<usize>, shape: Seq<usize>,
    values: Seq<T>, broadcast: bool, u: int) -> Seq<T>
    decreases u,
{
    if u <= 0 {
        data
    } else {
        let prev = assign_fold(data, descs, block, shape, values, broadcast, u - 1);
        let t = write_target(descs, block, shape, u - 1);
        if 0 <= t < prev.len() { prev.update(t, if broadcast { values[0] } else { values[u - 1] }) } else { prev }
    }
}

/// Assigning keeps the length of the buffer.
proof fn lemma_assign_fold_len<T>(data: Seq<T>, descs: Seq<IndexDesc>, block: Seq<usize>, shape: Seq<usize>,
    values: Seq<T>, broadcast: bool, u: int)
    ensures
        assign_fold(data, descs, block, shape, values, broadcast, u).len() == data.len(),
    decreases u,
{
    if u > 0 {
        lemma_assign_fold_len(data, descs, block, shape, values, broadcast, u - 1);
    }
}

/// What an assignment wrote reads back: when the first `u` writes reach distinct positions
/// inside the buffer, each of those positions holds the value written to it.
pub proof fn law_assign_then_read<T>(data: Seq<T>, descs: Seq<IndexDesc>, block: Seq<usize>, shape: Seq<usize>,
    values: Seq<T>, broadcast: bool, u: int, lin: int)
    requires
        0 <= lin < u,
        forall|i: int| 0 <= i < u ==> 0 <= #[trigger] write_target(descs, block, shape, i) < data.len(),
        forall|i: int, j: int| 0 <= i < j < u ==>
            #[trigger] write_target(descs, block, shape, i) != #[trigger] write_target(descs, block, shape, j),
    ensures
        assign_fold(data, descs, block, shape, values, broadcast, u)[write_target(descs, block, shape, lin)]
            == if broadcast { values[0] } else { values[lin] },
    decreases u,
{
    lemma_assign_fold_len(data, descs, block, shape, values, broadcast, u - 1);
    if lin < u - 1 {
        law_assign_then_read(data, descs, block, shape, values, broadcast, u - 1, lin);
        assert(write_target(descs, block, shape, lin) != write_target(descs, block, shape, u - 1));
    }
}

/// The positions `0..n`.
fn positions(n: usize) -> (r: Vec<usize>)
    ensures
        r@.len() == n,
        forall|i: int| 0 <= i < n ==> #[trigger] r@[i] == i,
{
    let mut r: Vec<usize> = Vec::new();
    let mut i: usize = 0;
    while i < n
        invariant
            0 <= i <= n,
            r@.len() == i,
            forall|j: int| 0 <= j < i ==> #[trigger] r@[j] == j,
        decreases n - i,
    {
        r.push(i);
        i = i + 1;
    }
    r
}

/// Writes values through one index per axis, as NumPy assigns: the elements that indexing
/// with `descs` selects are written in the C order of the selection, each with its own value
/// or, when broadcasting, with the first value; a position selected twice keeps the later
/// value.
pub fn scatter_advanced<T: Copy>(a: &mut NdArray<T>, descs: &Vec<IndexDesc>, values: &Vec<T>, broadcast: bool)
    requires
        old(a).wf(),
        dims_fit(old(a).shape@),
        descs@.len() == old(a).shape@.len(),
        forall|d: int| 0 <= d < descs@.len() ==> desc_wf(#[trigger] descs@[d]),
        block_shape(descs@, descs@.len() as int) is Some,
        dims_fit(select_shape(descs@, block_shape(descs@, descs@.len() as int)->0)),
        indices_in_range(descs@, old(a).shape@),
        ({
            let count = prod(select_shape(descs@, block_shape(descs@, descs@.len() as int)->0));
            count > 0 ==> if broadcast { values@.len() >= 1 } else { values@.len() >= count }
        }),
    ensures
        final(a).shape@ == old(a).shape@,
        final(a).data@ == assign_fold(old(a).data@, descs@, block_shape(descs@, descs@.len() as int)->0, old(a).shape@,
            values@, broadcast, prod(select_shape(descs@, block_shape(descs@, descs@.len() as int)->0)) as int),
{
    let ghost b = block_shape(descs@, descs@.len() as int)->0;
    let ghost os = select_shape(descs@, b);
    let ghost sh = a.shape@;
    let len = a.data.len();
    let pos = NdArray { data: positions(len), shape: copy_vec(&a.shape) };
    let sel = match select_from(&pos, descs) {
        Ok(x) => x,
        Err(_) => {
            return;
        },
    };
    let count = sel.data.len();
    let mut lin: usize = 0;
    while lin < count
        invariant
            0 <= lin <= count,
            os == select_shape(descs@, b),
            count == prod(os),
            sel.wf(),
            sel.shape@ == os,
            pos.data@.len() == len,
            len == prod(sh),
            forall|i: int| 0 <= i < len ==> #[trigger] pos.data@[i] == i,
            pos.shape@ == sh,
            a.shape@ == sh,
            a.data@.len() == len,
            forall|m: Seq<int>| in_bounds(m, os) ==>
                #[trigger] sel.data@[ravel(m, os)] == pos.data@[ravel(source_index(descs@, b, m), sh)],
            forall|m: Seq<int>| #[trigger] in_bounds(m, os) ==> in_bounds(source_index(descs@, b, m), sh),
            count > 0 ==> if broadcast { values@.len() >= 1 } else { values@.len() >= count },
            a.data@ == assign_fold(old(a).data@, descs@, b, sh, values@, broadcast, lin as int),
        decreases count - lin,
    {
        let ghost m = unravel(lin as int, os);
        proof {
            assert forall|j: int| 0 <= j < os.len() implies #[trigger] os[j] > 0 by {
                if os[j] == 0 {
                    lemma_prod_zero(os, j);
                }
            }
            lemma_ravel_unravel(lin as int, os);
            assert(in_bounds(m, os));
            assert(in_bounds(source_index(descs@, b, m), sh));
            lemma_ravel_bound(source_index(descs@, b, m), sh);
            if sh.len() == 0 {
                assert(prod(sh) == 1);
            }
        }
        let t = sel.data[lin];
        proof {
            assert(ravel(m, os) == lin as int);
            assert(sel.data@[ravel(m, os)] == pos.data@[ravel(source_index(descs@, b, m), sh)]);
            let k = ravel(source_index(descs@, b, m), sh);
            assert(0 <= k < len);
            assert(pos.data@[k] == k);
            assert(t == sel.data@[lin as int]);
            assert(t == sel.data@[ravel(m, os)]);
            assert(t as int == k);
            assert(os == select_shape(descs@, b));
            assert(write_target(descs@, b, sh, lin as int) == k);
            assert(t as int == write_target(descs@, b, sh, lin as int));
        }
        let v = if broadcast { values[0] } else { values[lin] };
        a.data.set(t, v);
        lin = lin + 1;
    }
}

/// Assignment through one index per axis (missing trailing axes are taken whole), as NumPy
/// assigns: indices whose arrays do not broadcast together are refused, then positions outside
/// their axis; then there must be a single value, written everywhere the indices reach, or one
/// value per selected element, written in the C order of the selection.
pub fn setitem_multi<T: Copy>(a: &mut NdArray<T>, descs: Vec<IndexDesc>, values: &Vec<T>) -> (r: Result<(), ArrayError>)
    requires
        old(a).wf(),
        dims_fit(old(a).shape@),
        descs@.len() <= old(a).shape@.len(),
        forall|d: int| 0 <= d < old(a).shape@.len() ==> #[trigger] old(a).shape@[d] <= isize::MAX,
        forall|d: int| 0 <= d < descs@.len() ==> desc_wf(#[trigger] descs@[d]),
        block_shape(padded_indices(descs@, old(a).shape@), old(a).shape@.len() as int) matches Some(b) ==>
            dims_fit(select_shape(padded_indices(descs@, old(a).shape@), b)),
    ensures
        ({
            let p = padded_indices(descs@, old(a).shape@);
            let bs = block_shape(p, p.len() as int);
            let count = prod(select_shape(p, bs->0));
            &&& final(a).shape@ == old(a).shape@
            &&& (r is Ok <==> bs is Some && indices_in_range(p, old(a).shape@)
                && (values@.len() == 1 || values@.len() == count))
            &&& (r is Err ==> final(a).data@ == old(a).data@)
            &&& (r matches Err(e) ==> (bs is None ==> e == ArrayError::ShapeMismatch)
                && (bs is Some && !indices_in_range(p, old(a).shape@) ==> e == ArrayError::IndexOutOfBounds)
                && (bs is Some && indices_in_range(p, old(a).shape@) ==> e == ArrayError::ShapeMismatch))
            &&& (r is Ok ==> final(a).data@ == assign_fold(old(a).data@, p, bs->0, old(a).shape@, values@,
                values@.len() == 1, count as int))
        }),
{
    let mut filled = descs;
    let ghost orig = filled@;
    while filled.len() < a.shape.len()
        invariant
            orig.len() <= filled@.len() <= a.shape@.len(),
            forall|d: int| 0 <= d < a.shape@.len() ==> #[trigger] a.shape@[d] <= isize::MAX,
            forall|d: int| 0 <= d < filled@.len() ==> #[trigger] filled@[d] == padded_indices(orig, a.shape@)[d],
        decreases a.shape@.len() - filled@.len(),
    {
        let dim = a.shape[filled.len()] as isize;
        filled.push(IndexDesc::Slice(0, dim, 1));
    }
    assert(filled@ =~= padded_indices(orig, a.shape@));
    assert forall|d: int| 0 <= d < filled@.len() implies desc_wf(#[trigger] filled@[d]) by {
        if d >= orig.len() {
            assert(filled@[d] == IndexDesc::Slice(0, a.shape@[d] as isize, 1));
        }
    }
    let out_shape = match selection_shape(&filled) {
        None => {
            return Err(ArrayError::ShapeMismatch);
        },
        Some(s) => s,
    };
    let vals = all_axis_values(&filled);
    if !check_range(&filled, &vals, &a.shape) {
        return Err(ArrayError::IndexOutOfBounds);
    }
    let count = shape_size(&out_shape);
    let broadcast = values.len() == 1;
    if !broadcast && values.len() != count {
        return Err(ArrayError::ShapeMismatch);
    }
    scatter_advanced(a, &filled, values, broadcast);
    Ok(())
}

} // verus!

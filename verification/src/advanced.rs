use vstd::prelude::*;
use crate::array::{ArrayError, NdArray};
use crate::layout::copy_vec;
use crate::permute::{ints, ravel_exec};
use crate::shape::{dims_fit, lemma_prod_single, lemma_prod_zero, prod, shape_size};
use crate::shapes::{broadcast_compatible, broadcast_shape, broadcast_shapes, padded_dim};
use crate::strides::{
    compute_strides, flat_to_multi, in_bounds, lemma_ravel_bound, lemma_unravel_ravel, ravel, stride, unravel,
    unravel_coord,
};

verus! {

/// How one axis of an array is indexed.
pub enum IndexDesc {
    /// The positions `start, start + step, ...` strictly before `stop` (after `stop` when the
    /// step is negative).
    Slice(isize, isize, isize),
    /// A single position; the axis is consumed.
    Int(usize),
    /// A one-dimensional array of positions.
    Fancy(Vec<usize>),
    /// An array of positions in C order, with its dimensions.
    FancyMulti(Vec<usize>, Vec<usize>),
}

/// The positions a slice selects, in order.
pub open spec fn slice_positions(start: int, stop: int, step: int) -> Seq<int>
    decreases (if step > 0 && start < stop { stop - start } else if step < 0 && start > stop { start - stop } else { 0 }),
{
    if step > 0 && start < stop {
        seq![start] + slice_positions(start + step, stop, step)
    } else if step < 0 && start > stop {
        seq![start] + slice_positions(start + step, stop, step)
    } else {
        Seq::empty()
    }
}

/// The axis takes part in advanced indexing (every kind but a slice, as in NumPy once an
/// array index is present).
pub open spec fn is_adv(d: IndexDesc) -> bool {
    !(d is Slice)
}

/// The dimensions an advanced index contributes to the broadcast block.
pub open spec fn adv_dims(d: IndexDesc) -> Seq<usize> {
    match d {
        IndexDesc::Fancy(v) => seq![v@.len() as usize],
        IndexDesc::FancyMulti(_, sh) => sh@,
        _ => Seq::empty(),
    }
}

/// The positions an index names along its axis, in order.
pub open spec fn axis_values(d: IndexDesc) -> Seq<int> {
    match d {
        IndexDesc::Slice(a, b, c) => slice_positions(a as int, b as int, c as int),
        IndexDesc::Int(i) => seq![i as int],
        IndexDesc::Fancy(v) => ints(v@),
        IndexDesc::FancyMulti(v, _) => ints(v@),
    }
}

/// An index is well formed: a slice never names a negative position, and a multi-dimensional
/// array of positions holds as many positions as its dimensions describe.
pub open spec fn desc_wf(d: IndexDesc) -> bool {
    match d {
        IndexDesc::Slice(a, b, c) => (c > 0 && a < b ==> a >= 0) && (c < 0 ==> b >= -1),
        IndexDesc::FancyMulti(v, sh) => dims_fit(sh@) && v@.len() == prod(sh@),
        _ => true,
    }
}

/// Every position named along every axis lies inside that axis.
pub open spec fn indices_in_range(descs: Seq<IndexDesc>, shape: Seq<usize>) -> bool {
    forall|d: int, j: int| 0 <= d < descs.len() && 0 <= j < axis_values(descs[d]).len() ==>
        0 <= #[trigger] axis_values(descs[d])[j] < shape[d]
}

/// Broadcast of the dimensions of the advanced indices among the first `u` axes, or `None`
/// when they do not broadcast together.
pub open spec fn block_shape(descs: Seq<IndexDesc>, u: int) -> Option<Seq<usize>>
    decreases u,
{
    if u <= 0 {
        Some(Seq::empty())
    } else {
        match block_shape(descs, u - 1) {
            None => None,
            Some(b) => if !is_adv(descs[u - 1]) {
                Some(b)
            } else if broadcast_compatible(b, adv_dims(descs[u - 1])) {
                Some(broadcast_shape(b, adv_dims(descs[u - 1])))
            } else {
                None
            },
        }
    }
}

/// The advanced indices stand next to each other (no slice between two of them).
pub open spec fn adv_contiguous(descs: Seq<IndexDesc>) -> bool {
    forall|i: int, j: int, k: int|
        #![trigger is_adv(descs[i]), is_adv(descs[j]), is_adv(descs[k])]
        0 <= i < j < k < descs.len() && is_adv(descs[i]) && is_adv(descs[k]) ==> is_adv(descs[j])
}

/// The first advanced axis at or after `d` (the number of axes when there is none).
pub open spec fn first_adv(descs: Seq<IndexDesc>, d: int) -> int
    decreases descs.len() - d,
{
    if d >= descs.len() || d < 0 {
        descs.len() as int
    } else if is_adv(descs[d]) {
        d
    } else {
        first_adv(descs, d + 1)
    }
}

/// Dimensions the axis `d` contributes to the result: a slice its length; the broadcast block
/// goes where the first advanced axis stands when the advanced axes are contiguous.
pub open spec fn axis_out(descs: Seq<IndexDesc>, block: Seq<usize>, d: int) -> Seq<usize> {
    match descs[d] {
        IndexDesc::Slice(a, b, c) => seq![slice_positions(a as int, b as int, c as int).len() as usize],
        _ => if adv_contiguous(descs) && d == first_adv(descs, 0) { block } else { Seq::empty() },
    }
}

/// Result dimensions contributed by the first `u` axes; when the advanced axes are not
/// contiguous the block comes first.
pub open spec fn out_dims(descs: Seq<IndexDesc>, block: Seq<usize>, u: int) -> Seq<usize>
    decreases u,
{
    if u <= 0 {
        if adv_contiguous(descs) { Seq::empty() } else { block }
    } else {
        out_dims(descs, block, u - 1) + axis_out(descs, block, u - 1)
    }
}

/// Shape of the result of indexing with `descs`, given the broadcast block.
pub open spec fn select_shape(descs: Seq<IndexDesc>, block: Seq<usize>) -> Seq<usize> {
    out_dims(descs, block, descs.len() as int)
}

/// Where the block starts among the result dimensions.
pub open spec fn block_start(descs: Seq<IndexDesc>) -> int {
    if adv_contiguous(descs) { first_adv(descs, 0) } else { 0 }
}

/// Block coordinates seen by an advanced index of dimensions `sh`: aligned at the end, and
/// zero along its dimensions of size one.
pub open spec fn reduced_coords(bc: Seq<int>, sh: Seq<usize>) -> Seq<int> {
    Seq::new(sh.len(), |dd: int| if sh[dd] == 1 { 0 } else { bc[bc.len() - sh.len() + dd] })
}

/// Position along axis `d` of the source element of result element `m`.
pub open spec fn source_coord(descs: Seq<IndexDesc>, block: Seq<usize>, m: Seq<int>, d: int) -> int {
    match descs[d] {
        IndexDesc::Slice(_, _, _) => axis_values(descs[d])[m[out_dims(descs, block, d).len() as int]],
        _ => {
            let bs = block_start(descs);
            let bc = m.subrange(bs, bs + block.len());
            axis_values(descs[d])[ravel(reduced_coords(bc, adv_dims(descs[d])), adv_dims(descs[d]))]
        },
    }
}

/// Multi-index of the source element of result element `m`.
pub open spec fn source_index(descs: Seq<IndexDesc>, block: Seq<usize>, m: Seq<int>) -> Seq<int> {
    Seq::new(descs.len(), |d: int| source_coord(descs, block, m, d))
}

/// The block holds the dimensions of an advanced index: aligned at the end, each equal or one.
pub open spec fn block_covers(block: Seq<usize>, sh: Seq<usize>) -> bool {
    sh.len() <= block.len() && forall|dd: int| 0 <= dd < sh.len() ==>
        (#[trigger] sh[dd] == 1 || block[block.len() - sh.len() + dd] == sh[dd])
}

/// A resolved slice walks as Python's `range(start, stop, step)`: its `j`-th position is
/// `start + j * step`, and it has `ceil((stop - start) / step)` positions when the step goes
/// from `start` towards `stop`, and none otherwise.
pub proof fn law_slice_positions_as_range(a: int, b: int, c: int)
    requires
        c != 0,
    ensures
        slice_positions(a, b, c).len() == (if c > 0 {
            if a < b { (b - a + c - 1) / c } else { 0 }
        } else {
            if a > b { (a - b - c - 1) / (-c) } else { 0 }
        }),
        forall|j: int| 0 <= j < slice_positions(a, b, c).len() ==> #[trigger] slice_positions(a, b, c)[j] == a + j * c,
    decreases (if c > 0 && a < b { b - a } else if c < 0 && a > b { a - b } else { 0 }),
{
    if (c > 0 && a < b) || (c < 0 && a > b) {
        law_slice_positions_as_range(a + c, b, c);
        let p = slice_positions(a, b, c);
        let rest = slice_positions(a + c, b, c);
        assert(p == seq![a] + rest);
        let d: int = if c > 0 { b - a } else { a - b };
        let e: int = if c > 0 { c } else { -c };
        assert(d > 0 && e > 0);
        let q = (d - 1) / e;
        vstd::arithmetic::div_mod::lemma_fundamental_div_mod(d - 1, e);
        let r = (d - 1) % e;
        assert(0 <= r < e);
        assert(d + e - 1 == (q + 1) * e + r && d - 1 == q * e + r) by (nonlinear_arith)
            requires d - 1 == e * q + r;
        vstd::arithmetic::div_mod::lemma_fundamental_div_mod_converse(d + e - 1, e, q + 1, r);
        if d > e {
            vstd::arithmetic::div_mod::lemma_fundamental_div_mod_converse(d - e + e - 1, e, q, r);
            assert(rest.len() == q);
        } else {
            assert(q == 0) by {
                vstd::arithmetic::div_mod::lemma_fundamental_div_mod_converse(d - 1, e, 0, d - 1);
            }
            assert(rest.len() == 0);
        }
        assert(c > 0 ==> b - a + c - 1 == d + e - 1);
        assert(c < 0 ==> a - b - c - 1 == d + e - 1);
        assert forall|j: int| 0 <= j < p.len() implies #[trigger] p[j] == a + j * c by {
            if j > 0 {
                assert(p[j] == rest[j - 1]);
                assert(0 <= j - 1 < rest.len());
                assert(rest[j - 1] == a + c + (j - 1) * c);
                assert(a + c + (j - 1) * c == a + j * c) by (nonlinear_arith);
            } else {
                assert(p[0] == a);
                assert(j * c == 0) by (nonlinear_arith) requires j == 0;
            }
        }
    }
}

/// Positions of a slice lie between its start and its stop.
pub proof fn lemma_slice_positions_bounds(a: int, b: int, c: int)
    ensures
        forall|j: int| 0 <= j < slice_positions(a, b, c).len() ==>
            (c > 0 ==> a <= #[trigger] slice_positions(a, b, c)[j] < b)
            && (c < 0 ==> b < slice_positions(a, b, c)[j] <= a),
        c == 0 ==> slice_positions(a, b, c).len() == 0,
    decreases (if c > 0 && a < b { b - a } else if c < 0 && a > b { a - b } else { 0 }),
{
    if (c > 0 && a < b) || (c < 0 && a > b) {
        lemma_slice_positions_bounds(a + c, b, c);
        let rest = slice_positions(a + c, b, c);
        assert forall|j: int| 0 <= j < slice_positions(a, b, c).len() implies
            (c > 0 ==> a <= #[trigger] slice_positions(a, b, c)[j] < b)
            && (c < 0 ==> b < slice_positions(a, b, c)[j] <= a) by {
            if j > 0 {
                assert(slice_positions(a, b, c)[j] == rest[j - 1]);
            }
        }
    }
}

/// Broadcasting the block with more dimensions keeps it covering an index it covered.
proof fn lemma_broadcast_keeps(b: Seq<usize>, x: Seq<usize>, sh: Seq<usize>)
    requires
        block_covers(b, sh),
        broadcast_compatible(b, x),
    ensures
        block_covers(broadcast_shape(b, x), sh),
        block_covers(broadcast_shape(b, x), x),
{
    let r = broadcast_shape(b, x);
    let n = r.len() as int;
    assert(n == crate::shapes::broadcast_ndim(b, x));
    assert forall|dd: int| 0 <= dd < sh.len() implies
        (#[trigger] sh[dd] == 1 || r[r.len() - sh.len() + dd] == sh[dd]) by {
        if sh[dd] != 1 {
            let i = n - sh.len() + dd;
            assert(0 <= i < n);
            assert(padded_dim(b, n, i) == b[b.len() - sh.len() + dd]);
            assert(crate::shapes::dims_compatible(padded_dim(b, n, i), padded_dim(x, n, i)));
        }
    }
    assert forall|dd: int| 0 <= dd < x.len() implies
        (#[trigger] x[dd] == 1 || r[r.len() - x.len() + dd] == x[dd]) by {
        let i = n - x.len() + dd;
        assert(0 <= i < n);
        assert(padded_dim(x, n, i) == x[dd]);
        assert(crate::shapes::dims_compatible(padded_dim(b, n, i), padded_dim(x, n, i)));
    }
}

/// The block of the first `u` axes covers the dimensions of each of their advanced indices.
proof fn lemma_block_covers(descs: Seq<IndexDesc>, u: int, d: int)
    requires
        0 <= d < u <= descs.len(),
        is_adv(descs[d]),
        block_shape(descs, u) is Some,
    ensures
        block_covers(block_shape(descs, u)->0, adv_dims(descs[d])),
    decreases u,
{
    let b = block_shape(descs, u - 1)->0;
    if d < u - 1 {
        lemma_block_covers(descs, u - 1, d);
        if is_adv(descs[u - 1]) {
            lemma_broadcast_keeps(b, adv_dims(descs[u - 1]), adv_dims(descs[d]));
        }
    } else {
        assert(block_covers(Seq::<usize>::empty(), Seq::<usize>::empty()));
        lemma_broadcast_keeps(b, adv_dims(descs[d]), Seq::empty());
    }
}

/// The result dimensions of the first `d` axes begin those of the first `u >= d` axes.
proof fn lemma_out_dims_prefix(descs: Seq<IndexDesc>, block: Seq<usize>, d: int, u: int)
    requires
        0 <= d <= u,
    ensures
        out_dims(descs, block, d).len() <= out_dims(descs, block, u).len(),
        out_dims(descs, block, u).take(out_dims(descs, block, d).len() as int) =~= out_dims(descs, block, d),
    decreases u - d,
{
    if d < u {
        lemma_out_dims_prefix(descs, block, d, u - 1);
        let p = out_dims(descs, block, u - 1);
        assert(out_dims(descs, block, u) == p + axis_out(descs, block, u - 1));
        assert((p + axis_out(descs, block, u - 1)).take(p.len() as int) =~= p);
        assert(p.take(out_dims(descs, block, d).len() as int) =~= out_dims(descs, block, d));
    }
}

/// `first_adv` finds the first advanced axis from `d` on.
proof fn lemma_first_adv(descs: Seq<IndexDesc>, d: int)
    requires
        0 <= d <= descs.len(),
    ensures
        d <= first_adv(descs, d) <= descs.len(),
        forall|j: int| d <= j < first_adv(descs, d) ==> !is_adv(#[trigger] descs[j]),
        first_adv(descs, d) < descs.len() ==> is_adv(descs[first_adv(descs, d)]),
    decreases descs.len() - d,
{
    if d < descs.len() && !is_adv(descs[d]) {
        lemma_first_adv(descs, d + 1);
    }
}

/// With contiguous advanced axes, the axes before the first advanced one are slices, each
/// giving one result dimension.
proof fn lemma_out_dims_leading(descs: Seq<IndexDesc>, block: Seq<usize>, d: int)
    requires
        adv_contiguous(descs),
        0 <= d <= first_adv(descs, 0),
        first_adv(descs, 0) <= descs.len(),
        forall|j: int| 0 <= j < first_adv(descs, 0) ==> !is_adv(#[trigger] descs[j]),
    ensures
        out_dims(descs, block, d).len() == d,
    decreases d,
{
    if d > 0 {
        lemma_out_dims_leading(descs, block, d - 1);
        assert(!is_adv(descs[d - 1]));
    }
}

/// The block sits in the result dimensions at `block_start`.
proof fn lemma_block_place(descs: Seq<IndexDesc>, block: Seq<usize>)
    requires
        first_adv(descs, 0) < descs.len(),
    ensures
        0 <= block_start(descs),
        block_start(descs) + block.len() <= select_shape(descs, block).len(),
        select_shape(descs, block).subrange(block_start(descs), block_start(descs) + block.len()) =~= block,
{
    let n = descs.len() as int;
    lemma_first_adv(descs, 0);
    let f = first_adv(descs, 0);
    if adv_contiguous(descs) {
        lemma_out_dims_leading(descs, block, f);
        lemma_out_dims_prefix(descs, block, f + 1, n);
        assert(out_dims(descs, block, f + 1) == out_dims(descs, block, f) + block);
        let full = select_shape(descs, block);
        assert forall|i: int| 0 <= i < block.len() implies
            #[trigger] full.subrange(f, f + block.len())[i] == block[i] by {
            assert(full[f + i] == out_dims(descs, block, f + 1)[f + i]);
        }
    } else {
        lemma_out_dims_prefix(descs, block, 0, n);
        let full = select_shape(descs, block);
        assert forall|i: int| 0 <= i < block.len() implies
            #[trigger] full.subrange(0, block.len() as int)[i] == block[i] by {
            assert(full[i] == out_dims(descs, block, 0)[i]);
        }
    }
}

/// Positions selected by a slice, enumerated from its start by its step.
pub fn slice_indices_vec(start: isize, stop: isize, step: isize) -> (r: Vec<usize>)
    requires
        step > 0 && start < stop ==> start >= 0,
        step < 0 ==> stop >= -1,
    ensures
        ints(r@) == slice_positions(start as int, stop as int, step as int),
{
    let ghost sp = slice_positions(start as int, stop as int, step as int);
    let mut out: Vec<usize> = Vec::new();
    let mut i: i128 = start as i128;
    assert(ints(out@) + slice_positions(i as int, stop as int, step as int) =~= sp);
    if step > 0 {
        while i < stop as i128
            invariant
                step > 0,
                start <= i <= 2 * (isize::MAX as int),
                start < stop ==> start >= 0,
                ints(out@) + slice_positions(i as int, stop as int, step as int) == sp,
            decreases (if i < stop as i128 { stop as int - i as int } else { 0 }),
        {
            let ghost old_out = out@;
            out.push(i as usize);
            proof {
                assert(ints(out@) =~= ints(old_out).push(i as int));
                let rest = slice_positions(i + step, stop as int, step as int);
                assert(slice_positions(i as int, stop as int, step as int) == seq![i as int] + rest);
                assert(ints(old_out) + (seq![i as int] + rest) =~= ints(out@) + rest);
            }
            i = i + step as i128;
        }
    } else if step < 0 {
        while i > stop as i128
            invariant
                step < 0,
                2 * (isize::MIN as int) <= i <= start,
                stop >= -1,
                ints(out@) + slice_positions(i as int, stop as int, step as int) == sp,
            decreases (if i > stop as i128 { i as int - stop as int } else { 0 }),
        {
            let ghost old_out = out@;
            out.push(i as usize);
            proof {
                assert(ints(out@) =~= ints(old_out).push(i as int));
                let rest = slice_positions(i + step, stop as int, step as int);
                assert(slice_positions(i as int, stop as int, step as int) == seq![i as int] + rest);
                assert(ints(old_out) + (seq![i as int] + rest) =~= ints(out@) + rest);
            }
            i = i + step as i128;
        }
    }
    assert(slice_positions(i as int, stop as int, step as int).len() == 0);
    assert(ints(out@) + slice_positions(i as int, stop as int, step as int) =~= ints(out@));
    out
}

/// Dimensions of an advanced index (none for a slice or a single position).
pub(crate) fn adv_dims_exec(d: &IndexDesc) -> (r: Vec<usize>)
    ensures
        r@ == adv_dims(*d),
{
    match d {
        IndexDesc::Fancy(v) => {
            let mut r: Vec<usize> = Vec::new();
            r.push(v.len());
            assert(r@ =~= seq![v@.len() as usize]);
            r
        },
        IndexDesc::FancyMulti(_, sh) => copy_vec(sh),
        _ => {
            let r: Vec<usize> = Vec::new();
            assert(r@ =~= Seq::<usize>::empty());
            r
        },
    }
}

/// Positions an index names along its axis.
fn axis_values_exec(d: &IndexDesc) -> (r: Vec<usize>)
    requires
        desc_wf(*d),
    ensures
        ints(r@) == axis_values(*d),
{
    match d {
        IndexDesc::Slice(a, b, c) => slice_indices_vec(*a, *b, *c),
        IndexDesc::Int(i) => {
            let mut r: Vec<usize> = Vec::new();
            r.push(*i);
            assert(ints(r@) =~= seq![*i as int]);
            r
        },
        IndexDesc::Fancy(v) => copy_vec(v),
        IndexDesc::FancyMulti(v, _) => copy_vec(v),
    }
}

/// Whether the axis is indexed by something other than a slice.
pub(crate) fn is_adv_exec(d: &IndexDesc) -> (r: bool)
    ensures
        r == is_adv(*d),
{
    match d {
        IndexDesc::Slice(_, _, _) => false,
        _ => true,
    }
}

/// The first advanced axis (the number of axes when there is none).
fn first_adv_exec(descs: &Vec<IndexDesc>) -> (r: usize)
    ensures
        r as int == first_adv(descs@, 0),
{
    let mut d: usize = 0;
    while d < descs.len() && !is_adv_exec(&descs[d])
        invariant
            0 <= d <= descs@.len(),
            first_adv(descs@, 0) == first_adv(descs@, d as int),
        decreases descs@.len() - d,
    {
        d = d + 1;
    }
    d
}

/// Whether no slice stands between two advanced axes.
fn adv_contiguous_exec(descs: &Vec<IndexDesc>) -> (r: bool)
    ensures
        r == adv_contiguous(descs@),
{
    let n = descs.len();
    let f = first_adv_exec(descs);
    proof {
        lemma_first_adv(descs@, 0);
    }
    if f == n {
        return true;
    }
    let mut last: usize = f;
    let mut d: usize = f + 1;
    while d < n
        invariant
            f < d <= n,
            n == descs@.len(),
            f <= last < d,
            is_adv(descs@[last as int]),
            forall|j: int| last < j < d ==> !is_adv(#[trigger] descs@[j]),
        decreases n - d,
    {
        if is_adv_exec(&descs[d]) {
            last = d;
        }
        d = d + 1;
    }
    let mut j: usize = f;
    while j < last
        invariant
            f <= j <= last < n,
            n == descs@.len(),
            is_adv(descs@[f as int]),
            is_adv(descs@[last as int]),
            forall|i: int| f <= i < j ==> is_adv(#[trigger] descs@[i]),
        decreases last - j,
    {
        if !is_adv_exec(&descs[j]) {
            proof {
                assert(is_adv(descs@[f as int]) && is_adv(descs@[last as int]) && !is_adv(descs@[j as int]));
                assert(j != f);
                assert(!adv_contiguous(descs@));
            }
            return false;
        }
        j = j + 1;
    }
    proof {
        assert forall|i: int, j2: int, k: int|
            #![trigger is_adv(descs@[i]), is_adv(descs@[j2]), is_adv(descs@[k])]
            0 <= i < j2 < k < descs@.len() && is_adv(descs@[i]) && is_adv(descs@[k]) implies is_adv(descs@[j2]) by {
            assert(f <= i) by {
                if i < f {
                    assert(!is_adv(descs@[i]));
                }
            }
            assert(k <= last) by {
                if k > last {
                    assert(!is_adv(descs@[k]));
                }
            }
        }
    }
    true
}

/// Once the advanced indices fail to broadcast, adding axes does not mend it.
proof fn lemma_block_none(descs: Seq<IndexDesc>, u: int, v: int)
    requires
        0 <= u <= v,
        block_shape(descs, u) is None,
    ensures
        block_shape(descs, v) is None,
    decreases v - u,
{
    if u < v {
        lemma_block_none(descs, u, v - 1);
    }
}

/// The broadcast block of all advanced indices, or `None` when they do not broadcast.
pub(crate) fn block_exec(descs: &Vec<IndexDesc>) -> (r: Option<Vec<usize>>)
    ensures
        r is Some <==> block_shape(descs@, descs@.len() as int) is Some,
        r matches Some(b) ==> block_shape(descs@, descs@.len() as int) == Some(b@),
{
    let n = descs.len();
    let mut block: Vec<usize> = Vec::new();
    let mut d: usize = 0;
    while d < n
        invariant
            0 <= d <= n,
            n == descs@.len(),
            block_shape(descs@, d as int) == Some(block@),
        decreases n - d,
    {
        if is_adv_exec(&descs[d]) {
            let sh = adv_dims_exec(&descs[d]);
            match broadcast_shapes(&block, &sh) {
                None => {
                    proof {
                        lemma_block_none(descs@, d as int + 1, n as int);
                    }
                    return None;
                },
                Some(b) => {
                    block = b;
                },
            }
        }
        d = d + 1;
    }
    Some(block)
}

/// Positions named along each axis.
pub(crate) fn all_axis_values(descs: &Vec<IndexDesc>) -> (r: Vec<Vec<usize>>)
    requires
        forall|d: int| 0 <= d < descs@.len() ==> desc_wf(#[trigger] descs@[d]),
    ensures
        r@.len() == descs@.len(),
        forall|d: int| 0 <= d < descs@.len() ==> ints((#[trigger] r@[d])@) == axis_values(descs@[d]),
{
    let mut r: Vec<Vec<usize>> = Vec::new();
    let mut d: usize = 0;
    while d < descs.len()
        invariant
            0 <= d <= descs@.len(),
            forall|d2: int| 0 <= d2 < descs@.len() ==> desc_wf(#[trigger] descs@[d2]),
            r@.len() == d,
            forall|d2: int| 0 <= d2 < d ==> ints((#[trigger] r@[d2])@) == axis_values(descs@[d2]),
        decreases descs@.len() - d,
    {
        r.push(axis_values_exec(&descs[d]));
        d = d + 1;
    }
    r
}

/// Whether every named position lies inside its axis.
pub(crate) fn check_range(descs: &Vec<IndexDesc>, vals: &Vec<Vec<usize>>, shape: &Vec<usize>) -> (r: bool)
    requires
        vals@.len() == descs@.len(),
        shape@.len() == descs@.len(),
        forall|d: int| 0 <= d < descs@.len() ==> ints((#[trigger] vals@[d])@) == axis_values(descs@[d]),
    ensures
        r == indices_in_range(descs@, shape@),
{
    let n = descs.len();
    let mut d: usize = 0;
    while d < n
        invariant
            0 <= d <= n,
            n == descs@.len(),
            vals@.len() == n,
            shape@.len() == n,
            forall|d2: int| 0 <= d2 < n ==> ints((#[trigger] vals@[d2])@) == axis_values(descs@[d2]),
            forall|d2: int, j: int| 0 <= d2 < d && 0 <= j < axis_values(descs@[d2]).len() ==>
                0 <= #[trigger] axis_values(descs@[d2])[j] < shape@[d2],
        decreases n - d,
    {
        let v = &vals[d];
        let mut j: usize = 0;
        while j < v.len()
            invariant
                0 <= j <= v@.len(),
                d < n,
                n == descs@.len(),
                shape@.len() == n,
                v@ == vals@[d as int]@,
                ints(v@) == axis_values(descs@[d as int]),
                forall|j2: int| 0 <= j2 < j ==> 0 <= #[trigger] axis_values(descs@[d as int])[j2] < shape@[d as int],
            decreases v@.len() - j,
        {
            if v[j] >= shape[d] {
                proof {
                    assert(axis_values(descs@[d as int])[j as int] == v@[j as int] as int);
                }
                return false;
            }
            assert(axis_values(descs@[d as int])[j as int] == v@[j as int] as int);
            j = j + 1;
        }
        d = d + 1;
    }
    true
}

/// Result shape of the indexing, and the result dimension of each slice axis.
fn select_layout(descs: &Vec<IndexDesc>, vals: &Vec<Vec<usize>>, block: &Vec<usize>) -> (r: (Vec<usize>, Vec<usize>))
    requires
        vals@.len() == descs@.len(),
        forall|d: int| 0 <= d < descs@.len() ==> ints((#[trigger] vals@[d])@) == axis_values(descs@[d]),
    ensures
        r.0@ == select_shape(descs@, block@),
        r.1@.len() == descs@.len(),
        forall|d: int| 0 <= d < descs@.len() ==> #[trigger] r.1@[d] as int == out_dims(descs@, block@, d).len(),
{
    let n = descs.len();
    let contig = adv_contiguous_exec(descs);
    let first = first_adv_exec(descs);
    let mut out: Vec<usize> = if contig { Vec::new() } else { copy_vec(block) };
    let mut pos: Vec<usize> = Vec::new();
    let mut d: usize = 0;
    while d < n
        invariant
            0 <= d <= n,
            n == descs@.len(),
            vals@.len() == n,
            contig == adv_contiguous(descs@),
            first as int == first_adv(descs@, 0),
            forall|d2: int| 0 <= d2 < n ==> ints((#[trigger] vals@[d2])@) == axis_values(descs@[d2]),
            out@ == out_dims(descs@, block@, d as int),
            pos@.len() == d,
            forall|d2: int| 0 <= d2 < d ==> #[trigger] pos@[d2] as int == out_dims(descs@, block@, d2).len(),
        decreases n - d,
    {
        pos.push(out.len());
        let ghost before = out@;
        match &descs[d] {
            IndexDesc::Slice(_, _, _) => {
                assert(ints(vals@[d as int]@).len() == vals@[d as int]@.len());
                out.push(vals[d].len());
                assert(out@ =~= before + axis_out(descs@, block@, d as int));
            },
            _ => {
                if contig && d == first {
                    let mut k: usize = 0;
                    while k < block.len()
                        invariant
                            0 <= k <= block@.len(),
                            out@ =~= before + block@.take(k as int),
                        decreases block@.len() - k,
                    {
                        out.push(block[k]);
                        assert(block@.take(k as int + 1) =~= block@.take(k as int).push(block@[k as int]));
                        k = k + 1;
                    }
                    assert(block@.take(block@.len() as int) =~= block@);
                } else {
                    assert(before + axis_out(descs@, block@, d as int) =~= before);
                }
            },
        }
        d = d + 1;
    }
    (out, pos)
}

/// What gathering along an advanced axis needs: strides of its dimensions, which fit, which
/// describe its positions, and which the block covers.
pub open spec fn adv_axis_ready(d: IndexDesc, vals: Seq<usize>, strides: Seq<usize>, block: Seq<usize>) -> bool {
    &&& strides.len() == adv_dims(d).len()
    &&& forall|dd: int| 0 <= dd < adv_dims(d).len() ==> #[trigger] strides[dd] == stride(adv_dims(d), dd)
    &&& dims_fit(adv_dims(d))
    &&& prod(adv_dims(d)) == vals.len()
    &&& block_covers(block, adv_dims(d))
}

/// Multi-index of the source element of the result element whose coordinates are `oc`.
fn source_exec(
    descs: &Vec<IndexDesc>,
    vals: &Vec<Vec<usize>>,
    shapes: &Vec<Vec<usize>>,
    strides: &Vec<Vec<usize>>,
    oc: &Vec<usize>,
    pos: &Vec<usize>,
    bs: usize,
    bl: usize,
    Ghost(block): Ghost<Seq<usize>>,
    Ghost(shape): Ghost<Seq<usize>>,
) -> (src: Vec<usize>)
    requires
        vals@.len() == descs@.len(),
        shapes@.len() == descs@.len(),
        strides@.len() == descs@.len(),
        pos@.len() == descs@.len(),
        shape.len() == descs@.len(),
        forall|d: int| 0 <= d < descs@.len() ==> ints((#[trigger] vals@[d])@) == axis_values(descs@[d]),
        forall|d: int| 0 <= d < descs@.len() ==> (#[trigger] shapes@[d])@ == adv_dims(descs@[d]),
        forall|d: int| 0 <= d < descs@.len() && is_adv(descs@[d]) ==>
            #[trigger] adv_axis_ready(descs@[d], vals@[d]@, strides@[d]@, block),
        forall|d: int| 0 <= d < descs@.len() ==> #[trigger] pos@[d] as int == out_dims(descs@, block, d).len(),
        bs as int == block_start(descs@),
        bl as int == block.len(),
        in_bounds(ints(oc@), select_shape(descs@, block)),
        indices_in_range(descs@, shape),
    ensures
        ints(src@) == source_index(descs@, block, ints(oc@)),
        in_bounds(ints(src@), shape),
{
    let n = descs.len();
    let ghost out_shape = select_shape(descs@, block);
    let ghost m = ints(oc@);
    let mut src: Vec<usize> = Vec::new();
    let mut d: usize = 0;
    while d < n
        invariant
            0 <= d <= n,
            n == descs@.len(),
            vals@.len() == n,
            shapes@.len() == n,
            strides@.len() == n,
            pos@.len() == n,
            shape.len() == n,
            out_shape == select_shape(descs@, block),
            m == ints(oc@),
            forall|d2: int| 0 <= d2 < n ==> ints((#[trigger] vals@[d2])@) == axis_values(descs@[d2]),
            forall|d2: int| 0 <= d2 < n ==> (#[trigger] shapes@[d2])@ == adv_dims(descs@[d2]),
            forall|d2: int| 0 <= d2 < n && is_adv(descs@[d2]) ==>
                #[trigger] adv_axis_ready(descs@[d2], vals@[d2]@, strides@[d2]@, block),
            forall|d2: int| 0 <= d2 < n ==> #[trigger] pos@[d2] as int == out_dims(descs@, block, d2).len(),
            bs as int == block_start(descs@),
            bl as int == block.len(),
            in_bounds(m, out_shape),
            indices_in_range(descs@, shape),
            src@.len() == d,
            forall|d2: int| 0 <= d2 < d ==> #[trigger] src@[d2] as int == source_coord(descs@, block, m, d2),
            forall|d2: int| 0 <= d2 < d ==> #[trigger] src@[d2] < shape[d2],
        decreases n - d,
    {
        let v = &vals[d];
        let vl = v.len();
        assert(ints(v@).len() == v@.len());
        if !is_adv_exec(&descs[d]) {
            let p = pos[d];
            proof {
                lemma_out_dims_prefix(descs@, block, d as int + 1, n as int);
                let pre = out_dims(descs@, block, d as int);
                match descs@[d as int] {
                    IndexDesc::Slice(a0, b0, c0) => {
                        assert(axis_values(descs@[d as int]) == slice_positions(a0 as int, b0 as int, c0 as int));
                        assert(axis_out(descs@, block, d as int) =~= seq![v@.len() as usize]);
                        assert(out_dims(descs@, block, d as int + 1) == pre + seq![v@.len() as usize]);
                        assert(out_shape[p as int] == out_dims(descs@, block, d as int + 1)[p as int]);
                        assert(p as int == pre.len());
                        assert(out_shape[p as int] == vl);
                    },
                    _ => {
                        assert(false);
                    },
                }
                assert(m[p as int] == oc@[p as int] as int);
            }
            let k = oc[p];
            proof {
                assert(axis_values(descs@[d as int])[k as int] == v@[k as int] as int);
                assert(0 <= axis_values(descs@[d as int])[k as int] < shape[d as int]);
            }
            src.push(v[k]);
        } else {
            let sh = &shapes[d];
            let st = &strides[d];
            let sl = sh.len();
            proof {
                lemma_first_adv(descs@, 0);
                if d < first_adv(descs@, 0) {
                    assert(!is_adv(descs@[d as int]));
                }
                lemma_block_place(descs@, block);
                assert(adv_axis_ready(descs@[d as int], vals@[d as int]@, strides@[d as int]@, block));
                assert(block_covers(block, adv_dims(descs@[d as int])));
                assert(m.len() == oc@.len());
            }
            let ol = oc.len();
            let ghost bc = m.subrange(bs as int, bs as int + bl as int);
            let mut rc: Vec<usize> = Vec::new();
            let mut dd: usize = 0;
            while dd < sl
                invariant
                    0 <= dd <= sl,
                    sl == sh@.len(),
                    sh@ == adv_dims(descs@[d as int]),
                    block_covers(block, sh@),
                    sl <= bl,
                    out_shape.len() == oc@.len(),
                    ol == oc@.len(),
                    bs as int + bl as int <= out_shape.len(),
                    out_shape.subrange(bs as int, bs as int + bl as int) == block,
                    bl as int == block.len(),
                    in_bounds(m, out_shape),
                    m == ints(oc@),
                    bc == m.subrange(bs as int, bs as int + bl as int),
                    rc@.len() == dd,
                    forall|e: int| 0 <= e < dd ==> #[trigger] rc@[e] as int == reduced_coords(bc, sh@)[e],
                    forall|e: int| 0 <= e < dd ==> #[trigger] rc@[e] < sh@[e],
                decreases sl - dd,
            {
                if sh[dd] == 1 {
                    rc.push(0);
                } else {
                    let q = bs + bl - sl + dd;
                    proof {
                        assert(sh@[dd as int] == 1 || block[block.len() - sl + dd] == sh@[dd as int]);
                        assert(out_shape[q as int] == block[bl - sl + dd]);
                        assert(m[q as int] == oc@[q as int] as int);
                        assert(bc[bc.len() - sl + dd] == m[q as int]);
                    }
                    rc.push(oc[q]);
                }
                dd = dd + 1;
            }
            proof {
                assert(ints(rc@) =~= reduced_coords(bc, sh@));
                assert(in_bounds(ints(rc@), sh@));
            }
            let f = ravel_exec(&rc, sh, st);
            proof {
                lemma_ravel_bound(ints(rc@), sh@);
                if sh@.len() == 0 {
                    assert(prod(sh@) == 1);
                }
                assert(axis_values(descs@[d as int])[f as int] == v@[f as int] as int);
                assert(0 <= axis_values(descs@[d as int])[f as int] < shape[d as int]);
                assert(source_coord(descs@, block, m, d as int) == axis_values(descs@[d as int])[f as int]);
            }
            src.push(v[f]);
        }
        d = d + 1;
    }
    proof {
        assert(ints(src@) =~= source_index(descs@, block, m));
    }
    src
}

/// The dimensions of each advanced index fit and describe as many positions as it holds.
proof fn lemma_adv_dims_fit(d: IndexDesc)
    requires
        desc_wf(d),
        is_adv(d),
        axis_values(d).len() <= usize::MAX,
    ensures
        dims_fit(adv_dims(d)),
        prod(adv_dims(d)) == axis_values(d).len(),
{
    let sh = adv_dims(d);
    match d {
        IndexDesc::Int(i) => {
            assert(sh =~= Seq::<usize>::empty());
            assert(prod(sh) == 1);
            assert(axis_values(d) =~= seq![i as int]);
            assert(axis_values(d).len() == 1);
            assert forall|i: int, j: int| 0 <= i <= j <= sh.len() implies #[trigger] prod(sh.subrange(i, j)) <= usize::MAX by {
                assert(sh.subrange(i, j).len() == 0);
            }
        },
        IndexDesc::Fancy(v) => {
            assert(axis_values(d).len() == v@.len());
            lemma_prod_single(sh);
            assert forall|i: int, j: int| 0 <= i <= j <= sh.len() implies #[trigger] prod(sh.subrange(i, j)) <= usize::MAX by {
                if i == j {
                    assert(sh.subrange(i, j).len() == 0);
                } else {
                    assert(sh.subrange(i, j) =~= sh);
                }
            }
        },
        _ => {},
    }
}

/// The shape of the result of indexing with `descs`, or `None` when their advanced indices do
/// not broadcast together.
pub fn selection_shape(descs: &Vec<IndexDesc>) -> (r: Option<Vec<usize>>)
    requires
        forall|d: int| 0 <= d < descs@.len() ==> desc_wf(#[trigger] descs@[d]),
    ensures
        r is Some <==> block_shape(descs@, descs@.len() as int) is Some,
        r matches Some(s) ==> s@ == select_shape(descs@, block_shape(descs@, descs@.len() as int)->0),
{
    let vals = all_axis_values(descs);
    match block_exec(descs) {
        None => None,
        Some(block) => Some(select_layout(descs, &vals, &block).0),
    }
}

/// Indexing with one index per axis, as in NumPy: a slice keeps its axis, an integer consumes
/// it, and arrays of positions (with the integers, once such an array is present) broadcast
/// together into one block of result dimensions, which stands where the advanced axes stand
/// when they are contiguous and first otherwise. Result element `m` is the source element
/// `source_index(descs, block, m)`. Advanced indices that do not broadcast are refused, then
/// positions outside their axis.
pub fn select_from<T: Copy>(a: &NdArray<T>, descs: &Vec<IndexDesc>) -> (r: Result<NdArray<T>, ArrayError>)
    requires
        a.wf(),
        dims_fit(a.shape@),
        descs@.len() == a.shape@.len(),
        forall|d: int| 0 <= d < descs@.len() ==> desc_wf(#[trigger] descs@[d]),
        block_shape(descs@, descs@.len() as int) matches Some(b) ==> dims_fit(select_shape(descs@, b)),
    ensures
        r is Ok <==> block_shape(descs@, descs@.len() as int) is Some && indices_in_range(descs@, a.shape@),
        r matches Err(e) ==> (block_shape(descs@, descs@.len() as int) is None ==> e == ArrayError::ShapeMismatch)
            && (block_shape(descs@, descs@.len() as int) is Some ==> e == ArrayError::IndexOutOfBounds),
        r matches Ok(out) ==> {
            let b = block_shape(descs@, descs@.len() as int)->0;
            &&& out.wf()
            &&& out.shape@ == select_shape(descs@, b)
            &&& forall|m: Seq<int>| in_bounds(m, out.shape@) ==>
                #[trigger] out.data@[ravel(m, out.shape@)] == a.data@[ravel(source_index(descs@, b, m), a.shape@)]
            &&& forall|m: Seq<int>| #[trigger] in_bounds(m, out.shape@) ==> in_bounds(source_index(descs@, b, m), a.shape@)
        },
{
    let n = descs.len();
    let vals = all_axis_values(descs);
    let block = match block_exec(descs) {
        None => {
            return Err(ArrayError::ShapeMismatch);
        },
        Some(b) => b,
    };
    if !check_range(descs, &vals, &a.shape) {
        return Err(ArrayError::IndexOutOfBounds);
    }
    let (out_shape, pos) = select_layout(descs, &vals, &block);
    let contig = adv_contiguous_exec(descs);
    let first = first_adv_exec(descs);
    let bs: usize = if contig { first } else { 0 };
    let bl = block.len();
    let mut shapes: Vec<Vec<usize>> = Vec::new();
    let mut strides: Vec<Vec<usize>> = Vec::new();
    let mut d: usize = 0;
    while d < n
        invariant
            0 <= d <= n,
            n == descs@.len(),
            vals@.len() == n,
            block_shape(descs@, n as int) == Some(block@),
            forall|d2: int| 0 <= d2 < n ==> desc_wf(#[trigger] descs@[d2]),
            forall|d2: int| 0 <= d2 < n ==> ints((#[trigger] vals@[d2])@) == axis_values(descs@[d2]),
            shapes@.len() == d,
            strides@.len() == d,
            forall|d2: int| 0 <= d2 < d ==> (#[trigger] shapes@[d2])@ == adv_dims(descs@[d2]),
            forall|d2: int| 0 <= d2 < d && is_adv(descs@[d2]) ==>
                #[trigger] adv_axis_ready(descs@[d2], vals@[d2]@, strides@[d2]@, block@),
        decreases n - d,
    {
        let sh = adv_dims_exec(&descs[d]);
        if is_adv_exec(&descs[d]) {
            let vl = vals[d].len();
            proof {
                assert(ints(vals@[d as int]@).len() == vals@[d as int]@.len());
                lemma_adv_dims_fit(descs@[d as int]);
                lemma_block_covers(descs@, n as int, d as int);
                assert(ints(vals@[d as int]@).len() == vals@[d as int]@.len());
            }
            strides.push(compute_strides(&sh));
        } else {
            strides.push(Vec::new());
        }
        shapes.push(sh);
        d = d + 1;
    }
    let total = shape_size(&out_shape);
    let src_strides = compute_strides(&a.shape);
    let ghost os = out_shape@;
    let mut data: Vec<T> = Vec::new();
    let mut lin: usize = 0;
    while lin < total
        invariant
            0 <= lin <= total,
            total == prod(os),
            os == out_shape@,
            os == select_shape(descs@, block@),
            n == descs@.len(),
            a.wf(),
            dims_fit(a.shape@),
            a.shape@.len() == n,
            vals@.len() == n,
            shapes@.len() == n,
            strides@.len() == n,
            pos@.len() == n,
            src_strides@.len() == a.shape@.len(),
            forall|e: int| 0 <= e < a.shape@.len() ==> #[trigger] src_strides@[e] == stride(a.shape@, e),
            forall|d2: int| 0 <= d2 < n ==> ints((#[trigger] vals@[d2])@) == axis_values(descs@[d2]),
            forall|d2: int| 0 <= d2 < n ==> (#[trigger] shapes@[d2])@ == adv_dims(descs@[d2]),
            forall|d2: int| 0 <= d2 < n && is_adv(descs@[d2]) ==>
                #[trigger] adv_axis_ready(descs@[d2], vals@[d2]@, strides@[d2]@, block@),
            forall|d2: int| 0 <= d2 < n ==> #[trigger] pos@[d2] as int == out_dims(descs@, block@, d2).len(),
            bs as int == block_start(descs@),
            bl as int == block@.len(),
            indices_in_range(descs@, a.shape@),
            data@.len() == lin,
            forall|l: int| 0 <= l < lin ==> #[trigger] data@[l]
                == a.data@[ravel(source_index(descs@, block@, unravel(l, os)), a.shape@)],
            forall|l: int| 0 <= l < lin ==> in_bounds(source_index(descs@, block@, #[trigger] unravel(l, os)), a.shape@),
        decreases total - lin,
    {
        proof {
            assert forall|j: int| 0 <= j < os.len() implies #[trigger] os[j] > 0 by {
                if os[j] == 0 {
                    lemma_prod_zero(os, j);
                }
            }
            crate::strides::lemma_ravel_unravel(lin as int, os);
        }
        let oc = flat_to_multi(lin, &out_shape);
        proof {
            assert(ints(oc@) =~= unravel(lin as int, os));
        }
        let src = source_exec(descs, &vals, &shapes, &strides, &oc, &pos, bs, bl, Ghost(block@), Ghost(a.shape@));
        let off = ravel_exec(&src, &a.shape, &src_strides);
        proof {
            lemma_ravel_bound(ints(src@), a.shape@);
            if a.shape@.len() == 0 {
                assert(prod(a.shape@) == 1);
            }
        }
        data.push(a.data[off]);
        lin = lin + 1;
    }
    proof {
        assert forall|m: Seq<int>| in_bounds(m, os) implies
            #[trigger] data@[ravel(m, os)] == a.data@[ravel(source_index(descs@, block@, m), a.shape@)] by {
            lemma_ravel_bound(m, os);
            if os.len() == 0 {
                assert(prod(os) == 1);
            }
            lemma_unravel_ravel(m, os);
        }
        assert forall|m: Seq<int>| #[trigger] in_bounds(m, os) implies in_bounds(source_index(descs@, block@, m), a.shape@) by {
            lemma_ravel_bound(m, os);
            if os.len() == 0 {
                assert(prod(os) == 1);
            }
            lemma_unravel_ravel(m, os);
            assert(in_bounds(source_index(descs@, block@, unravel(ravel(m, os), os)), a.shape@));
        }
    }
    Ok(NdArray { data, shape: out_shape })
}

/// Start, stop and step of a slice over an axis of `length` elements, resolved as Python's
/// `slice.indices` does: a missing step is one; negative bounds count from the end; bounds are
/// clamped to `[0, length]`, or to `[-1, length - 1]` for a negative step; a missing start or
/// stop is the end the step runs from or to.
pub open spec fn resolved_slice(start: Option<isize>, stop: Option<isize>, step: Option<isize>, length: int) -> (int, int, int) {
    let st: int = match step { Some(s) => s as int, None => 1 };
    let lower: int = if st < 0 { -1 } else { 0 };
    let upper: int = if st < 0 { length - 1 } else { length };
    let clamp = |v: int| if v < lower { lower } else if v > upper { upper } else { v };
    let b = match start {
        Some(s) => clamp(if s < 0 { s + length } else { s as int }),
        None => if st < 0 { upper } else { lower },
    };
    let e = match stop {
        Some(s) => clamp(if s < 0 { s + length } else { s as int }),
        None => if st < 0 { lower } else { upper },
    };
    (b, e, st)
}

/// Resolves a slice against an axis of `length` elements; a zero step is refused.
pub fn normalize_slice(start: Option<isize>, stop: Option<isize>, step: Option<isize>, length: isize)
    -> (r: Result<(isize, isize, isize), ArrayError>)
    requires
        length >= 0,
    ensures
        r is Err <==> step == Some(0isize),
        r is Err ==> r == Err::<(isize, isize, isize), ArrayError>(ArrayError::ZeroStep),
        r matches Ok(t) ==> (t.0 as int, t.1 as int, t.2 as int) == resolved_slice(start, stop, step, length as int),
{
    let st: isize = match step {
        Some(s) => s,
        None => 1,
    };
    if st == 0 {
        return Err(ArrayError::ZeroStep);
    }
    let (lower, upper): (isize, isize) = if st < 0 { (-1, length - 1) } else { (0, length) };
    let b: isize = match start {
        Some(s0) => {
            let s = if s0 < 0 { s0 + length } else { s0 };
            if s < lower { lower } else if s > upper { upper } else { s }
        },
        None => if st < 0 { upper } else { lower },
    };
    let e: isize = match stop {
        Some(s0) => {
            let s = if s0 < 0 { s0 + length } else { s0 };
            if s < lower { lower } else if s > upper { upper } else { s }
        },
        None => if st < 0 { lower } else { upper },
    };
    Ok((b, e, st))
}

/// Every position of a resolved slice lies inside the axis.
pub proof fn law_resolved_slice_in_range(start: Option<isize>, stop: Option<isize>, step: Option<isize>, length: int)
    requires
        length >= 0,
        step != Some(0isize),
    ensures
        ({
            let (b, e, st) = resolved_slice(start, stop, step, length);
            forall|j: int| 0 <= j < slice_positions(b, e, st).len() ==>
                0 <= #[trigger] slice_positions(b, e, st)[j] < length
        }),
{
    let (b, e, st) = resolved_slice(start, stop, step, length);
    lemma_slice_positions_bounds(b, e, st);
}

/// A slice resolves as Python's `slice.indices` resolves it. With a positive step, a bound
/// `s` with `-length <= s < 0` counts from the end and names `s + length`, a bound in
/// `[0, length]` names itself, and a bound past either end is cut to `0` or `length`; a
/// missing start is `0` and a missing stop is `length`. With a negative step, a bound with
/// `-length <= s < 0` names `s + length`, one in `[0, length)` names itself, one at or past
/// `length` names `length - 1` and one before `-length` names `-1`; a missing start is
/// `length - 1` and a missing stop is `-1`. A missing step is one.
pub proof fn law_slice_resolves_as_python(start: Option<isize>, stop: Option<isize>, step: Option<isize>, length: int)
    requires
        length >= 0,
        step != Some(0isize),
    ensures
        ({
            let (b, e, st) = resolved_slice(start, stop, step, length);
            &&& step is None ==> st == 1
            &&& step is Some ==> st == step->0
            &&& st > 0 ==> {
                &&& start is None ==> b == 0
                &&& start is Some && start->0 < -length ==> b == 0
                &&& start is Some && -length <= start->0 < 0 ==> b == start->0 + length
                &&& start is Some && 0 <= start->0 <= length ==> b == start->0
                &&& start is Some && start->0 > length ==> b == length
                &&& stop is None ==> e == length
                &&& stop is Some && stop->0 < -length ==> e == 0
                &&& stop is Some && -length <= stop->0 < 0 ==> e == stop->0 + length
                &&& stop is Some && 0 <= stop->0 <= length ==> e == stop->0
                &&& stop is Some && stop->0 > length ==> e == length
            }
            &&& st < 0 ==> {
                &&& start is None ==> b == length - 1
                &&& start is Some && start->0 < -length ==> b == -1
                &&& start is Some && -length <= start->0 < 0 ==> b == start->0 + length
                &&& start is Some && 0 <= start->0 < length ==> b == start->0
                &&& start is Some && start->0 >= length ==> b == length - 1
                &&& stop is None ==> e == -1
                &&& stop is Some && stop->0 < -length ==> e == -1
                &&& stop is Some && -length <= stop->0 < 0 ==> e == stop->0 + length
                &&& stop is Some && 0 <= stop->0 < length ==> e == stop->0
                &&& stop is Some && stop->0 >= length ==> e == length - 1
            }
        }),
{
}

/// An index is well formed once its slice has been resolved against an axis.
pub proof fn lemma_resolved_slice_wf(start: Option<isize>, stop: Option<isize>, step: Option<isize>, length: int)
    requires
        length >= 0,
        step != Some(0isize),
    ensures
        ({
            let (b, e, st) = resolved_slice(start, stop, step, length);
            (st > 0 && b < e ==> b >= 0) && (st < 0 ==> e >= -1)
        }),
{
}

/// The indices padded with full slices over the remaining axes.
pub open spec fn padded_indices(descs: Seq<IndexDesc>, shape: Seq<usize>) -> Seq<IndexDesc> {
    Seq::new(shape.len(), |d: int| if d < descs.len() { descs[d] } else { IndexDesc::Slice(0, shape[d] as isize, 1) })
}

/// Indexing with fewer indices than axes: the missing trailing axes are taken whole.
pub fn getitem_multi<T: Copy>(a: &NdArray<T>, descs: Vec<IndexDesc>) -> (r: Result<NdArray<T>, ArrayError>)
    requires
        a.wf(),
        dims_fit(a.shape@),
        descs@.len() <= a.shape@.len(),
        forall|d: int| 0 <= d < a.shape@.len() ==> #[trigger] a.shape@[d] <= isize::MAX,
        forall|d: int| 0 <= d < descs@.len() ==> desc_wf(#[trigger] descs@[d]),
        block_shape(padded_indices(descs@, a.shape@), a.shape@.len() as int) matches Some(b) ==>
            dims_fit(select_shape(padded_indices(descs@, a.shape@), b)),
    ensures
        ({
            let p = padded_indices(descs@, a.shape@);
            let bs = block_shape(p, a.shape@.len() as int);
            &&& (r is Ok <==> bs is Some && indices_in_range(p, a.shape@))
            &&& (r matches Err(e) ==> (bs is None ==> e == ArrayError::ShapeMismatch)
                && (bs is Some ==> e == ArrayError::IndexOutOfBounds))
            &&& (r matches Ok(out) ==> {
                &&& out.wf()
                &&& out.shape@ == select_shape(p, bs->0)
                &&& forall|m: Seq<int>| in_bounds(m, out.shape@) ==>
                    #[trigger] out.data@[ravel(m, out.shape@)] == a.data@[ravel(source_index(p, bs->0, m), a.shape@)]
            })
        }),
{
    let mut filled = descs;
    let ghost orig = filled@;
    while filled.len() < a.shape.len()
        invariant
            orig.len() <= filled@.len() <= a.shape@.len(),
            forall|d: int| 0 <= d < a.shape@.len() ==> #[trigger] a.shape@[d] <= isize::MAX,
            forall|d: int| 0 <= d < filled@.len() ==> #[trigger] filled@[d] == padded_indices(orig, a.shape@)[d],
        decreases a.shape@.len() - filled@.len(),
    {
        let dim = a.shape[filled.len()] as isize;
        filled.push(IndexDesc::Slice(0, dim, 1));
    }
    assert(filled@ =~= padded_indices(orig, a.shape@));
    select_from(a, &filled)
}

/// Position along axis `d` named by a scalar index: given ones may be negative, counting
/// from the end; axes not given are taken at position zero.
pub open spec fn scalar_coord(indices: Seq<isize>, shape: Seq<usize>, d: int) -> int {
    if d < indices.len() {
        if indices[d] < 0 { indices[d] + shape[d] } else { indices[d] as int }
    } else {
        0
    }
}

/// The given positions all lie inside their axes.
pub open spec fn scalar_given_in_range(indices: Seq<isize>, shape: Seq<usize>) -> bool {
    forall|d: int| 0 <= d < indices.len() ==> 0 <= #[trigger] scalar_coord(indices, shape, d) < shape[d]
}

/// The element at a full or partial multi-index; negative positions count from the end, and
/// the axes not given are taken at position zero.
pub fn getitem_scalar<T: Copy>(a: &NdArray<T>, indices: &Vec<isize>) -> (r: Result<T, ArrayError>)
    requires
        a.wf(),
        dims_fit(a.shape@),
        indices@.len() <= a.shape@.len(),
        forall|d: int| 0 <= d < a.shape@.len() ==> #[trigger] a.shape@[d] <= isize::MAX,
        scalar_given_in_range(indices@, a.shape@) ==>
            forall|d: int| indices@.len() <= d < a.shape@.len() ==> #[trigger] a.shape@[d] > 0,
    ensures
        r is Ok <==> scalar_given_in_range(indices@, a.shape@),
        r is Err ==> r == Err::<T, ArrayError>(ArrayError::IndexOutOfBounds),
        r matches Ok(v) ==> {
            let m = Seq::new(a.shape@.len(), |d: int| scalar_coord(indices@, a.shape@, d));
            in_bounds(m, a.shape@) && v == a.data@[ravel(m, a.shape@)]
        },
{
    let n = a.shape.len();
    let ghost m = Seq::new(a.shape@.len(), |d: int| scalar_coord(indices@, a.shape@, d));
    let mut coords: Vec<usize> = Vec::new();
    let mut d: usize = 0;
    while d < indices.len()
        invariant
            0 <= d <= indices@.len(),
            n == a.shape@.len(),
            indices@.len() <= n,
            forall|d2: int| 0 <= d2 < n ==> #[trigger] a.shape@[d2] <= isize::MAX,
            m == Seq::new(a.shape@.len(), |d: int| scalar_coord(indices@, a.shape@, d)),
            coords@.len() == d,
            forall|d2: int| 0 <= d2 < d ==> #[trigger] coords@[d2] as int == m[d2],
            forall|d2: int| 0 <= d2 < d ==> 0 <= #[trigger] scalar_coord(indices@, a.shape@, d2) < a.shape@[d2],
        decreases indices@.len() - d,
    {
        let idx = indices[d];
        let dim = a.shape[d] as isize;
        let actual = if idx < 0 { dim + idx } else { idx };
        if actual < 0 || actual >= dim {
            proof {
                assert(!(0 <= scalar_coord(indices@, a.shape@, d as int) < a.shape@[d as int]));
            }
            return Err(ArrayError::IndexOutOfBounds);
        }
        coords.push(actual as usize);
        d = d + 1;
    }
    assert(scalar_given_in_range(indices@, a.shape@));
    while d < n
        invariant
            indices@.len() <= d <= n,
            n == a.shape@.len(),
            m == Seq::new(a.shape@.len(), |d: int| scalar_coord(indices@, a.shape@, d)),
            forall|d2: int| indices@.len() <= d2 < n ==> #[trigger] a.shape@[d2] > 0,
            coords@.len() == d,
            forall|d2: int| 0 <= d2 < d ==> #[trigger] coords@[d2] as int == m[d2],
            forall|d2: int| 0 <= d2 < indices@.len() ==> 0 <= #[trigger] scalar_coord(indices@, a.shape@, d2) < a.shape@[d2],
        decreases n - d,
    {
        coords.push(0);
        d = d + 1;
    }
    let strides = compute_strides(&a.shape);
    assert(ints(coords@) =~= m);
    assert(in_bounds(m, a.shape@)) by {
        assert forall|d2: int| 0 <= d2 < a.shape@.len() implies 0 <= #[trigger] m[d2] < a.shape@[d2] by {
            if d2 < indices@.len() {
                assert(0 <= scalar_coord(indices@, a.shape@, d2) < a.shape@[d2]);
            }
        }
    }
    let off = ravel_exec(&coords, &a.shape, &strides);
    proof {
        lemma_ravel_bound(m, a.shape@);
        if n == 0 {
            assert(prod(a.shape@) == 1);
        }
    }
    Ok(a.data[off])
}

} // verus!

use vstd::prelude::*;
use crate::array::{ArrayError, NdArray};
use crate::shape::{checked_size, dims_fit, lemma_prod_zero, prod};
use crate::strides::{compute_strides, flat_to_multi, ravel, ravel_from, stride, unravel_coord};

verus! {

/// The number of positions `start, start + step, ...` below `stop`, with steps below 1
/// counted as 1.
pub open spec fn range_len(r: (i64, i64, i64)) -> int {
    let st = if r.2 < 1 { 1 } else { r.2 as int };
    if r.1 <= r.0 { 0 } else { (r.1 - r.0 + st - 1) / st }
}

/// The shape of the block that the ranges select.
pub open spec fn block_shape(ranges: Seq<(i64, i64, i64)>) -> Seq<usize> {
    Seq::new(ranges.len(), |d: int| range_len(ranges[d]) as usize)
}

/// The source coordinates of element `j` (C order) of the selected block.
pub open spec fn block_coords(ranges: Seq<(i64, i64, i64)>, j: int) -> Seq<int> {
    Seq::new(ranges.len(), |d: int| ranges[d].0 + unravel_coord(j, block_shape(ranges), d) * ranges[d].2)
}

/// The largest source coordinates that the block reaches.
pub open spec fn block_last_coords(ranges: Seq<(i64, i64, i64)>) -> Seq<int> {
    Seq::new(ranges.len(), |d: int| ranges[d].0 + (range_len(ranges[d]) - 1) * ranges[d].2)
}

/// Every range is short enough for its length to be computed in `i64` and `usize`.
pub open spec fn range_measurable(r: (i64, i64, i64)) -> bool {
    let st = if r.2 < 1 { 1 } else { r.2 as int };
    &&& (r.0 < r.1 ==> r.1 - r.0 + st - 1 <= i64::MAX)
    &&& range_len(r) <= usize::MAX
}

/// A range of a nonempty block starts at 0 or later, steps forward and stays within `i64`
/// one step past its end.
pub open spec fn range_walkable(r: (i64, i64, i64)) -> bool {
    &&& r.0 >= 0
    &&& r.2 > 0
    &&& r.1 - 1 + r.2 <= i64::MAX
}

/// The ranges can be walked as given: every range can be measured, the block's size fits in
/// `usize`, and, when the block is not empty, every range can be walked and the positions it
/// reaches fit in `usize`.
pub open spec fn ranges_walkable(ranges: Seq<(i64, i64, i64)>, shape: Seq<usize>) -> bool {
    &&& forall|d: int| 0 <= d < ranges.len() ==> range_measurable(#[trigger] ranges[d])
    &&& prod(block_shape(ranges)) <= usize::MAX
    &&& prod(block_shape(ranges)) > 0 ==> {
        &&& forall|d: int| 0 <= d < ranges.len() ==> range_walkable(#[trigger] ranges[d])
        &&& forall|d: int| 0 <= d < ranges.len() ==> #[trigger] block_last_coords(ranges)[d] <= usize::MAX
        &&& ravel(block_last_coords(ranges), shape) <= usize::MAX
    }
}

proof fn lemma_walk_facts(ranges: Seq<(i64, i64, i64)>, shape: Seq<usize>)
    requires
        ranges_walkable(ranges, shape),
        prod(block_shape(ranges)) > 0,
    ensures
        forall|e: int| 0 <= e < ranges.len() ==> #[trigger] ranges[e].0 >= 0 && ranges[e].2 > 0
            && ranges[e].1 - 1 + ranges[e].2 <= i64::MAX,
        forall|e: int| 0 <= e < ranges.len() ==> #[trigger] block_last_coords(ranges)[e] <= usize::MAX,
        ravel(block_last_coords(ranges), shape) <= usize::MAX,
{
    assert forall|e: int| 0 <= e < ranges.len() implies #[trigger] ranges[e].0 >= 0 && ranges[e].2 > 0
        && ranges[e].1 - 1 + ranges[e].2 <= i64::MAX by {
        assert(range_walkable(ranges[e]));
    }
}

proof fn lemma_ravel_from_mono(m1: Seq<int>, m2: Seq<int>, s: Seq<usize>, d: int)
    requires
        0 <= d <= s.len(),
        m1.len() == s.len(),
        m2.len() == s.len(),
        forall|e: int| 0 <= e < s.len() ==> 0 <= #[trigger] m1[e] <= m2[e],
    ensures
        0 <= ravel_from(m1, s, d) <= ravel_from(m2, s, d),
        ravel_from(m2, s, d) <= ravel_from(m2, s, 0),
    decreases s.len() - d,
{
    assert forall|e: int| 0 <= e < s.len() implies 0 <= #[trigger] m2[e] by {
        assert(0 <= m1[e] <= m2[e]);
    }
    if d < s.len() {
        lemma_ravel_from_mono(m1, m2, s, d + 1);
        let st = stride(s, d) as int;
        assert(0 <= m1[d] * st <= m2[d] * st) by (nonlinear_arith) requires 0 <= m1[d] <= m2[d], st >= 0;
    } else {
        lemma_ravel_from_nonneg(m1, s, d);
    }
    lemma_ravel_from_prefix(m2, s, d);
}

proof fn lemma_ravel_from_prefix(m: Seq<int>, s: Seq<usize>, d: int)
    requires
        0 <= d <= s.len(),
        m.len() == s.len(),
        forall|e: int| 0 <= e < s.len() ==> 0 <= #[trigger] m[e],
    ensures
        0 <= ravel_from(m, s, d) <= ravel_from(m, s, 0),
    decreases d,
{
    if d > 0 {
        lemma_ravel_from_prefix(m, s, d - 1);
        lemma_ravel_from_nonneg(m, s, d);
        let st = stride(s, d - 1) as int;
        assert(m[d - 1] * st >= 0) by (nonlinear_arith) requires m[d - 1] >= 0, st >= 0;
    } else {
        lemma_ravel_from_nonneg(m, s, 0);
    }
}

proof fn lemma_ravel_from_nonneg(m: Seq<int>, s: Seq<usize>, d: int)
    requires
        0 <= d <= s.len(),
        m.len() == s.len(),
        forall|e: int| 0 <= e < s.len() ==> 0 <= #[trigger] m[e],
    ensures
        0 <= ravel_from(m, s, d),
    decreases s.len() - d,
{
    if d < s.len() {
        lemma_ravel_from_nonneg(m, s, d + 1);
        let st = stride(s, d) as int;
        assert(m[d] * st >= 0) by (nonlinear_arith) requires m[d] >= 0, st >= 0;
    }
}

proof fn lemma_range_last(r: (i64, i64, i64), c: int)
    requires
        r.0 < r.1,
        r.2 > 0,
        0 <= c < range_len(r),
    ensures
        r.0 + c * r.2 <= r.0 + (range_len(r) - 1) * r.2,
        r.0 + (range_len(r) - 1) * r.2 < r.1,
{
    let st = r.2 as int;
    let n = range_len(r);
    let w = r.1 - r.0;
    assert(n == (w + st - 1) / st);
    vstd::arithmetic::div_mod::lemma_fundamental_div_mod(w + st - 1, st);
    vstd::arithmetic::div_mod::lemma_mod_bound(w + st - 1, st);
    assert((n - 1) * st < w) by (nonlinear_arith)
        requires w + st - 1 == st * n + (w + st - 1) % st, 0 <= (w + st - 1) % st < st, st > 0;
    assert(c * st <= (n - 1) * st) by (nonlinear_arith) requires c <= n - 1, st > 0;
}

/// Selects the block `start..stop` by `step` in every dimension (one range per dimension),
/// reading source position `ravel(block_coords)` for each element of the block in C order.
/// A list of ranges whose length differs from the number of dimensions is refused, and so is
/// a block that reaches a position beyond the data.
pub fn tuple_getitem<T: Copy>(a: &NdArray<T>, ranges: &Vec<(i64, i64, i64)>) -> (r: Result<NdArray<T>, ArrayError>)
    requires
        a.wf(),
        dims_fit(a.shape@),
        ranges@.len() == a.shape@.len() ==> ranges_walkable(ranges@, a.shape@),
    ensures
        ranges@.len() != a.shape@.len() ==> r == Err::<NdArray<T>, ArrayError>(ArrayError::InvalidArgument),
        ranges@.len() == a.shape@.len() ==> {
            let total = prod(block_shape(ranges@));
            let reachable = forall|j: int| 0 <= j < total ==> #[trigger] ravel(block_coords(ranges@, j), a.shape@) < a.data@.len();
            &&& !reachable ==> r == Err::<NdArray<T>, ArrayError>(ArrayError::ShapeMismatch)
            &&& reachable ==> (r matches Ok(t) && {
                &&& t.wf()
                &&& t.shape@ == block_shape(ranges@)
                &&& forall|j: int| 0 <= j < total ==> #[trigger] t.data@[j] == a.data@[ravel(block_coords(ranges@, j), a.shape@)]
            })
        },
{
    let nd = a.shape.len();
    if ranges.len() != nd {
        return Err(ArrayError::InvalidArgument);
    }
    let mut oshape: Vec<usize> = Vec::new();
    let mut d: usize = 0;
    while d < nd
        invariant
            0 <= d <= nd,
            nd == ranges@.len(),
            ranges_walkable(ranges@, a.shape@),
            oshape@ == block_shape(ranges@).take(d as int),
        decreases nd - d,
    {
        let (s, e, st) = ranges[d];
        assert(ranges@[d as int] == (s, e, st));
        assert(range_measurable(ranges@[d as int]));
        let st1: i64 = if st < 1 { 1 } else { st };
        let len: usize = if e <= s { 0 } else { (((e - s) + (st1 - 1)) / st1) as usize };
        oshape.push(len);
        d = d + 1;
        proof {
            assert(oshape@ =~= block_shape(ranges@).take(d as int));
        }
    }
    proof {
        assert(oshape@ =~= block_shape(ranges@));
    }
    let total = match checked_size(&oshape) {
        Some(t) => t,
        None => 0,
    };
    let strides = compute_strides(&a.shape);
    let dlen = a.data.len();
    let mut out: Vec<T> = Vec::new();
    let mut j: usize = 0;
    while j < total
        invariant
            0 <= j <= total,
            total == prod(block_shape(ranges@)),
            nd == ranges@.len(),
            nd == a.shape@.len(),
            dlen == a.data@.len(),
            oshape@ == block_shape(ranges@),
            ranges_walkable(ranges@, a.shape@),
            strides@.len() == nd,
            forall|e: int| 0 <= e < nd ==> #[trigger] strides@[e] == stride(a.shape@, e),
            out@.len() == j,
            forall|j2: int| 0 <= j2 < j ==> #[trigger] ravel(block_coords(ranges@, j2), a.shape@) < a.data@.len(),
            forall|j2: int| 0 <= j2 < j ==> #[trigger] out@[j2] == a.data@[ravel(block_coords(ranges@, j2), a.shape@)],
        decreases total - j,
    {
        proof {
            assert forall|e: int| 0 <= e < nd implies #[trigger] oshape@[e] > 0 by {
                if oshape@[e] == 0 {
                    lemma_prod_zero(oshape@, e);
                }
            }
        }
        let multi = flat_to_multi(j, &oshape);
        let ghost coords = block_coords(ranges@, j as int);
        let ghost last = block_last_coords(ranges@);
        proof {
            assert forall|e: int| 0 <= e < nd implies 0 <= #[trigger] coords[e] <= last[e] < ranges@[e].1 by {
                let c = unravel_coord(j as int, oshape@, e);
                assert(multi@[e] as int == c);
                assert(0 <= c < oshape@[e]) by {
                    vstd::arithmetic::div_mod::lemma_mod_bound(j as int / (stride(oshape@, e) as int), oshape@[e] as int);
                }
                assert(ranges@[e].0 < ranges@[e].1) by {
                    if ranges@[e].1 <= ranges@[e].0 {
                        assert(range_len(ranges@[e]) == 0);
                    }
                }
                lemma_walk_facts(ranges@, a.shape@);
                lemma_range_last(ranges@[e], c);
                assert(0 <= c * ranges@[e].2) by (nonlinear_arith) requires c >= 0, ranges@[e].2 > 0;
                assert(coords[e] == ranges@[e].0 + (multi@[e] as int) * ranges@[e].2);
                assert(last[e] <= usize::MAX);
            }
            lemma_ravel_from_mono(coords, last, a.shape@, 0);
            lemma_walk_facts(ranges@, a.shape@);
        }
        let mut flat: usize = 0;
        let mut e: usize = nd;
        while e > 0
            invariant
                0 <= e <= nd,
                nd == a.shape@.len(),
                nd == ranges@.len(),
                multi@.len() == nd,
                coords == block_coords(ranges@, j as int),
                forall|e2: int| 0 <= e2 < nd ==> 0 <= #[trigger] coords[e2] <= last[e2] < ranges@[e2].1,
                forall|e2: int| 0 <= e2 < nd ==> #[trigger] coords[e2] == ranges@[e2].0 + (multi@[e2] as int) * ranges@[e2].2,
                forall|e2: int| 0 <= e2 < nd ==> #[trigger] ranges@[e2].2 > 0 && ranges@[e2].0 >= 0,
                forall|e2: int| 0 <= e2 < nd ==> #[trigger] last[e2] <= usize::MAX,
                ravel(last, a.shape@) <= usize::MAX,
                last == block_last_coords(ranges@),
                strides@.len() == nd,
                forall|e2: int| 0 <= e2 < nd ==> #[trigger] strides@[e2] == stride(a.shape@, e2),
                flat as int == ravel_from(coords, a.shape@, e as int),
            decreases e,
        {
            let d = e - 1;
            proof {
                lemma_ravel_from_mono(coords, last, a.shape@, d as int);
                assert(coords[d as int] * (stride(a.shape@, d as int) as int) + ravel_from(coords, a.shape@, e as int)
                    == ravel_from(coords, a.shape@, d as int));
            }
            let (s, _stop, st) = ranges[d];
            proof {
                let md = multi@[d as int] as int;
                assert(ranges@[d as int] == (s, _stop, st));
                assert(md * st >= 0) by (nonlinear_arith) requires md >= 0, st > 0;
                assert(md <= md * st) by (nonlinear_arith) requires md >= 0, st >= 1;
                assert(coords[d as int] == s + md * st);
                assert(coords[d as int] <= last[d as int]);
                assert(md * st <= i64::MAX);
            }
            let c: i64 = s + (multi[d] as i64) * st;
            let cu = c as usize;
            proof {
                assert(cu as int == coords[d as int]);
                let sd = stride(a.shape@, d as int) as int;
                assert(0 <= coords[d as int] * sd) by (nonlinear_arith) requires coords[d as int] >= 0, sd >= 0;
            }
            flat = cu * strides[d] + flat;
            e = d;
        }
        assert(flat as int == ravel(block_coords(ranges@, j as int), a.shape@));
        if flat < dlen {
            let ghost before = out@;
            out.push(a.data[flat]);
            proof {
                assert forall|j2: int| 0 <= j2 < j + 1 implies #[trigger] out@[j2] == a.data@[ravel(block_coords(ranges@, j2), a.shape@)] by {
                    if j2 < j {
                        assert(out@[j2] == before[j2]);
                    }
                }
            }
        } else {
            assert(ravel(block_coords(ranges@, j as int), a.shape@) >= a.data@.len());
            return Err(ArrayError::ShapeMismatch);
        }
        j = j + 1;
    }
    Ok(NdArray { data: out, shape: oshape })
}

} // verus!

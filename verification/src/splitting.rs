use vstd::prelude::*;
use crate::array::{axis_ok, gather_along, norm_axis, normalize_axis, ArrayError, NdArray};
use crate::layout::gathered;
use crate::shape::{dims_fit, post_of, pre_of, prod};

verus! {

/// How an axis is split: into a number of near-equal sections, or at the given positions
/// (negative ones count from the end).
pub enum SplitSpec {
    Sections(usize),
    Indices(Vec<isize>),
}

/// Section boundaries `size * i / n` for `i` in `1..n`.
pub open spec fn section_points(size: int, n: int) -> Seq<usize> {
    Seq::new(if n >= 1 { (n - 1) as nat } else { 0 }, |i: int| (size * (i + 1) / n) as usize)
}

/// The positions kept from a list of split positions: negative ones count from the end, and
/// those falling outside `0..=size` are dropped.
pub open spec fn index_points(idx: Seq<isize>, size: int) -> Seq<usize>
    decreases idx.len(),
{
    if idx.len() == 0 {
        Seq::empty()
    } else {
        let rest = index_points(idx.drop_last(), size);
        let v = idx.last() as int;
        let p = if v < 0 { size + v } else { v };
        if 0 <= p <= size { rest.push(p as usize) } else { rest }
    }
}

/// The sequence without repeats of consecutive equal elements (the first of each run stays).
pub open spec fn dedup_seq(s: Seq<usize>) -> Seq<usize>
    decreases s.len(),
{
    if s.len() <= 1 {
        s
    } else if s.last() == s[s.len() - 2] {
        dedup_seq(s.drop_last())
    } else {
        dedup_seq(s.drop_last()).push(s.last())
    }
}

/// Split points before the ends are added.
pub open spec fn spec_inner(spec: SplitSpec, size: int) -> Seq<usize> {
    match spec {
        SplitSpec::Sections(n) => section_points(size, n as int),
        SplitSpec::Indices(v) => index_points(v@, size),
    }
}

/// Boundaries of the pieces: zero, the split points, and the axis length, without consecutive
/// repeats.
pub open spec fn split_points(spec: SplitSpec, size: int) -> Seq<usize> {
    dedup_seq(seq![0usize] + spec_inner(spec, size) + seq![size as usize])
}

/// Positions `start..end` (none when `end <= start`).
pub open spec fn range_positions(start: int, end: int) -> Seq<usize> {
    Seq::new(if end > start { (end - start) as nat } else { 0 }, |k: int| (start + k) as usize)
}

/// Dedup keeps at least one element when there is one, and the first element.
proof fn lemma_dedup_first(s: Seq<usize>)
    requires
        s.len() >= 1,
    ensures
        dedup_seq(s).len() >= 1,
        dedup_seq(s)[0] == s[0],
    decreases s.len(),
{
    if s.len() > 1 {
        lemma_dedup_first(s.drop_last());
    }
}

/// A sequence without consecutive repeats, appending elements one at a time.
fn dedup_exec(s: &Vec<usize>) -> (r: Vec<usize>)
    ensures
        r@ == dedup_seq(s@),
{
    let mut r: Vec<usize> = Vec::new();
    let mut i: usize = 0;
    while i < s.len()
        invariant
            0 <= i <= s@.len(),
            r@ == dedup_seq(s@.take(i as int)),
            i >= 1 ==> r@.len() >= 1 && r@.last() == s@[i - 1],
        decreases s@.len() - i,
    {
        let ghost t = s@.take(i as int + 1);
        assert(t.drop_last() =~= s@.take(i as int));
        if i == 0 {
            assert(t =~= seq![s@[0]]);
            r.push(s[0]);
            assert(r@ =~= t);
        } else {
            proof {
                assert(t[t.len() - 2] == s@[i - 1]);
                lemma_last_of_dedup(s@.take(i as int));
            }
            if s[i] != s[i - 1] {
                r.push(s[i]);
            }
        }
        i = i + 1;
    }
    assert(s@.take(s@.len() as int) =~= s@);
    r
}

/// The last element of a dedup is the last element.
proof fn lemma_last_of_dedup(s: Seq<usize>)
    requires
        s.len() >= 1,
    ensures
        dedup_seq(s).len() >= 1,
        dedup_seq(s).last() == s.last(),
    decreases s.len(),
{
    if s.len() > 1 {
        lemma_last_of_dedup(s.drop_last());
    }
}

/// Splits an array along an axis at boundaries `split_points`: piece `i` holds positions
/// `min(p[i], size)..min(p[i+1], size)` of the axis (no position when that range is empty), as
/// `gathered` describes. An axis that names no dimension is refused.
pub fn split_rs<T: Copy>(a: &NdArray<T>, spec: &SplitSpec, axis: isize) -> (r: Result<Vec<NdArray<T>>, ArrayError>)
    requires
        a.wf(),
        dims_fit(a.shape@),
        axis_ok(axis as int, a.shape@.len() as int) ==> {
            let size = a.shape@[norm_axis(axis as int, a.shape@.len() as int)] as int;
            &&& size <= isize::MAX
            &&& (*spec matches SplitSpec::Sections(n) ==> size * n <= usize::MAX)
        },
    ensures
        r is Err <==> !axis_ok(axis as int, a.shape@.len() as int),
        r is Err ==> r == Err::<Vec<NdArray<T>>, ArrayError>(ArrayError::AxisOutOfBounds),
        r matches Ok(pieces) ==> {
            let ax = norm_axis(axis as int, a.shape@.len() as int);
            let size = a.shape@[ax] as int;
            let p = split_points(*spec, size);
            &&& pieces@.len() == p.len() - 1
            &&& forall|i: int| 0 <= i < pieces@.len() ==> {
                let start = if p[i] <= size { p[i] as int } else { size };
                let end = if p[i + 1] <= size { p[i + 1] as int } else { size };
                let sel = range_positions(start, end);
                &&& (#[trigger] pieces@[i]).wf()
                &&& pieces@[i].shape@ == a.shape@.update(ax, sel.len() as usize)
                &&& pieces@[i].data@ == gathered(a.data@, pre_of(a.shape@, ax) as int, size, post_of(a.shape@, ax) as int, sel)
            }
        },
{
    let nd = a.shape.len();
    let ax = match normalize_axis(axis, nd) {
        None => {
            return Err(ArrayError::AxisOutOfBounds);
        },
        Some(x) => x,
    };
    let size = a.shape[ax];
    let ghost sz = size as int;
    let mut pts: Vec<usize> = Vec::new();
    pts.push(0);
    let ghost inner: Seq<usize> = spec_inner(*spec, sz);
    match spec {
        SplitSpec::Sections(n) => {
            let n = *n;
            if n >= 1 {
                let mut i: usize = 1;
                while i < n
                    invariant
                        1 <= i <= n,
                        size * n <= usize::MAX,
                        inner == section_points(sz, n as int),
                        sz == size as int,
                        pts@ =~= seq![0usize] + inner.take(i - 1),
                    decreases n - i,
                {
                    proof {
                        assert(size * i <= size * n) by (nonlinear_arith) requires i <= n;
                    }
                    let v = size * i / n;
                    pts.push(v);
                    proof {
                        assert(inner[i - 1] == (sz * i / (n as int)) as usize);
                        assert(inner.take(i as int) =~= inner.take(i - 1).push(inner[i - 1]));
                    }
                    i = i + 1;
                }
                assert(inner.take(n - 1) =~= inner);
            } else {
                assert(inner.len() == 0);
                assert(pts@ =~= seq![0usize] + inner);
            }
        },
        SplitSpec::Indices(v) => {
            let mut i: usize = 0;
            while i < v.len()
                invariant
                    0 <= i <= v@.len(),
                    sz == size as int,
                    size <= isize::MAX,
                    inner == index_points(v@, sz),
                    pts@ =~= seq![0usize] + index_points(v@.take(i as int), sz),
                decreases v@.len() - i,
            {
                proof {
                    assert(v@.take(i as int + 1).drop_last() =~= v@.take(i as int));
                }
                let x = v[i];
                let keep: bool;
                let p: usize;
                if x < 0 {
                    let q = size as isize + x;
                    keep = q >= 0;
                    p = if q >= 0 { q as usize } else { 0 };
                } else {
                    keep = (x as usize) <= size;
                    p = x as usize;
                }
                if keep {
                    pts.push(p);
                }
                i = i + 1;
            }
            assert(v@.take(v@.len() as int) =~= v@);
        },
    }
    pts.push(size);
    assert(pts@ =~= seq![0usize] + inner + seq![size]);
    let bounds = dedup_exec(&pts);
    proof {
        lemma_dedup_first(pts@);
    }
    let ghost p = bounds@;
    let bl = bounds.len();
    let dl = a.data.len();
    let mut pieces: Vec<NdArray<T>> = Vec::new();
    let mut i: usize = 0;
    while i + 1 < bl
        invariant
            0 <= i,
            i + 1 <= bounds@.len(),
            bl == bounds@.len(),
            dl == a.data@.len(),
            p == bounds@,
            ax < nd,
            nd == a.shape@.len(),
            size == a.shape@[ax as int],
            a.wf(),
            dims_fit(a.shape@),
            pieces@.len() == i,
            forall|i2: int| 0 <= i2 < i ==> {
                let start = if p[i2] <= size { p[i2] as int } else { size as int };
                let end = if p[i2 + 1] <= size { p[i2 + 1] as int } else { size as int };
                let sel = range_positions(start, end);
                &&& (#[trigger] pieces@[i2]).wf()
                &&& pieces@[i2].shape@ == a.shape@.update(ax as int, sel.len() as usize)
                &&& pieces@[i2].data@ == gathered(a.data@, pre_of(a.shape@, ax as int) as int, size as int,
                    post_of(a.shape@, ax as int) as int, sel)
            },
        decreases bounds@.len() - i,
    {
        let start = if bounds[i] <= size { bounds[i] } else { size };
        let end = if bounds[i + 1] <= size { bounds[i + 1] } else { size };
        let ghost spec_sel = range_positions(start as int, end as int);
        let mut sel: Vec<usize> = Vec::new();
        let mut k: usize = start;
        while k < end
            invariant
                start <= k <= end || (end <= start && k == start),
                end <= size,
                sel@ =~= range_positions(start as int, k as int),
            decreases end - k,
        {
            sel.push(k);
            k = k + 1;
        }
        assert(sel@ =~= spec_sel);
        proof {
            crate::shape::lemma_prod_axis(a.shape@, ax as int);
            let pre = pre_of(a.shape@, ax as int) as int;
            let post = post_of(a.shape@, ax as int) as int;
            let m = sel@.len() as int;
            assert(pre * m * post <= pre * (size as int) * post) by (nonlinear_arith)
                requires m <= size, pre >= 0, post >= 0;
        }
        let piece = gather_along(a, ax, &sel);
        pieces.push(piece);
        i = i + 1;
    }
    Ok(pieces)
}

} // verus!

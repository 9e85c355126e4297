use vstd::prelude::*;
use crate::array::{axis_ok, norm_axis, normalize_axis, ArrayError, NdArray};
use crate::permute::{ints, lemma_nonempty_dims};
use crate::shape::{dims_fit, prod};
use crate::strides::{compute_strides, flat_to_multi, in_bounds, lemma_ravel_bound, lemma_ravel_unravel,
    lemma_unravel_ravel, ravel, stride, unravel};

verus! {

/// Index in `s` of the `e`-th dimension other than `lo` and `hi` (`lo < hi`).
pub open spec fn other_axis(e: int, lo: int, hi: int) -> int {
    if e < lo { e } else if e + 1 < hi { e + 1 } else { e + 2 }
}

/// Position among the other dimensions of dimension `d` (not `lo`, not `hi`).
pub open spec fn other_index(d: int, lo: int, hi: int) -> int {
    if d < lo { d } else if d < hi { d - 1 } else { d - 2 }
}

/// Length of the diagonal with the given offset of a `d1 x d2` plane.
pub open spec fn diagonal_len(d1: int, d2: int, offset: int) -> int {
    if offset >= 0 {
        let c = if d2 - offset > 0 { d2 - offset } else { 0 };
        if d1 < c { d1 } else { c }
    } else {
        let r = if d1 + offset > 0 { d1 + offset } else { 0 };
        if r < d2 { r } else { d2 }
    }
}

/// Row and column of the `k`-th element of the diagonal with the given offset.
pub open spec fn diagonal_row(k: int, offset: int) -> int {
    if offset >= 0 { k } else { k - offset }
}

pub open spec fn diagonal_col(k: int, offset: int) -> int {
    if offset >= 0 { k + offset } else { k }
}

/// The diagonal with offset `offset` of a `d1 x d2` plane lists the entries `(r, c)` with
/// `c - r == offset`, in order of increasing row: its `k`-th entry lies inside the plane on
/// that diagonal, the next one along it after the last lies outside, and each entry
/// follows the previous one by one row and one column.
pub proof fn law_diagonal_entries(d1: int, d2: int, offset: int, k: int)
    requires
        d1 >= 0,
        d2 >= 0,
        k >= 0,
    ensures
        0 <= diagonal_len(d1, d2, offset),
        k < diagonal_len(d1, d2, offset) ==> 0 <= diagonal_row(k, offset) < d1 && 0 <= diagonal_col(k, offset) < d2,
        diagonal_col(k, offset) - diagonal_row(k, offset) == offset,
        diagonal_row(k + 1, offset) == diagonal_row(k, offset) + 1,
        0 <= diagonal_row(0, offset) && 0 <= diagonal_col(0, offset),
        diagonal_row(0, offset) == 0 || diagonal_col(0, offset) == 0,
        !(diagonal_row(diagonal_len(d1, d2, offset), offset) < d1 && diagonal_col(diagonal_len(d1, d2, offset), offset) < d2),
{
}

/// Shape of the result of `diagonal_ext`: the other dimensions, then the diagonal.
pub open spec fn diagonal_ext_shape(s: Seq<usize>, ax1: int, ax2: int, offset: int) -> Seq<usize> {
    let lo = if ax1 < ax2 { ax1 } else { ax2 };
    let hi = if ax1 < ax2 { ax2 } else { ax1 };
    Seq::new((s.len() - 2) as nat, |e: int| s[other_axis(e, lo, hi)])
        .push(diagonal_len(s[ax1] as int, s[ax2] as int, offset) as usize)
}

/// Source multi-index of element `m` of the result of `diagonal_ext`.
pub open spec fn diagonal_ext_source(m: Seq<int>, n: int, ax1: int, ax2: int, offset: int) -> Seq<int> {
    let lo = if ax1 < ax2 { ax1 } else { ax2 };
    let hi = if ax1 < ax2 { ax2 } else { ax1 };
    let k = m[m.len() - 1];
    Seq::new(n as nat, |d: int| if d == ax1 { diagonal_row(k, offset) } else if d == ax2 { diagonal_col(k, offset) }
        else { m[other_index(d, lo, hi)] })
}

/// Extracts the diagonals in the planes of `axis1` and `axis2`: the result holds the other
/// dimensions first, then the diagonal (see `diagonal_ext_source`).
pub fn diagonal_ext<T: Copy>(a: &NdArray<T>, offset: isize, axis1: isize, axis2: isize) -> (r: Result<NdArray<T>, ArrayError>)
    requires
        a.wf(),
        dims_fit(a.shape@),
        a.shape@.len() >= 2 && axis_ok(axis1 as int, a.shape@.len() as int) && axis_ok(axis2 as int, a.shape@.len() as int)
            && norm_axis(axis1 as int, a.shape@.len() as int) != norm_axis(axis2 as int, a.shape@.len() as int) ==> {
            let s = diagonal_ext_shape(a.shape@, norm_axis(axis1 as int, a.shape@.len() as int),
                norm_axis(axis2 as int, a.shape@.len() as int), offset as int);
            !(prod(s.drop_last()) == 0 && s.last() > 0)
        },
        offset != isize::MIN,
    ensures
        a.shape@.len() < 2 ==> r == Err::<NdArray<T>, ArrayError>(ArrayError::TooFewDimensions),
        a.shape@.len() >= 2 && norm_axis(axis1 as int, a.shape@.len() as int) == norm_axis(axis2 as int, a.shape@.len() as int)
            ==> r == Err::<NdArray<T>, ArrayError>(ArrayError::SameAxis),
        a.shape@.len() >= 2 && norm_axis(axis1 as int, a.shape@.len() as int) != norm_axis(axis2 as int, a.shape@.len() as int)
            && !(axis_ok(axis1 as int, a.shape@.len() as int) && axis_ok(axis2 as int, a.shape@.len() as int))
            ==> r == Err::<NdArray<T>, ArrayError>(ArrayError::AxisOutOfBounds),
        a.shape@.len() >= 2 && axis_ok(axis1 as int, a.shape@.len() as int) && axis_ok(axis2 as int, a.shape@.len() as int)
            && norm_axis(axis1 as int, a.shape@.len() as int) != norm_axis(axis2 as int, a.shape@.len() as int) ==> {
            let ax1 = norm_axis(axis1 as int, a.shape@.len() as int);
            let ax2 = norm_axis(axis2 as int, a.shape@.len() as int);
            r matches Ok(t) && t.wf() && t.shape@ == diagonal_ext_shape(a.shape@, ax1, ax2, offset as int)
                && forall|m: Seq<int>| in_bounds(m, t.shape@) ==> t.data@[#[trigger] ravel(m, t.shape@)]
                    == a.data@[ravel(diagonal_ext_source(m, a.shape@.len() as int, ax1, ax2, offset as int), a.shape@)]
        },
{
    let ndim = a.shape.len();
    if ndim < 2 {
        return Err(ArrayError::TooFewDimensions);
    }
    let n1 = normalize_axis(axis1, ndim);
    let n2 = normalize_axis(axis2, ndim);
    let same = match (n1, n2) {
        (Some(x), Some(y)) => x == y,
        (None, None) => axis1 == axis2,
        _ => false,
    };
    if same {
        return Err(ArrayError::SameAxis);
    }
    let (ax1, ax2) = match (n1, n2) {
        (Some(x), Some(y)) => (x, y),
        _ => { return Err(ArrayError::AxisOutOfBounds); },
    };
    let lo = if ax1 < ax2 { ax1 } else { ax2 };
    let hi = if ax1 < ax2 { ax2 } else { ax1 };
    let d1 = a.shape[ax1];
    let d2 = a.shape[ax2];
    let dlen: usize = if offset >= 0 {
        let off = offset as usize;
        let c = if d2 > off { d2 - off } else { 0 };
        if d1 < c { d1 } else { c }
    } else {
        let off = (0 - offset) as usize;
        let rr = if d1 > off { d1 - off } else { 0 };
        if rr < d2 { rr } else { d2 }
    };
    assert(dlen as int == diagonal_len(d1 as int, d2 as int, offset as int));
    let mut out_shape: Vec<usize> = Vec::new();
    let mut e: usize = 0;
    while e < ndim - 2
        invariant
            0 <= e <= ndim - 2,
            ndim == a.shape@.len(),
            lo < hi < ndim,
            out_shape@ =~= Seq::new(e as nat, |e2: int| a.shape@[other_axis(e2, lo as int, hi as int)]),
        decreases ndim - 2 - e,
    {
        let src = if e < lo { e } else if e + 1 < hi { e + 1 } else { e + 2 };
        out_shape.push(a.shape[src]);
        e = e + 1;
    }
    let ghost others = out_shape@;
    out_shape.push(dlen);
    assert(out_shape@ =~= diagonal_ext_shape(a.shape@, ax1 as int, ax2 as int, offset as int));
    assert(out_shape@.drop_last() =~= others);
    proof {
        lemma_prod_others(a.shape@, lo as int, hi as int);
        crate::shape::lemma_prod_pos(Seq::<usize>::empty());
        if prod(others) > 0 && dlen > 0 {
            lemma_nonempty_dims(others);
            assert(dlen <= d1);
            assert(prod(others) * dlen <= prod(others) * (d1 as nat) * (d2 as nat)) by (nonlinear_arith)
                requires dlen <= d1, d2 >= 1, prod(others) >= 1;
            lemma_prod_mul_comm3(prod(others) as int, a.shape@[lo as int] as int, a.shape@[hi as int] as int);
        }
        assert(prod(out_shape@) == prod(others) * (dlen as nat));
    }
    let _alen = a.data.len();
    let total: usize = if dlen == 0 { 0 } else {
        proof {
            if prod(others) > 0 {
                assert(prod(others) * (dlen as nat) <= prod(a.shape@));
            } else {
                assert(prod(others) * (dlen as nat) == 0);
            }
        }
        match crate::shape::checked_size(&out_shape) {
            Some(t) => t,
            None => 0,
        }
    };
    assert(total == prod(out_shape@)) by {
        if dlen == 0 {
            assert(prod(others) * (dlen as nat) == 0) by (nonlinear_arith) requires dlen == 0;
        }
    }
    let strides = compute_strides(&a.shape);
    let mut out: Vec<T> = Vec::new();
    let mut j: usize = 0;
    while j < total
        invariant
            0 <= j <= total,
            total == prod(out_shape@),
            ndim == a.shape@.len(),
            ndim >= 2,
            out_shape@ == diagonal_ext_shape(a.shape@, ax1 as int, ax2 as int, offset as int),
            ax1 < ndim, ax2 < ndim, ax1 != ax2,
            lo == (if ax1 < ax2 { ax1 } else { ax2 }),
            hi == (if ax1 < ax2 { ax2 } else { ax1 }),
            d1 == a.shape@[ax1 as int],
            d2 == a.shape@[ax2 as int],
            dlen as int == diagonal_len(d1 as int, d2 as int, offset as int),
            offset != isize::MIN,
            a.wf(),
            dims_fit(a.shape@),
            strides@.len() == ndim,
            forall|e2: int| 0 <= e2 < ndim ==> #[trigger] strides@[e2] == stride(a.shape@, e2),
            out@.len() == j,
            forall|j2: int| 0 <= j2 < j ==> #[trigger] out@[j2] == a.data@[ravel(
                diagonal_ext_source(unravel(j2, out_shape@), ndim as int, ax1 as int, ax2 as int, offset as int), a.shape@)],
        decreases total - j,
    {
        proof {
            lemma_nonempty_dims(out_shape@);
            lemma_ravel_unravel(j as int, out_shape@);
        }
        let m = flat_to_multi(j, &out_shape);
        assert(ints(m@) =~= unravel(j as int, out_shape@));
        let k = m[ndim - 2];
        let row: usize = if offset >= 0 { k } else { k + (0 - offset) as usize };
        let col: usize = if offset >= 0 { k + offset as usize } else { k };
        let ghost srcs = diagonal_ext_source(ints(m@), ndim as int, ax1 as int, ax2 as int, offset as int);
        let mut src: Vec<usize> = Vec::new();
        let mut d: usize = 0;
        while d < ndim
            invariant
                0 <= d <= ndim,
                ndim == a.shape@.len(),
                m@.len() == ndim - 1,
                in_bounds(ints(m@), out_shape@),
                out_shape@ == diagonal_ext_shape(a.shape@, ax1 as int, ax2 as int, offset as int),
                ax1 < ndim, ax2 < ndim, ax1 != ax2,
                lo == (if ax1 < ax2 { ax1 } else { ax2 }),
                hi == (if ax1 < ax2 { ax2 } else { ax1 }),
                row as int == diagonal_row(k as int, offset as int),
                col as int == diagonal_col(k as int, offset as int),
                row < a.shape@[ax1 as int],
                col < a.shape@[ax2 as int],
                k == m@[ndim - 2],
                srcs == diagonal_ext_source(ints(m@), ndim as int, ax1 as int, ax2 as int, offset as int),
                src@.len() == d,
                forall|d2: int| 0 <= d2 < d ==> #[trigger] src@[d2] as int == srcs[d2],
                forall|d2: int| 0 <= d2 < d ==> #[trigger] src@[d2] < a.shape@[d2],
            decreases ndim - d,
        {
            let v = if d == ax1 {
                row
            } else if d == ax2 {
                col
            } else {
                let oi = if d < lo { d } else if d < hi { d - 1 } else { d - 2 };
                proof {
                    assert(0 <= ints(m@)[oi as int] < out_shape@[oi as int]);
                    assert(other_axis(oi as int, lo as int, hi as int) == d);
                }
                m[oi]
            };
            src.push(v);
            d = d + 1;
        }
        assert(ints(src@) =~= srcs);
        proof {
            assert(in_bounds(ints(src@), a.shape@));
            lemma_ravel_bound(ints(src@), a.shape@);
        }
        let off = crate::permute::ravel_exec(&src, &a.shape, &strides);
        out.push(a.data[off]);
        j = j + 1;
    }
    let t = NdArray { data: out, shape: out_shape };
    assert forall|m: Seq<int>| in_bounds(m, t.shape@) implies t.data@[#[trigger] ravel(m, t.shape@)]
        == a.data@[ravel(diagonal_ext_source(m, ndim as int, ax1 as int, ax2 as int, offset as int), a.shape@)] by {
        lemma_ravel_bound(m, t.shape@);
        lemma_unravel_ravel(m, t.shape@);
    }
    Ok(t)
}

/// The product of the dimensions other than `lo` and `hi`, times those two, is the product of all.
pub proof fn lemma_prod_others(s: Seq<usize>, lo: int, hi: int)
    requires
        0 <= lo < hi < s.len(),
    ensures
        prod(s) == prod(Seq::new((s.len() - 2) as nat, |e: int| s[other_axis(e, lo, hi)])) * (s[lo] as nat) * (s[hi] as nat),
{
    let s1 = s.remove(hi);
    crate::permute::lemma_prod_remove(s, hi);
    let s2 = s1.remove(lo);
    crate::permute::lemma_prod_remove(s1, lo);
    assert(s2 =~= Seq::new((s.len() - 2) as nat, |e: int| s[other_axis(e, lo, hi)]));
    assert(s1[lo] == s[lo]);
    let a = prod(s2) as int;
    let b = s[lo] as int;
    let c = s[hi] as int;
    assert(a * b * c == a * b * c);
}

/// Regrouping of a product of three factors.
pub proof fn lemma_prod_mul_comm3(a: int, b: int, c: int)
    ensures
        a * b * c == a * (b * c),
        a * b * c == a * c * b,
{
    assert(a * b * c == a * (b * c)) by (nonlinear_arith);
    assert(a * b * c == a * c * b) by (nonlinear_arith);
}

/// Multi-index of the `k`-th element taken by `NdArray::diagonal`: `axis1` at
/// `i_start + k`, `axis2` at `j_start + k` (unless it is `axis1`), every other coordinate 0.
pub open spec fn diagonal_coords(n: int, axis1: int, axis2: int, offset: int, k: int) -> Seq<int> {
    let mag = if offset < 0 { -offset } else { offset };
    let i_start = if offset >= 0 { 0 } else { mag };
    let j_start = if offset >= 0 { mag } else { 0 };
    Seq::new(n as nat, |d: int| if d == axis1 { i_start + k } else if d == axis2 { j_start + k } else { 0 })
}

/// Number of elements taken by `NdArray::diagonal`.
pub open spec fn diagonal_count(d1: int, d2: int, offset: int) -> int {
    let mag = if offset < 0 { -offset } else { offset };
    let mn = if d1 < d2 { d1 } else { d2 };
    if mn > mag { mn - mag } else { 0 }
}

impl<T: Copy> NdArray<T> {
    /// The diagonal with the given offset in the plane of `axis1` and `axis2`, taken with every
    /// other coordinate at 0.
    pub fn diagonal(&self, offset: isize, axis1: usize, axis2: usize) -> (r: Result<NdArray<T>, ArrayError>)
        requires
            self.wf(),
            dims_fit(self.shape@),
            self.shape@.len() >= 2 && axis1 < self.shape@.len() && axis2 < self.shape@.len()
                && diagonal_count(self.shape@[axis1 as int] as int, self.shape@[axis2 as int] as int, offset as int) > 0
                ==> self.data@.len() > 0,
        ensures
            self.shape@.len() < 2 ==> r == Err::<NdArray<T>, ArrayError>(ArrayError::TooFewDimensions),
            self.shape@.len() >= 2 && (axis1 >= self.shape@.len() || axis2 >= self.shape@.len())
                ==> r == Err::<NdArray<T>, ArrayError>(ArrayError::AxisOutOfBounds),
            self.shape@.len() >= 2 && axis1 < self.shape@.len() && axis2 < self.shape@.len() ==> {
                let cnt = diagonal_count(self.shape@[axis1 as int] as int, self.shape@[axis2 as int] as int, offset as int);
                r matches Ok(t) && t.wf() && t.shape@ == seq![cnt as usize]
                    && forall|k: int| 0 <= k < cnt ==> #[trigger] t.data@[k]
                        == self.data@[ravel(diagonal_coords(self.shape@.len() as int, axis1 as int, axis2 as int, offset as int, k), self.shape@)]
            },
    {
        let ndim = self.shape.len();
        if ndim < 2 {
            return Err(ArrayError::TooFewDimensions);
        }
        if axis1 >= ndim || axis2 >= ndim {
            return Err(ArrayError::AxisOutOfBounds);
        }
        let d1 = self.shape[axis1];
        let d2 = self.shape[axis2];
        let mag: usize = if offset < 0 { ((0 - (offset + 1)) as usize) + 1 } else { offset as usize };
        let mn = if d1 < d2 { d1 } else { d2 };
        let cnt: usize = if mn > mag { mn - mag } else { 0 };
        let i_start: usize = if offset >= 0 { 0 } else { mag };
        let j_start: usize = if offset >= 0 { mag } else { 0 };
        let strides = compute_strides(&self.shape);
        proof {
            if cnt > 0 {
                lemma_nonempty_dims(self.shape@);
            }
        }
        let mut out: Vec<T> = Vec::new();
        let mut k: usize = 0;
        while k < cnt
            invariant
                0 <= k <= cnt,
                ndim == self.shape@.len(),
                axis1 < ndim, axis2 < ndim,
                d1 == self.shape@[axis1 as int],
                d2 == self.shape@[axis2 as int],
                cnt as int == diagonal_count(d1 as int, d2 as int, offset as int),
                mag as int == (if offset < 0 { -(offset as int) } else { offset as int }),
                i_start as int == (if offset >= 0 { 0 } else { mag as int }),
                j_start as int == (if offset >= 0 { mag as int } else { 0 }),
                cnt > 0 ==> forall|d: int| 0 <= d < ndim ==> #[trigger] self.shape@[d] > 0,
                self.wf(),
                dims_fit(self.shape@),
                strides@.len() == ndim,
                forall|e2: int| 0 <= e2 < ndim ==> #[trigger] strides@[e2] == stride(self.shape@, e2),
                out@.len() == k,
                forall|k2: int| 0 <= k2 < k ==> #[trigger] out@[k2]
                    == self.data@[ravel(diagonal_coords(ndim as int, axis1 as int, axis2 as int, offset as int, k2), self.shape@)],
            decreases cnt - k,
        {
            let mut coords: Vec<usize> = Vec::new();
            let mut d: usize = 0;
            while d < ndim
                invariant
                    0 <= d <= ndim,
                    k < cnt,
                    ndim == self.shape@.len(),
                    axis1 < ndim, axis2 < ndim,
                    d1 == self.shape@[axis1 as int],
                    d2 == self.shape@[axis2 as int],
                    cnt as int == diagonal_count(d1 as int, d2 as int, offset as int),
                    mag as int == (if offset < 0 { -(offset as int) } else { offset as int }),
                    i_start as int == (if offset >= 0 { 0 } else { mag as int }),
                    j_start as int == (if offset >= 0 { mag as int } else { 0 }),
                    forall|d2: int| 0 <= d2 < ndim ==> #[trigger] self.shape@[d2] > 0,
                    coords@.len() == d,
                    forall|d2: int| 0 <= d2 < d ==> #[trigger] coords@[d2] as int
                        == diagonal_coords(ndim as int, axis1 as int, axis2 as int, offset as int, k as int)[d2],
                    forall|d2: int| 0 <= d2 < d ==> #[trigger] coords@[d2] < self.shape@[d2],
                decreases ndim - d,
            {
                let v = if d == axis1 { i_start + k } else if d == axis2 { j_start + k } else { 0 };
                coords.push(v);
                d = d + 1;
            }
            assert(ints(coords@) =~= diagonal_coords(ndim as int, axis1 as int, axis2 as int, offset as int, k as int));
            proof {
                assert(in_bounds(ints(coords@), self.shape@));
                lemma_ravel_bound(ints(coords@), self.shape@);
            }
            let off = crate::permute::ravel_exec(&coords, &self.shape, &strides);
            out.push(self.data[off]);
            k = k + 1;
        }
        let mut shape: Vec<usize> = Vec::new();
        shape.push(cnt);
        proof { crate::shapes::lemma_prod_small(shape@); }
        Ok(NdArray { data: out, shape })
    }
}

} // verus!
